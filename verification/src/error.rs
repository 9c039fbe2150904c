//! The two ways in which reading a text can fail.
use vstd::prelude::*;

verus! {

/// Describes all possible errors that could occur while parsing a JSON string
#[derive(Debug, PartialEq)]
pub enum JsonError {
    /// An unexpected character was found in the JSON
    UnexpectedToken {
        /// The invalid character
        character: char,
        /// The index where the char was found
        location: usize,
    },
    /// Unexpected end of input
    UnexpectedEOF,
}

impl Clone for JsonError {
    fn clone(&self) -> (r: Self)
        ensures
            r == *self,
    {
        match self {
            JsonError::UnexpectedToken { character, location } => JsonError::UnexpectedToken {
                character: *character,
                location: *location,
            },
            JsonError::UnexpectedEOF => JsonError::UnexpectedEOF,
        }
    }
}

/// The error that blames character `c` at offset `loc`.
pub open spec fn token_error(c: char, loc: int) -> JsonError {
    JsonError::UnexpectedToken { character: c, location: loc as usize }
}

/// The error that blames character `c` at offset `loc`.
pub fn tok_err(c: char, loc: usize) -> (e: JsonError)
    ensures
        e == token_error(c, loc as int),
{
    JsonError::UnexpectedToken { character: c, location: loc }
}

} // verus!
