//! A JSON reader and writer: text to a tree of values and back, with the
//! offending character and its offset reported for malformed input.
//!
//! Numbers are kept as decimal numerals, digit for digit; the library holds no
//! machine number. The members of an object are a map: the order in which they
//! are held shows in the text that is written and in nothing else.
pub mod chars;
pub mod error;
pub mod strings;
pub mod number;
pub mod value;
pub mod equality;
pub mod stack;
pub mod parser;
pub mod serialize;
pub mod passage;
pub mod numerals;
pub mod rereading;
pub mod containers;
pub mod roundtrip;
pub mod blame;
pub mod margins;
pub mod spacing;

pub use error::JsonError;
pub use number::JsonNumber;
pub use parser::json_parse;
pub use value::{JsonObject, JsonValue};
