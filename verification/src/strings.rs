//! Building a `String` character by character, and taking a text apart.
use vstd::prelude::*;

verus! {

/// Appends one character to a string. The body is `String::push`, of which the
/// contract says what its documentation does: the character is added at the end.
#[verifier::external_body]
pub(crate) fn push_char(s: &mut String, c: char)
    ensures
        final(s)@ == old(s)@.push(c),
{
    s.push(c)
}

/// The characters of a text, in order.
pub fn to_chars(s: &str) -> (v: Vec<char>)
    ensures
        v@ == s@,
{
    let mut v: Vec<char> = Vec::new();
    for c in it: s.chars()
        invariant
            v@ == it.seq().take(it.index() as int),
    {
        v.push(c);
    }
    v
}

/// Appends every character of `tail` to `s`.
pub fn push_chars(s: &mut String, tail: &str)
    ensures
        final(s)@ == old(s)@ + tail@,
{
    for c in it: tail.chars()
        invariant
            s@ == old(s)@ + it.seq().take(it.index() as int),
    {
        push_char(s, c);
    }
}

} // verus!
