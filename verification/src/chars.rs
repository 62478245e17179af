//! The two functions of the standard library that are taken on trust: one
//! that appends a character to a text, and one that makes a character from
//! its number.

use vstd::prelude::*;

verus! {

/// `String::push`: the character is appended to the end of the text.
#[verifier::external_body]
pub(crate) fn push_char(text: &mut String, c: char)
    ensures
        final(text)@ == old(text)@.push(c),
{
    text.push(c)
}

/// `char::from_u32`: the character with the given number, which exists
/// exactly when the number is at most `0x10FFFF` and is no surrogate.
#[verifier::external_body]
pub(crate) fn char_of(n: u32) -> (c: Option<char>)
    ensures
        (n <= 0xD7FF || 0xE000 <= n <= 0x10FFFF) ==> c == Some(n as char),
        !(n <= 0xD7FF || 0xE000 <= n <= 0x10FFFF) ==> c is None,
{
    char::from_u32(n)
}

} // verus!
