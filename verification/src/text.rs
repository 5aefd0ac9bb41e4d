//! Character classes of the expression alphabet, and the two pieces of
//! standard-library string plumbing the lexer rests on.

use vstd::prelude::*;

verus! {

/// Whether a character outside the ASCII range counts as alphanumeric.
/// This names what `char::is_alphanumeric` decides there; the library
/// never assumes anything else about it.
pub uninterp spec fn non_ascii_alphanumeric(c: char) -> bool;

/// An ASCII decimal digit.
pub open spec fn is_digit_char(c: char) -> bool {
    '0' <= c && c <= '9'
}

/// A character that can stand in an identifier or operator word: an
/// alphanumeric character.
pub open spec fn is_word_char(c: char) -> bool {
    if (c as u32) < 128 {
        is_digit_char(c) || ('a' <= c && c <= 'z') || ('A' <= c && c <= 'Z')
    } else {
        non_ascii_alphanumeric(c)
    }
}

/// Relies on `char::is_alphanumeric`: a fixed classification per character,
/// which on ASCII characters holds exactly for the digits and letters.
#[verifier::external_body]
pub fn word_char(c: char) -> (r: bool)
    ensures
        r == is_word_char(c),
        (c as u32) >= 128 ==> r == non_ascii_alphanumeric(c),
{
    c.is_alphanumeric()
}

/// Relies on `String::push`: it appends exactly the one character.
#[verifier::external_body]
pub fn push_char(s: &mut String, c: char)
    ensures
        final(s)@ == old(s)@.push(c),
{
    s.push(c);
}

} // verus!
