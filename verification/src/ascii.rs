//! Byte and character classes: the ASCII classes of `u8`, stated and
//! computed here, and the Unicode classes of `char`, which `char`'s own
//! methods decide.
use vstd::prelude::*;

verus! {

/// `b` is an ASCII letter.
pub open spec fn ascii_alpha(b: u8) -> bool {
    (65 <= b && b <= 90) || (97 <= b && b <= 122)
}

/// `b` is an ASCII digit.
pub open spec fn ascii_digit(b: u8) -> bool {
    48 <= b && b <= 57
}

/// `b` is an ASCII letter or digit.
pub open spec fn ascii_alnum(b: u8) -> bool {
    ascii_alpha(b) || ascii_digit(b)
}

/// `b` is ASCII whitespace: space, tab, line feed, form feed or carriage return.
pub open spec fn ascii_ws(b: u8) -> bool {
    b == 32 || b == 9 || b == 10 || b == 12 || b == 13
}

/// `b` is ASCII punctuation: one of ``!"#$%&'()*+,-./:;<=>?@[\]^_`{|}~``.
pub open spec fn ascii_punct(b: u8) -> bool {
    (33 <= b && b <= 47) || (58 <= b && b <= 64) || (91 <= b && b <= 96) || (123 <= b && b <= 126)
}

pub fn is_ascii_alphabetic(b: u8) -> (r: bool)
    ensures
        r == ascii_alpha(b),
{
    (65 <= b && b <= 90) || (97 <= b && b <= 122)
}

pub fn is_ascii_digit(b: u8) -> (r: bool)
    ensures
        r == ascii_digit(b),
{
    48 <= b && b <= 57
}

pub fn is_ascii_alphanumeric(b: u8) -> (r: bool)
    ensures
        r == ascii_alnum(b),
{
    is_ascii_alphabetic(b) || is_ascii_digit(b)
}

pub fn is_ascii_whitespace(b: u8) -> (r: bool)
    ensures
        r == ascii_ws(b),
{
    b == 32 || b == 9 || b == 10 || b == 12 || b == 13
}

pub fn is_ascii_punctuation(b: u8) -> (r: bool)
    ensures
        r == ascii_punct(b),
{
    (33 <= b && b <= 47) || (58 <= b && b <= 64) || (91 <= b && b <= 96) || (123 <= b && b <= 126)
}

/// Whether `char::is_alphabetic` holds of `c` (the Unicode `Alphabetic` property).
pub uninterp spec fn char_alphabetic(c: char) -> bool;

/// Whether `char::is_whitespace` holds of `c` (the Unicode `White_Space` property).
pub uninterp spec fn char_whitespace(c: char) -> bool;

/// Whether `char::is_alphanumeric` holds of `c` (alphabetic or numeric).
pub uninterp spec fn char_alphanumeric(c: char) -> bool;

/// `char::is_alphabetic`; its result depends on `c` alone, through the
/// Unicode tables of the standard library, and is named, not stated.
#[verifier::external_body]
pub(crate) fn is_alphabetic(c: char) -> (r: bool)
    ensures
        r == char_alphabetic(c),
{
    c.is_alphabetic()
}

/// Whether `char::is_whitespace` holds of `c`: the Unicode `White_Space`
/// property, which among ASCII characters holds of tab, line feed, vertical
/// tab, form feed, carriage return and space.
pub open spec fn white_space(c: char) -> bool {
    if (c as u32) < 128 {
        c == ' ' || ('\t' <= c && c <= '\r')
    } else {
        char_whitespace(c)
    }
}

/// `char::is_whitespace`; on ASCII characters its result is the fixed set
/// of the Unicode `White_Space` property, on others it depends on `c`
/// alone, through the Unicode tables of the standard library, and is
/// named, not stated.
#[verifier::external_body]
pub(crate) fn is_whitespace(c: char) -> (r: bool)
    ensures
        (c as u32) < 128 ==> (r <==> (c == ' ' || ('\t' <= c && c <= '\r'))),
        (c as u32) >= 128 ==> r == char_whitespace(c),
{
    c.is_whitespace()
}

/// `char::is_alphanumeric`; its result depends on `c` alone, through the
/// Unicode tables of the standard library, and is named, not stated.
#[verifier::external_body]
pub(crate) fn is_alphanumeric(c: char) -> (r: bool)
    ensures
        r == char_alphanumeric(c),
{
    c.is_alphanumeric()
}

} // verus!
