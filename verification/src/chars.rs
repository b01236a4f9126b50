//! Character classes used by input validation.

use vstd::prelude::*;

verus! {

/// Whether `char::is_uppercase` holds of `c` (the Unicode `Uppercase`
/// property).
pub uninterp spec fn unicode_uppercase(c: char) -> bool;

/// Whether `char::is_lowercase` holds of `c` (the Unicode `Lowercase`
/// property).
pub uninterp spec fn unicode_lowercase(c: char) -> bool;

/// Whether `char::is_alphanumeric` holds of `c` (Unicode `Alphabetic` or
/// `Numeric`).
pub uninterp spec fn unicode_alphanumeric(c: char) -> bool;

/// `char::is_uppercase`. Its result is named; the ASCII cases are stated:
/// `A`-`Z` are uppercase and no other ASCII character is.
#[verifier::external_body]
pub fn is_uppercase(c: char) -> (r: bool)
    ensures
        r == unicode_uppercase(c),
        'A' <= c <= 'Z' ==> r,
        (c as u32) < 128 && !('A' <= c <= 'Z') ==> !r,
{
    c.is_uppercase()
}

/// `char::is_lowercase`. Its result is named; `a`-`z` are lowercase and
/// no other ASCII character is.
#[verifier::external_body]
pub fn is_lowercase(c: char) -> (r: bool)
    ensures
        r == unicode_lowercase(c),
        'a' <= c <= 'z' ==> r,
        (c as u32) < 128 && !('a' <= c <= 'z') ==> !r,
{
    c.is_lowercase()
}

/// `char::is_alphanumeric`. Its result is named; ASCII letters and digits
/// are alphanumeric, and no other ASCII character is.
#[verifier::external_body]
pub fn is_alphanumeric(c: char) -> (r: bool)
    ensures
        r == unicode_alphanumeric(c),
        (c as u32) < 128 ==> (r <==> (('a' <= c <= 'z') || ('A' <= c <= 'Z') || ('0' <= c <= '9'))),
{
    c.is_alphanumeric()
}

/// An ASCII decimal digit.
pub open spec fn ascii_digit(c: char) -> bool {
    '0' <= c <= '9'
}

/// An ASCII graphic character: `!` to `~`.
pub open spec fn ascii_graphic(c: char) -> bool {
    '!' <= c <= '~'
}

/// An ASCII punctuation character: a graphic one that is not a letter or
/// a digit.
pub open spec fn ascii_punctuation(c: char) -> bool {
    ('!' <= c <= '/') || (':' <= c <= '@') || ('[' <= c <= '`') || ('{' <= c <= '~')
}

/// Whether `c` is an ASCII decimal digit.
pub fn is_ascii_digit(c: char) -> (r: bool)
    ensures
        r == ascii_digit(c),
{
    '0' <= c && c <= '9'
}

/// Whether `c` is an ASCII graphic character.
pub fn is_ascii_graphic(c: char) -> (r: bool)
    ensures
        r == ascii_graphic(c),
{
    '!' <= c && c <= '~'
}

/// Whether `c` is ASCII punctuation.
pub fn is_ascii_punctuation(c: char) -> (r: bool)
    ensures
        r == ascii_punctuation(c),
{
    ('!' <= c && c <= '/') || (':' <= c && c <= '@') || ('[' <= c && c <= '`') || ('{' <= c && c <= '~')
}

} // verus!
