//! Character classes as `char`'s own methods decide them.
//!
//! White space is a short, fixed list of code points and is written out.
//! The numeric and alphabetic classes come from the Unicode character
//! database; each is named by an uninterpreted spec function, and the trusted
//! wrappers below state that the std method agrees with that name.  For
//! ASCII characters those classes are small, fixed sets, and the wrappers
//! say which.
use vstd::prelude::*;

verus! {

/// `c` has the Unicode `White_Space` property (`char::is_whitespace`): the
/// controls from tab to carriage return, space, next line, no-break space,
/// Ogham space mark, the spaces from en quad to hair space, line and
/// paragraph separators, narrow no-break space, medium mathematical space
/// and ideographic space.
pub open spec fn char_is_whitespace(c: char) -> bool {
    let u = c as u32;
    ||| 0x09 <= u <= 0x0d
    ||| u == 0x20
    ||| u == 0x85
    ||| u == 0xa0
    ||| u == 0x1680
    ||| 0x2000 <= u <= 0x200a
    ||| u == 0x2028
    ||| u == 0x2029
    ||| u == 0x202f
    ||| u == 0x205f
    ||| u == 0x3000
}

/// `c` is in a numeric general category: `Nd`, `Nl` or `No`.
pub uninterp spec fn char_in_number_category(c: char) -> bool;

/// `c` is numeric (`char::is_numeric`): it is in a numeric general
/// category.  No white-space character is (they are controls, spaces or
/// separators), which the second conjunct spells out.
pub open spec fn char_is_numeric(c: char) -> bool {
    char_in_number_category(c) && !char_is_whitespace(c)
}

/// `c` has the Unicode `Alphabetic` property (`char::is_alphabetic`).
pub uninterp spec fn char_is_alphabetic(c: char) -> bool;

/// `c` is alphabetic or numeric (`char::is_alphanumeric`).
pub open spec fn char_is_alphanumeric(c: char) -> bool {
    char_is_alphabetic(c) || char_is_numeric(c)
}

/// Whether `c` is white space, as `char::is_whitespace` decides it.
pub fn is_whitespace(c: char) -> (r: bool)
    ensures
        r == char_is_whitespace(c),
{
    let u = c as u32;
    (0x09 <= u && u <= 0x0d) || u == 0x20 || u == 0x85 || u == 0xa0 || u == 0x1680 || (0x2000
        <= u && u <= 0x200a) || u == 0x2028 || u == 0x2029 || u == 0x202f || u == 0x205f || u
        == 0x3000
}

/// Trusted: calls `char::is_numeric`.  Its result is whether `c` is in a
/// numeric general category (no white-space character is); among ASCII
/// characters, those are the digits.
#[verifier::external_body]
pub(crate) fn is_numeric(c: char) -> (r: bool)
    ensures
        r == (char_in_number_category(c) && !char_is_whitespace(c)),
        (c as u32) < 128 ==> (r <==> ('0' <= c && c <= '9')),
{
    c.is_numeric()
}

/// Trusted: calls `char::is_alphabetic`.  Its result is the `Alphabetic`
/// property of `c`; among ASCII characters, those are the Latin letters.
#[verifier::external_body]
pub(crate) fn is_alphabetic(c: char) -> (r: bool)
    ensures
        r == char_is_alphabetic(c),
        (c as u32) < 128 ==> (r <==> (('a' <= c && c <= 'z') || ('A' <= c && c <= 'Z'))),
{
    c.is_alphabetic()
}

/// Whether `c` is alphabetic or numeric, as `char::is_alphanumeric` decides
/// it (std documents it as `is_alphabetic() || is_numeric()`).
pub fn is_alphanumeric(c: char) -> (r: bool)
    ensures
        r == char_is_alphanumeric(c),
{
    is_alphabetic(c) || is_numeric(c)
}

} // verus!
