//! Character and string primitives of std that the case engine relies on,
//! with what their documentation and source state for ASCII input.
use vstd::prelude::*;

verus! {

/// Whether `c` is in the ASCII range.
pub open spec fn is_ascii_char(c: char) -> bool {
    (c as u32) < 128
}

/// Whether every character of `s` is in the ASCII range.
pub open spec fn all_ascii(s: Seq<char>) -> bool {
    forall|i: int| 0 <= i < s.len() ==> is_ascii_char(#[trigger] s[i])
}

pub open spec fn is_ascii_upper(c: char) -> bool {
    'A' <= c && c <= 'Z'
}

pub open spec fn is_ascii_lower(c: char) -> bool {
    'a' <= c && c <= 'z'
}

/// ASCII lowercase mapping: `A`..`Z` to `a`..`z`, every other character unchanged.
pub open spec fn ascii_lower(c: char) -> char {
    if is_ascii_upper(c) {
        ((c as u32) + 32) as char
    } else {
        c
    }
}

/// ASCII uppercase mapping: `a`..`z` to `A`..`Z`, every other character unchanged.
pub open spec fn ascii_upper(c: char) -> char {
    if is_ascii_lower(c) {
        ((c as u32) - 32) as char
    } else {
        c
    }
}

/// The Unicode `Uppercase` property of a character.
pub uninterp spec fn upper_char(c: char) -> bool;

/// The Unicode `Lowercase` property of a character.
pub uninterp spec fn lower_char(c: char) -> bool;

/// The Unicode `Alphabetic` property of a character.
pub uninterp spec fn alpha_char(c: char) -> bool;

/// The full Unicode lowercase of a string.
pub uninterp spec fn lower_of(s: Seq<char>) -> Seq<char>;

/// The full Unicode uppercase of a string.
pub uninterp spec fn upper_of(s: Seq<char>) -> Seq<char>;

/// The full Unicode uppercase mapping of one character (one to three characters).
pub uninterp spec fn char_upper_of(c: char) -> Seq<char>;

/// Relies on `char::is_uppercase`: the `Uppercase` property, which on ASCII
/// holds exactly of `A`..`Z`.
#[verifier::external_body]
pub(crate) fn is_upper(c: char) -> (r: bool)
    ensures
        r == upper_char(c),
        is_ascii_char(c) ==> (r <==> is_ascii_upper(c)),
{
    c.is_uppercase()
}

/// Relies on `char::is_lowercase`: the `Lowercase` property, which on ASCII
/// holds exactly of `a`..`z`.
#[verifier::external_body]
pub(crate) fn is_lower(c: char) -> (r: bool)
    ensures
        r == lower_char(c),
        is_ascii_char(c) ==> (r <==> is_ascii_lower(c)),
{
    c.is_lowercase()
}

/// Relies on `char::is_alphabetic`: the `Alphabetic` property, which on ASCII
/// holds exactly of the letters.
#[verifier::external_body]
pub(crate) fn is_alpha(c: char) -> (r: bool)
    ensures
        r == alpha_char(c),
        is_ascii_char(c) ==> (r <==> (is_ascii_upper(c) || is_ascii_lower(c))),
{
    c.is_alphabetic()
}

/// Relies on `str::to_lowercase`: on an ASCII string it lowercases each
/// character on its own.
#[verifier::external_body]
pub(crate) fn to_lower(s: &str) -> (r: String)
    ensures
        r@ == lower_of(s@),
        all_ascii(s@) ==> r@ == s@.map_values(|c: char| ascii_lower(c)),
{
    s.to_lowercase()
}

/// Relies on `str::to_uppercase`: on an ASCII string it uppercases each
/// character on its own.
#[verifier::external_body]
pub(crate) fn to_upper(s: &str) -> (r: String)
    ensures
        r@ == upper_of(s@),
        all_ascii(s@) ==> r@ == s@.map_values(|c: char| ascii_upper(c)),
{
    s.to_uppercase()
}

/// Relies on `char::to_uppercase`: the uppercase mapping of one character,
/// which for an ASCII character is its ASCII uppercase alone.
#[verifier::external_body]
pub(crate) fn char_to_upper(c: char) -> (r: String)
    ensures
        r@ == char_upper_of(c),
        is_ascii_char(c) ==> r@ == seq![ascii_upper(c)],
{
    c.to_uppercase().collect::<String>()
}

/// Relies on `String::push`: appends one character.
#[verifier::external_body]
pub(crate) fn push_char(s: &mut String, c: char)
    ensures
        final(s)@ == old(s)@.push(c),
{
    s.push(c)
}

} // verus!
