use vstd::prelude::*;

verus! {

/// Unicode `White_Space` characters.
pub open spec fn is_space(c: char) -> bool {
    ('\u{9}' <= c && c <= '\u{d}') || c == ' ' || c == '\u{85}' || c == '\u{a0}' || c == '\u{1680}'
        || ('\u{2000}' <= c && c <= '\u{200a}') || c == '\u{2028}' || c == '\u{2029}'
        || c == '\u{202f}' || c == '\u{205f}' || c == '\u{3000}'
}

/// Characters of the private-use planes (general category `Co`).
pub open spec fn is_private_use(c: char) -> bool {
    ('\u{e000}' <= c && c <= '\u{f8ff}') || ('\u{f0000}' <= c && c <= '\u{ffffd}') || (
    '\u{100000}' <= c && c <= '\u{10fffd}')
}

pub open spec fn is_ascii_letter(c: char) -> bool {
    ('a' <= c && c <= 'z') || ('A' <= c && c <= 'Z')
}

pub open spec fn is_lower(c: char) -> bool {
    'a' <= c && c <= 'z'
}

pub open spec fn is_upper(c: char) -> bool {
    'A' <= c && c <= 'Z'
}

/// A character that may stand inside a phrase token.
pub open spec fn is_token_char(c: char) -> bool {
    is_ascii_letter(c) || c == '/' || c == '.'
}

pub fn space(c: char) -> (r: bool)
    ensures
        r == is_space(c),
{
    ('\u{9}' <= c && c <= '\u{d}') || c == ' ' || c == '\u{85}' || c == '\u{a0}' || c == '\u{1680}'
        || ('\u{2000}' <= c && c <= '\u{200a}') || c == '\u{2028}' || c == '\u{2029}'
        || c == '\u{202f}' || c == '\u{205f}' || c == '\u{3000}'
}

pub fn private_use(c: char) -> (r: bool)
    ensures
        r == is_private_use(c),
{
    ('\u{e000}' <= c && c <= '\u{f8ff}') || ('\u{f0000}' <= c && c <= '\u{ffffd}') || (
    '\u{100000}' <= c && c <= '\u{10fffd}')
}

pub fn ascii_letter(c: char) -> (r: bool)
    ensures
        r == is_ascii_letter(c),
{
    ('a' <= c && c <= 'z') || ('A' <= c && c <= 'Z')
}

pub fn lower(c: char) -> (r: bool)
    ensures
        r == is_lower(c),
{
    'a' <= c && c <= 'z'
}

pub fn upper(c: char) -> (r: bool)
    ensures
        r == is_upper(c),
{
    'A' <= c && c <= 'Z'
}

pub fn token_char(c: char) -> (r: bool)
    ensures
        r == is_token_char(c),
{
    ascii_letter(c) || c == '/' || c == '.'
}

/// Relies on `str::chars` (collected into a `Vec`): the characters of the text, in order.
#[verifier::external_body]
pub(crate) fn chars_of(s: &str) -> (r: Vec<char>)
    ensures
        r@ == s@,
{
    s.chars().collect()
}

/// Relies on `String`'s `FromIterator<&char>`: the text made of the given characters, in order.
#[verifier::external_body]
pub(crate) fn text_of(v: &[char]) -> (r: String)
    ensures
        r@ == v@,
{
    v.iter().collect()
}

} // verus!
