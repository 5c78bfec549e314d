//! The boundary between `str`/`String` and the character sequences the
//! verified code works on, together with the one character class the
//! tokenizer needs.

use vstd::prelude::*;

verus! {

/// The Unicode alphanumeric property of a character.  The value is whatever
/// `char::is_alphanumeric` answers; it depends on the character alone.
pub uninterp spec fn alphanumeric(c: char) -> bool;

/// Relies on `char::is_alphanumeric`: the Unicode alphanumeric property,
/// a function of the character alone.
#[verifier::external_body]
pub fn char_alphanumeric(c: char) -> (r: bool)
    ensures
        r == alphanumeric(c),
{
    c.is_alphanumeric()
}

/// Relies on `str::chars` collected into a `Vec`: the characters of the
/// string, in order.
#[verifier::external_body]
pub fn text_chars(s: &str) -> (r: Vec<char>)
    ensures
        r@ == s@,
{
    s.chars().collect()
}

/// Relies on `String`'s `FromIterator<char>`: the string holding exactly
/// the given characters, in order.
#[verifier::external_body]
pub fn chars_text(v: &Vec<char>) -> (r: String)
    ensures
        r@ == v@,
{
    v.iter().collect()
}

/// ASCII-only case folding: the 26 ASCII capitals map to their lower-case
/// counterparts, every other character passes through.
pub open spec fn lower_char(c: char) -> char {
    if 65 <= c as u32 && c as u32 <= 90 {
        (((c as u32) + 32) as u8) as char
    } else {
        c
    }
}

/// Folds one character to lower case the way `char::to_ascii_lowercase`
/// does: only ASCII capitals change.
pub fn to_lower(c: char) -> (r: char)
    ensures
        r == lower_char(c),
{
    let u = c as u32;
    if 65 <= u && u <= 90 {
        ((u + 32) as u8) as char
    } else {
        c
    }
}

} // verus!
