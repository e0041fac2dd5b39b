//! Thin trusted shims over std character and string conversions that vstd
//! gives no specification for.  Each wrapper holds exactly one std call.

use vstd::prelude::*;

verus! {

/// Whether a character counts as alphanumeric for bare variable names.
/// This is the Unicode character classification made by
/// `char::is_alphanumeric`; it depends on the character alone.
pub uninterp spec fn is_unicode_alphanumeric(c: char) -> bool;

/// Relies on char::is_alphanumeric: a pure classification of the character
/// (Unicode Alphabetic, Nd, Nl or No), depending on the character alone.
#[verifier::external_body]
pub(crate) fn unicode_alphanumeric(c: char) -> (r: bool)
    ensures
        r == is_unicode_alphanumeric(c),
{
    c.is_alphanumeric()
}

/// Relies on char::from_u32: it returns the character with the given scalar
/// value exactly when the value is a Unicode scalar value (below the
/// surrogate range, or above it and at most 0x10FFFF), and None otherwise.
#[verifier::external_body]
pub(crate) fn char_from_u32(v: u32) -> (r: Option<char>)
    ensures
        r == (if vstd::utf8::is_scalar(v) {
            Some(v as char)
        } else {
            None::<char>
        }),
{
    char::from_u32(v)
}

/// Relies on String's FromIterator over char: collecting characters yields
/// the string of exactly those characters, in order.
#[verifier::external_body]
pub(crate) fn chars_to_string(cs: &Vec<char>) -> (r: String)
    ensures
        r@ == cs@,
{
    cs.iter().collect()
}

/// Relies on str::from_utf8: it accepts exactly the byte strings that are
/// valid UTF-8, and decodes them; the result is converted into an owned
/// string.
#[verifier::external_body]
pub(crate) fn bytes_to_string(b: &Vec<u8>) -> (r: Option<String>)
    ensures
        (match r {
            Some(s) => vstd::utf8::valid_utf8(b@) && s@ == vstd::utf8::decode_utf8(b@),
            None => !vstd::utf8::valid_utf8(b@),
        }),
{
    match core::str::from_utf8(b) {
        Ok(s) => Some(s.to_string()),
        Err(_) => None,
    }
}

/// Relies on str::chars: it yields the characters of the string, in order.
#[verifier::external_body]
pub(crate) fn str_to_chars(s: &str) -> (r: Vec<char>)
    ensures
        r@ == s@,
{
    s.chars().collect()
}

} // verus!
