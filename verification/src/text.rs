//! Conversions between the UTF-16 code units that exFAT stores names
//! in and Rust strings. The decoder's own logic works on code units;
//! these conversions stand only at its boundary.

use vstd::prelude::*;

verus! {

/// The UTF-16 code units that encode a character sequence.
pub uninterp spec fn utf16_units(s: Seq<char>) -> Seq<u16>;

/// The character sequence that a UTF-16 code-unit sequence decodes
/// to, with invalid units replaced.
pub uninterp spec fn utf16_chars(u: Seq<u16>) -> Seq<char>;

/// Relies on str::encode_utf16: the UTF-16 code units of the string,
/// a function of its characters alone; an empty string has none.
#[verifier::external_body]
pub(crate) fn encode_utf16_units(s: &str) -> (r: Vec<u16>)
    ensures
        r@ == utf16_units(s@),
        s@.len() == 0 ==> r@.len() == 0,
{
    s.encode_utf16().collect()
}

/// Relies on String::from_utf16_lossy: the characters the code units
/// decode to, a function of the units alone; the empty unit sequence
/// decodes to the empty string.
#[verifier::external_body]
pub(crate) fn decode_utf16_units(u: &Vec<u16>) -> (r: String)
    ensures
        r@ == utf16_chars(u@),
        u@.len() == 0 ==> r@.len() == 0,
{
    String::from_utf16_lossy(u)
}

} // verus!
