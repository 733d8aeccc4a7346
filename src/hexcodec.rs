//! Hexadecimal text for the binary payloads of firmware messages, by the
//! `hex` crate.

use vstd::prelude::*;

verus! {

/// The value of one hexadecimal digit, either case.
pub open spec fn hex_digit_value(c: u8) -> Option<u8> {
    if 0x30 <= c && c <= 0x39 {
        Some((c - 0x30) as u8)
    } else if 0x41 <= c && c <= 0x46 {
        Some((c - 0x41 + 10) as u8)
    } else if 0x61 <= c && c <= 0x66 {
        Some((c - 0x61 + 10) as u8)
    } else {
        None
    }
}

/// The bytes that hexadecimal text stands for: two digits per byte, the
/// high nibble first; `None` on an odd length or a character that is no
/// digit.
pub open spec fn hex_decoded(s: Seq<u8>) -> Option<Seq<u8>>
    decreases s.len(),
{
    if s.len() % 2 != 0 {
        None
    } else if s.len() == 0 {
        Some(Seq::empty())
    } else {
        match (
            hex_decoded(s.take(s.len() - 2)),
            hex_digit_value(s[s.len() - 2]),
            hex_digit_value(s[s.len() - 1]),
        ) {
            (Some(d), Some(hi), Some(lo)) => Some(d.push((hi * 16 + lo) as u8)),
            _ => None,
        }
    }
}

/// The upper-case digit for a value below 16.
pub open spec fn upper_digit(n: u8) -> u8 {
    if n < 10 {
        (0x30 + n) as u8
    } else {
        (0x41 + n - 10) as u8
    }
}

/// Upper-case hexadecimal text of `b`, two digits per byte.
pub open spec fn hex_upper_text(b: Seq<u8>) -> Seq<u8>
    decreases b.len(),
{
    if b.len() == 0 {
        Seq::empty()
    } else {
        hex_upper_text(b.drop_last()) + seq![upper_digit(b.last() / 16), upper_digit(b.last() % 16)]
    }
}

/// Relies on `hex::encode_upper`: two upper-case digits for each byte, the
/// high nibble first.
#[verifier::external_body]
pub(crate) fn encode_upper(b: &Vec<u8>) -> (r: Vec<u8>)
    ensures
        r@ == hex_upper_text(b@),
{
    hex::encode_upper(b).into_bytes()
}

/// Relies on `hex::decode`: an error on an odd length or on a character
/// that is no hexadecimal digit, of either case; else one byte for each two
/// digits.
#[verifier::external_body]
pub(crate) fn decode(s: &Vec<u8>) -> (r: Option<Vec<u8>>)
    ensures
        match r {
            Some(v) => hex_decoded(s@) == Some(v@),
            None => hex_decoded(s@) is None,
        },
{
    hex::decode(s).ok()
}

} // verus!
