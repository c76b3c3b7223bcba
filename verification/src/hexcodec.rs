//! Hex text: encoding bytes to lowercase hex characters and decoding hex
//! characters back to bytes.
use vstd::prelude::*;

verus! {

/// The lowercase hex character for a nibble value below 16.
pub open spec fn hex_char(n: u8) -> char {
    if n < 10 {
        ((48 + n) as u8) as char
    } else {
        ((87 + n) as u8) as char
    }
}

/// Whether `c` is a hex digit, in either case.
pub open spec fn is_hex_char(c: char) -> bool {
    let u = c as u32;
    (48 <= u && u <= 57) || (97 <= u && u <= 102) || (65 <= u && u <= 70)
}

/// The nibble value of a hex digit (unspecified garbage for other characters).
pub open spec fn hex_value(c: char) -> u8 {
    let u = c as u32;
    if 48 <= u && u <= 57 {
        (u - 48) as u8
    } else if 97 <= u && u <= 102 {
        (u - 87) as u8
    } else if 65 <= u && u <= 70 {
        (u - 55) as u8
    } else {
        0
    }
}

/// Whether every character of `s` is a hex digit.
pub open spec fn all_hex(s: Seq<char>) -> bool {
    forall|i: int| 0 <= i < s.len() ==> is_hex_char(#[trigger] s[i])
}

/// The nibble at hex-character position `i` of a byte sequence: the high
/// nibble of byte `i / 2` when `i` is even, else its low nibble.
pub open spec fn nibble_at(bytes: Seq<u8>, i: int) -> u8 {
    if i % 2 == 0 {
        bytes[i / 2] / 16
    } else {
        bytes[i / 2] % 16
    }
}

/// The lowercase hex spelling of a byte sequence, two characters per byte.
pub open spec fn hex_chars_of(bytes: Seq<u8>) -> Seq<char> {
    Seq::new(2 * bytes.len(), |i: int| hex_char(nibble_at(bytes, i)))
}

/// The bytes spelled by an even-length sequence of hex characters.
pub open spec fn decoded_bytes(s: Seq<char>) -> Seq<u8> {
    Seq::new(s.len() / 2, |i: int| (16 * hex_value(s[2 * i]) + hex_value(s[2 * i + 1])) as u8)
}

/// Relies on `hex::encode`: two lowercase hex characters per input byte,
/// high nibble first.
#[verifier::external_body]
pub(crate) fn hex_encode(data: &[u8]) -> (r: String)
    ensures
        r@ == hex_chars_of(data@),
        r.is_ascii(),
{
    hex::encode(data)
}

/// Relies on `String::from_utf8`: bytes below 0x80 decode to the string of
/// exactly those characters.
#[verifier::external_body]
pub(crate) fn ascii_string(bytes: Vec<u8>) -> (r: String)
    requires
        forall|i: int| 0 <= i < bytes@.len() ==> bytes@[i] < 128,
    ensures
        r@ == bytes@.map(|i: int, b: u8| b as char),
        r.is_ascii(),
{
    match String::from_utf8(bytes) {
        Ok(s) => s,
        Err(_) => String::new(),
    }
}

/// Relies on `hex::decode_to_slice`: on a 40-character input it succeeds
/// exactly when every character is a hex digit (of either case), and then
/// yields the 20 decoded bytes, high nibble first.
#[verifier::external_body]
pub(crate) fn hex_decode20(s: &str) -> (r: Option<[u8; 20]>)
    requires
        s@.len() == 40,
    ensures
        r is Some <==> all_hex(s@),
        r matches Some(b) ==> b@ == decoded_bytes(s@),
{
    let mut buf = [0u8; 20];
    match hex::decode_to_slice(s, &mut buf) {
        Ok(()) => Some(buf),
        Err(_) => None,
    }
}

} // verus!
