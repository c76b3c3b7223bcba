//! Merkle-tree membership proofs over a fixed-width set of 20-byte addresses.
//!
//! The crate models the two on-disk artifacts of the tree — a flat file of
//! sorted 20-byte address records and one flat file of 32-byte hashes per
//! tree level — as in-memory byte vectors, and verifies the logic that
//! builds the tree and reconstructs inclusion proofs from it.
use vstd::prelude::*;
use vstd::slice::slice_subrange;
use vstd::string::*;
use vstd::utf8::encode_utf8;

use crate::hashing::{keccak256, keccak256_of};
use crate::hexcodec::{ascii_string, hex_char, hex_chars_of, hex_encode, nibble_at};

pub mod api;
pub mod decimal;
pub mod hashing;
pub mod hexcodec;
pub mod merkle;
pub mod order;
pub mod progress;
pub mod store;
pub mod tree;

verus! {

/// Size in bytes of one address record.
pub const ADDRESS_SIZE: usize = 20;

/// Size in bytes of one hash record.
pub const HASH_SIZE: usize = 32;

/// Number of hex characters in the textual form of an address.
pub const ADDRESS_HEX_LENGTH: usize = 40;

/// Safety ceiling on the number of addresses a store may hold.
pub const MAX_ADDRESSES: usize = 1_000_000_000;

/// One character of a checksummed address: a digit stays as it is, and a hex
/// letter is uppercased exactly when the hash nibble at its position is 8 or
/// more.
pub open spec fn checksum_case(c: char, nib: u8) -> char {
    let u = c as u32;
    if (48 <= u && u <= 57) || nib < 8 {
        c
    } else {
        ((u - 32) as u8) as char
    }
}

/// The checksummed spelling of an address: `0x`, then its lowercase hex
/// characters with letters case-flipped according to the Keccak-256 hash of
/// the ASCII hex text itself.
pub open spec fn checksum_chars(addr: Seq<u8>) -> Seq<char> {
    let hex = hex_chars_of(addr);
    let hash = keccak256_of(encode_utf8(hex));
    seq!['0', 'x'] + Seq::new(hex.len(), |i: int| checksum_case(hex[i], nibble_at(hash, i)))
}

/// The first `i` produced characters of a checksummed address stand in
/// `out` (after the two prefix bytes) as their ASCII codes.
spec fn checksum_bytes_match(out: Seq<u8>, target: Seq<char>, i: int) -> bool {
    forall|j: int| 0 <= j < i ==> out[j + 2] == (#[trigger] target[j]) as u8 && ((target[j] as u32)
        < 128)
}

/// Checksum-encodes a 20-byte address as 42 mixed-case hex characters.
pub fn to_checksum_address(address: &[u8]) -> (r: String)
    requires
        address@.len() == ADDRESS_SIZE,
    ensures
        r@ == checksum_chars(address@),
{
    let hexs = hex_encode(address);
    let hs = hexs.as_str();
    let hash = keccak256(hs.as_bytes());
    let mut out: Vec<u8> = Vec::new();
    out.push(48);
    out.push(120);
    let len = hs.unicode_len();
    let ghost target = Seq::new(2 * address@.len(), (|i: int| checksum_case(
        hex_chars_of(address@)[i],
        nibble_at(keccak256_of(encode_utf8(hex_chars_of(address@))), i),
    )));
    let mut i: usize = 0;
    while i < len
        invariant
            i <= len,
            address@.len() == 20,
            len == 2 * address@.len(),
            hs@ == hex_chars_of(address@),
            hs.is_ascii(),
            hash@ == keccak256_of(encode_utf8(hex_chars_of(address@))),
            out@.len() == i + 2,
            out@[0] == 48u8,
            out@[1] == 120u8,
            target == Seq::new(2 * address@.len(), (|k: int| checksum_case(
                hex_chars_of(address@)[k],
                nibble_at(keccak256_of(encode_utf8(hex_chars_of(address@))), k),
            ))),
            checksum_bytes_match(out@, target, i as int),
        decreases len - i,
    {
        let ch = hs.get_ascii(i);
        let hb = hash[i / 2];
        let nib = if i % 2 == 0 {
            hb / 16
        } else {
            hb % 16
        };
        proof {
            assert(hs@[i as int] == hex_char(crate::hexcodec::nibble_at(address@, i as int)));
            lemma_hex_char_code(crate::hexcodec::nibble_at(address@, i as int));
            assert((i / 2) as int == i as int / 2);
            assert(nib == nibble_at(hash@, i as int));
        }
        let oc = if (48 <= ch && ch <= 57) || nib < 8 {
            ch
        } else {
            ch - 32
        };
        proof {
            let c = hex_chars_of(address@)[i as int];
            assert(ch == (c as u8));
            assert(oc == target[i as int] as u8 && ((target[i as int] as u32) < 128));
            assert(checksum_bytes_match(out@.push(oc), target, i as int + 1));
        }
        out.push(oc);
        i = i + 1;
    }
    proof {
        assert forall|k: int| 0 <= k < out@.len() implies out@[k] < 128 by {
            if k >= 2 {
                assert(out@[k] == target[k - 2] as u8 && ((target[k - 2] as u32) < 128));
            }
        }
    }
    let r = ascii_string(out);
    proof {
        reveal_strlit("0x");
        assert forall|k: int| 0 <= k < r@.len() implies r@[k] == checksum_chars(address@)[k] by {
            if k >= 2 {
                lemma_ascii_char_roundtrip(target[k - 2]);
            } else {
                assert((48u8 as char) == '0' && (120u8 as char) == 'x');
            }
        }
        assert(r@ =~= checksum_chars(address@));
    }
    r
}

/// The code of a lowercase hex digit character: a digit's is 48 to 57 and a
/// letter's is 97 to 102.
proof fn lemma_hex_char_code(n: u8)
    requires
        n < 16,
    ensures
        (crate::hexcodec::hex_char(n) as u32) < 128,
        n < 10 ==> crate::hexcodec::hex_char(n) as u32 == 48 + n,
        n >= 10 ==> crate::hexcodec::hex_char(n) as u32 == 87 + n,
{
}

/// An ASCII character survives the round trip through its byte code.
proof fn lemma_ascii_char_roundtrip(c: char)
    requires
        (c as u32) < 128,
    ensures
        ((c as u8) as char) == c,
{
    vstd::utf8::char_u32_cast(c, c as u32);
}

/// Parsing a checksummed address recovers exactly the 20 bytes that were
/// encoded: the letter-case flips carry no information about the value.
pub proof fn lemma_parse_checksum_round_trip(addr: Seq<u8>)
    requires
        addr.len() == ADDRESS_SIZE,
    ensures
        crate::merkle::spec_parse_address(checksum_chars(addr)) == Some(addr),
{
    let s = checksum_chars(addr);
    let hex = hex_chars_of(addr);
    let hash = keccak256_of(encode_utf8(hex));
    assert(s[0] == '0' && s[1] == 'x');
    let t = crate::merkle::strip_hex_prefix(s);
    assert(t =~= Seq::new(hex.len(), (|i: int| checksum_case(hex[i], nibble_at(hash, i)))));
    assert forall|i: int| 0 <= i < 40 implies crate::hexcodec::is_hex_char(#[trigger] t[i])
        && crate::hexcodec::hex_value(t[i]) == nibble_at(addr, i) by {
        let n = nibble_at(addr, i);
        assert(n < 16);
        lemma_hex_char_code(n);
    }
    assert(crate::hexcodec::all_hex(t));
    let d = crate::hexcodec::decoded_bytes(t);
    assert forall|i: int| 0 <= i < 20 implies d[i] == addr[i] by {
        assert(crate::hexcodec::hex_value(t[2 * i]) == nibble_at(addr, 2 * i));
        assert(crate::hexcodec::hex_value(t[2 * i + 1]) == nibble_at(addr, 2 * i + 1));
        assert(nibble_at(addr, 2 * i) == addr[i] / 16);
        assert(nibble_at(addr, 2 * i + 1) == addr[i] % 16);
        assert(16 * (addr[i] / 16) + addr[i] % 16 == addr[i]) by {
            vstd::arithmetic::div_mod::lemma_fundamental_div_mod(addr[i] as int, 16);
        }
    }
    assert(d =~= addr);
}

/// The checksummed address derived from an uncompressed 65-byte public key:
/// the leading format byte is dropped, the 64 remaining bytes are hashed
/// with Keccak-256, and the low 20 bytes of that hash are checksum-encoded.
pub open spec fn spec_ethereum_address(public_key: Seq<u8>) -> Seq<char> {
    let h = keccak256_of(public_key.skip(1));
    checksum_chars(h.skip(h.len() - 20))
}

/// Derives the checksummed address of an uncompressed SEC1 public key.
pub fn ethereum_address(public_key: &[u8]) -> (r: String)
    requires
        public_key@.len() == 65,
    ensures
        r@ == spec_ethereum_address(public_key@),
{
    let body = slice_subrange(public_key, 1, 65);
    proof {
        assert(body@ =~= public_key@.skip(1));
    }
    let h = keccak256(body);
    let tail = slice_subrange(h.as_slice(), 12, 32);
    proof {
        assert(tail@ =~= keccak256_of(public_key@.skip(1)).skip(12));
    }
    to_checksum_address(tail)
}

} // verus!
