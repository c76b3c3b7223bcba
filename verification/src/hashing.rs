//! The Keccak-256 hash as the crate's node-combining function.
use sha3::Digest;
use vstd::prelude::*;

verus! {

/// The 32-byte Keccak-256 digest of a byte sequence, as computed by the
/// `sha3` crate. The digest is a function of the input bytes alone; nothing
/// further is assumed of its value.
pub uninterp spec fn keccak256_of(data: Seq<u8>) -> Seq<u8>;

/// Relies on `sha3::Keccak256` through `Digest::digest`: the digest is
/// 32 bytes and depends on the input bytes alone.
#[verifier::external_body]
pub(crate) fn keccak256(data: &[u8]) -> (r: [u8; 32])
    ensures
        r@ == keccak256_of(data@),
{
    let digest = sha3::Keccak256::digest(data);
    let mut out = [0u8; 32];
    out.copy_from_slice(&digest);
    out
}

/// The hash of an interior tree node: Keccak-256 of the left child's bytes
/// followed by the right child's bytes.
pub open spec fn pair_hash(left: Seq<u8>, right: Seq<u8>) -> Seq<u8> {
    keccak256_of(left + right)
}

/// Combines two child hashes into their parent node hash.
pub fn hash_pair(left: &[u8; 32], right: &[u8; 32]) -> (r: [u8; 32])
    ensures
        r@ == pair_hash(left@, right@),
{
    let mut joined: Vec<u8> = Vec::new();
    let mut i: usize = 0;
    while i < 32
        invariant
            i <= 32,
            joined@ == left@.subrange(0, i as int),
        decreases 32 - i,
    {
        joined.push(left[i]);
        i = i + 1;
    }
    let mut j: usize = 0;
    while j < 32
        invariant
            j <= 32,
            joined@ == left@ + right@.subrange(0, j as int),
        decreases 32 - j,
    {
        joined.push(right[j]);
        j = j + 1;
    }
    proof {
        assert(joined@ == left@ + right@);
    }
    keccak256(joined.as_slice())
}

} // verus!
