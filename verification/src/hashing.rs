//! Keccak-256 hashing of byte strings and of Merkle node pairs.

use sha3::{Digest, Keccak256};
use vstd::prelude::*;

verus! {

/// The Keccak-256 digest of a byte string, as computed by `sha3::Keccak256`.
pub uninterp spec fn keccak256_spec(data: Seq<u8>) -> Seq<u8>;

/// Keccak-256 of `data`: one `update` with the whole input on a fresh
/// `sha3::Keccak256` hasher, then `finalize`. The contract only names the
/// digest; nothing about its value is stated.
#[verifier::external_body]
pub(crate) fn keccak256(data: &[u8]) -> (h: [u8; 32])
    ensures
        h@ == keccak256_spec(data@),
{
    let mut hasher = Keccak256::new();
    hasher.update(data);
    hasher.finalize().into()
}

/// The hash of an ordered pair of 32-byte nodes: Keccak-256 of `left ++ right`.
pub open spec fn hash_pair_spec(left: Seq<u8>, right: Seq<u8>) -> Seq<u8> {
    keccak256_spec(left + right)
}

/// Hash a pair of nodes: Keccak-256 over the 64-byte concatenation.
pub fn hash_pair(left: &[u8; 32], right: &[u8; 32]) -> (h: [u8; 32])
    ensures
        h@ == hash_pair_spec(left@, right@),
{
    let mut buf: Vec<u8> = Vec::with_capacity(64);
    let mut i: usize = 0;
    while i < 32
        invariant
            0 <= i <= 32,
            buf@ == left@.take(i as int),
        decreases 32 - i,
    {
        buf.push(left[i]);
        assert(left@.take(i + 1) =~= left@.take(i as int).push(left@[i as int]));
        i = i + 1;
    }
    assert(left@.take(32) =~= left@);
    let mut j: usize = 0;
    while j < 32
        invariant
            0 <= j <= 32,
            buf@ == left@ + right@.take(j as int),
        decreases 32 - j,
    {
        buf.push(right[j]);
        assert(right@.take(j + 1) =~= right@.take(j as int).push(right@[j as int]));
        assert(left@ + right@.take(j + 1) =~= (left@ + right@.take(j as int)).push(right@[j as int]));
        j = j + 1;
    }
    assert(right@.take(32) =~= right@);
    keccak256(buf.as_slice())
}

/// Equality of two 32-byte words.
pub fn bytes32_eq(a: &[u8; 32], b: &[u8; 32]) -> (r: bool)
    ensures
        r == (a@ == b@),
{
    let mut i: usize = 0;
    while i < 32
        invariant
            0 <= i <= 32,
            a@.len() == 32,
            b@.len() == 32,
            forall|k: int| 0 <= k < i ==> a@[k] == b@[k],
        decreases 32 - i,
    {
        if a[i] != b[i] {
            return false;
        }
        i = i + 1;
    }
    assert(a@ =~= b@);
    true
}

} // verus!
