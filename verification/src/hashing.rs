use sha2::{Digest, Sha256};
use sha3::Keccak256;
use vstd::prelude::*;

verus! {

/// The two digest algorithms a tree can be built with. A tree is created with one of
/// them and every hash it ever computes uses that one.
#[derive(Copy, Clone, PartialEq, Eq, PartialOrd, Ord, Debug, Structural)]
pub enum HashType {
    Sha256,
    Keccak256,
}

/// A full digest: what either algorithm returns.
pub type Hash = [u8; 32];

/// The lower half of a digest (its bytes 16..32): what a tree node stores.
pub type HalfHash = [u8; 16];

/// The SHA-256 digest of `data`, as the `sha2` crate computes it. Nothing is said of
/// its bytes here but that there are 32 of them and that they depend on `data` alone.
pub uninterp spec fn sha256_digest(data: Seq<u8>) -> [u8; 32];

/// The Keccak-256 digest of `data`, as the `sha3` crate computes it. Nothing is said
/// of its bytes here but that there are 32 of them and that they depend on `data`
/// alone.
pub uninterp spec fn keccak256_digest(data: Seq<u8>) -> [u8; 32];

/// The digest of `data` under the given algorithm.
pub open spec fn digest(hash_type: HashType, data: Seq<u8>) -> Seq<u8> {
    match hash_type {
        HashType::Sha256 => sha256_digest(data)@,
        HashType::Keccak256 => keccak256_digest(data)@,
    }
}

/// Thirty-two zero bytes.
pub open spec fn zero_hash() -> Seq<u8> {
    Seq::new(32, |i: int| 0u8)
}

/// The half of a digest that a tree node keeps.
pub open spec fn half(h: Seq<u8>) -> Seq<u8> {
    h.subrange(16, 32)
}

/// The full digest of two sibling nodes, the left one first.
pub open spec fn pair_hash(hash_type: HashType, left: Seq<u8>, right: Seq<u8>) -> Seq<u8> {
    digest(hash_type, left + right)
}

/// A digest has 32 bytes, and its half 16.
pub proof fn lemma_digest_len(hash_type: HashType, data: Seq<u8>)
    ensures
        digest(hash_type, data).len() == 32,
        half(digest(hash_type, data)).len() == 16,
{
}

/// Calls `sha2::Sha256::digest`, which hashes `data` with a fresh hasher. Verus does
/// not read the body; it takes on trust that the 32 bytes returned are
/// `sha256_digest` of the bytes of `data`, the same for the same bytes.
#[verifier::external_body]
fn sha256(data: &[u8]) -> (out: Hash)
    ensures
        out == sha256_digest(data@),
{
    Sha256::digest(data).into()
}

/// Calls `sha3::Keccak256::digest`, which hashes `data` with a fresh hasher. Verus
/// does not read the body; it takes on trust that the 32 bytes returned are
/// `keccak256_digest` of the bytes of `data`, the same for the same bytes.
#[verifier::external_body]
fn keccak256(data: &[u8]) -> (out: Hash)
    ensures
        out == keccak256_digest(data@),
{
    Keccak256::digest(data).into()
}

/// Digest of `data` under `hash_type`.
pub fn calc_hash(hash_type: &HashType, data: &[u8]) -> (h: Hash)
    ensures
        h@ == digest(*hash_type, data@),
{
    match hash_type {
        HashType::Sha256 => sha256(data),
        HashType::Keccak256 => keccak256(data),
    }
}

/// Bytes 16..32 of a digest.
pub fn half_hash(h: &Hash) -> (out: HalfHash)
    ensures
        out@ == half(h@),
{
    let mut out: HalfHash = [0u8; 16];
    let mut i: usize = 0;
    while i < 16
        invariant
            i <= 16,
            forall|j: int| 0 <= j < i ==> out@[j] == h@[16 + j],
        decreases 16 - i,
    {
        out[i] = h[16 + i];
        i += 1;
    }
    assert(out@ =~= half(h@));
    out
}

/// The 32 bytes that two nodes are hashed as: `left`, then `right`.
pub fn join_halves(left: &HalfHash, right: &HalfHash) -> (out: [u8; 32])
    ensures
        out@ == left@ + right@,
{
    let mut out: [u8; 32] = [0u8; 32];
    let mut i: usize = 0;
    while i < 16
        invariant
            i <= 16,
            forall|j: int| 0 <= j < i ==> out@[j] == left@[j],
            forall|j: int| 0 <= j < i ==> out@[16 + j] == right@[j],
        decreases 16 - i,
    {
        out[i] = left[i];
        out[16 + i] = right[i];
        i += 1;
    }
    assert(out@ =~= left@ + right@);
    out
}

/// The full digest of two sibling nodes, the left one first.
pub fn hash_pair(hash_type: &HashType, left: &HalfHash, right: &HalfHash) -> (h: Hash)
    ensures
        h@ == pair_hash(*hash_type, left@, right@),
{
    let joined = join_halves(left, right);
    calc_hash(hash_type, joined.as_slice())
}

} // verus!
