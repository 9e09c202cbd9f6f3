use crate::hashing::{digest, HashType};
use vstd::prelude::*;

verus! {

/// The number of bytes in a leaf.
pub const LEAF_SIZE: usize = 1024;

/// The number of leaves of a file of `len` bytes: one for each 1024 bytes begun.
pub open spec fn leaf_count(len: nat) -> nat {
    (len + 1023) / 1024
}

/// Leaf `index` of a file: its bytes from `1024 * index` on, 1024 of them, with zeros
/// where the file has ended.
pub open spec fn leaf_bytes(data: Seq<u8>, index: int) -> Seq<u8> {
    Seq::new(
        1024,
        |j: int|
            if 1024 * index + j < data.len() {
                data[1024 * index + j]
            } else {
                0u8
            },
    )
}

/// The leaves of a file, in order.
pub open spec fn file_leaves(data: Seq<u8>) -> Seq<Seq<u8>> {
    Seq::new(leaf_count(data.len()), |i: int| leaf_bytes(data, i))
}

/// The full digests of the leaves of a file, in order.
pub open spec fn file_digests(hash_type: HashType, data: Seq<u8>) -> Seq<Seq<u8>> {
    Seq::new(leaf_count(data.len()), |i: int| digest(hash_type, leaf_bytes(data, i)))
}

/// The number of leaves of a file of `len` bytes.
pub fn count_leaves(len: u64) -> (n: u64)
    ensures
        n == leaf_count(len as nat),
{
    if len % 1024 == 0 {
        len / 1024
    } else {
        len / 1024 + 1
    }
}

/// Leaf `index` of `data`: 1024 bytes, padded with zeros at the end of the data and
/// after it.
pub fn read_leaf(data: &[u8], index: usize) -> (leaf: Vec<u8>)
    ensures
        leaf@ == leaf_bytes(data@, index as int),
{
    let full = data.len() / 1024;
    let available: usize = if index <= full {
        data.len() - 1024 * index
    } else {
        0
    };
    let mut leaf: Vec<u8> = Vec::new();
    let mut j: usize = 0;
    while j < 1024
        invariant
            j <= 1024,
            leaf@.len() == j,
            index <= full ==> available == data.len() - 1024 * index,
            index > full ==> available == 0,
            full == data.len() / 1024,
            forall|i: int| 0 <= i < j ==> leaf@[i] == leaf_bytes(data@, index as int)[i],
        decreases 1024 - j,
    {
        let byte = if j < available {
            data[1024 * index + j]
        } else {
            0u8
        };
        leaf.push(byte);
        j += 1;
    }
    assert(leaf@ =~= leaf_bytes(data@, index as int));
    leaf
}

/// The bytes of a leaf with a nonce after them.
pub fn with_nonce(leaf: &[u8], nonce: &[u8]) -> (joined: Vec<u8>)
    ensures
        joined@ == leaf@ + nonce@,
{
    let mut joined: Vec<u8> = Vec::new();
    let mut i: usize = 0;
    while i < leaf.len()
        invariant
            i <= leaf.len(),
            joined@ == leaf@.take(i as int),
        decreases leaf.len() - i,
    {
        joined.push(leaf[i]);
        assert(leaf@.take(i + 1) =~= leaf@.take(i as int).push(leaf@[i as int]));
        i += 1;
    }
    assert(leaf@.take(leaf.len() as int) =~= leaf@);
    let mut k: usize = 0;
    while k < nonce.len()
        invariant
            k <= nonce.len(),
            joined@ == leaf@ + nonce@.take(k as int),
        decreases nonce.len() - k,
    {
        joined.push(nonce[k]);
        assert(leaf@ + nonce@.take(k + 1) =~= (leaf@ + nonce@.take(k as int)).push(
            nonce@[k as int],
        ));
        k += 1;
    }
    assert(nonce@.take(nonce.len() as int) =~= nonce@);
    joined
}

} // verus!
