use crate::hashing::{self, HashType};
use vstd::prelude::*;

verus! {

/// The `n` low-order bytes of `v`, the most significant first.
pub open spec fn be_bytes(v: nat, n: nat) -> Seq<u8>
    decreases n,
{
    if n == 0 {
        Seq::empty()
    } else {
        be_bytes(v / 256, (n - 1) as nat).push((v % 256) as u8)
    }
}

/// The number that `bytes` spell, the most significant first.
pub open spec fn be_value(bytes: Seq<u8>) -> nat
    decreases bytes.len(),
{
    if bytes.len() == 0 {
        0
    } else {
        be_value(bytes.drop_last()) * 256 + bytes.last() as nat
    }
}

/// Bit 7 of a root's first byte: set for Keccak-256, clear for SHA-256.
pub open spec fn tag_bits(hash_type: HashType) -> u8 {
    match hash_type {
        HashType::Sha256 => 0,
        HashType::Keccak256 => 0x80,
    }
}

/// The root that is stored for a tree: `raw` with its first eight bytes replaced by
/// the file size, most significant byte first, where in the first byte bit 6 is
/// cleared and bit 7 tells the algorithm. Bytes 8..32 are those of `raw`.
pub open spec fn encoded_root(raw: Seq<u8>, file_size: u64, hash_type: HashType) -> Seq<u8>
    recommends
        raw.len() == 32,
{
    Seq::new(
        32,
        |i: int|
            if i == 0 {
                (be_bytes(file_size as nat, 8)[0] & 0x3f) | tag_bits(hash_type)
            } else if i < 8 {
                be_bytes(file_size as nat, 8)[i]
            } else {
                raw[i]
            },
    )
}

/// A number written in `n` bytes has `n` bytes.
pub proof fn lemma_be_bytes_len(v: nat, n: nat)
    ensures
        be_bytes(v, n).len() == n,
    decreases n,
{
    if n > 0 {
        lemma_be_bytes_len(v / 256, (n - 1) as nat);
    }
}

/// Packs the file size and the algorithm into the first eight bytes of `raw`.
pub fn encode_root(raw: &hashing::Hash, file_size: u64, hash_type: &HashType) -> (out:
    hashing::Hash)
    ensures
        out@ == encoded_root(raw@, file_size, *hash_type),
{
    let mut out: hashing::Hash = *raw;
    let mut rest: u64 = file_size;
    let mut i: usize = 8;
    proof {
        lemma_be_bytes_len(file_size as nat, 8);
        assert(be_bytes(file_size as nat, 8).subrange(0, 8) =~= be_bytes(file_size as nat, 8));
    }
    while i > 0
        invariant
            i <= 8,
            be_bytes(file_size as nat, 8).len() == 8,
            be_bytes(file_size as nat, 8).subrange(0, i as int) == be_bytes(rest as nat, i as nat),
            forall|j: int| i <= j < 8 ==> out@[j] == be_bytes(file_size as nat, 8)[j],
            forall|j: int| 8 <= j < 32 ==> out@[j] == raw@[j],
        decreases i,
    {
        proof {
            lemma_be_bytes_len(rest as nat / 256, (i - 1) as nat);
            assert(be_bytes(file_size as nat, 8).subrange(0, i - 1) =~= be_bytes(
                rest as nat / 256,
                (i - 1) as nat,
            )) by {
                assert(be_bytes(file_size as nat, 8).subrange(0, i - 1) =~= be_bytes(
                    file_size as nat,
                    8,
                ).subrange(0, i as int).subrange(0, i - 1));
            }
            assert(be_bytes(file_size as nat, 8)[i - 1] == be_bytes(rest as nat, i as nat)[i - 1]);
        }
        i -= 1;
        out[i] = (rest % 256) as u8;
        rest = rest / 256;
    }
    let tag: u8 = match hash_type {
        HashType::Sha256 => 0,
        HashType::Keccak256 => 0x80,
    };
    out[0] = (out[0] & 0x3f) | tag;
    assert(out@ =~= encoded_root(raw@, file_size, *hash_type));
    out
}

/// The first eight bytes of a stored root spell the file size, with bit 62 of the
/// number cleared and bit 63 telling the algorithm. In the first byte, then, bit 6 is
/// clear and bit 7 is set for Keccak-256 alone. The other bytes are those of the raw
/// root.
pub proof fn lemma_root_header(raw: Seq<u8>, file_size: u64, hash_type: HashType)
    requires
        raw.len() == 32,
    ensures
        be_value(encoded_root(raw, file_size, hash_type).take(8)) == file_size
            % 0x4000_0000_0000_0000 + (if hash_type == HashType::Keccak256 {
            0x8000_0000_0000_0000int
        } else {
            0int
        }),
        encoded_root(raw, file_size, hash_type)[0] & 0x40 == 0,
        encoded_root(raw, file_size, hash_type)[0] & 0x80 != 0 <==> hash_type
            == HashType::Keccak256,
        forall|i: int| 8 <= i < 32 ==> encoded_root(raw, file_size, hash_type)[i] == raw[i],
{
    let size = be_bytes(file_size as nat, 8);
    let head = encoded_root(raw, file_size, hash_type).take(8);
    let top = size[0];
    let first = head[0];
    lemma_be_bytes_len(file_size as nat, 8);
    reveal_with_fuel(be_bytes, 9);
    reveal_with_fuel(be_value, 9);
    assert(first == (top & 0x3f) | tag_bits(hash_type));
    assert((top & 0x3f) | 0 == top % 64 && ((top & 0x3f) | 0) & 0x40 == 0 && ((top & 0x3f) | 0)
        & 0x80 == 0) by (bit_vector);
    assert((top & 0x3f) | 0x80 == top % 64 + 128 && ((top & 0x3f) | 0x80) & 0x40 == 0 && ((top
        & 0x3f) | 0x80) & 0x80 != 0) by (bit_vector);
    let h1 = head.drop_last();
    let h2 = h1.drop_last();
    let h3 = h2.drop_last();
    let h4 = h3.drop_last();
    let h5 = h4.drop_last();
    let h6 = h5.drop_last();
    let h7 = h6.drop_last();
    assert(head.last() == size[7] && h1.last() == size[6] && h2.last() == size[5] && h3.last()
        == size[4] && h4.last() == size[3] && h5.last() == size[2] && h6.last() == size[1]
        && h7.last() == first);
    assert(h7.drop_last().len() == 0);
}

} // verus!
