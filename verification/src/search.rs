use crate::chunks::{leaf_bytes, read_leaf, with_nonce};
use crate::hashing::{self, HalfHash};
use crate::layers::{path_of, path_view, recomputed_root, well_shaped};
use crate::lexical::{
    compare_bytes, lemma_byte_order_sign, lemma_lex_less_asymmetric, lemma_lex_less_chain,
    lex_less,
};
use crate::tree::{MerkleTree, MerkleTreeView};
use vstd::prelude::*;

verus! {

/// A leaf and the root recomputed for it.
#[derive(Copy, Clone, Debug)]
pub struct MinRoot {
    pub index: u64,
    pub root: hashing::Hash,
}

/// What a search reports: the leaf it chose, the root recomputed for that leaf with
/// the nonce, and the path of the leaf.
pub struct LeafProof {
    pub index: u64,
    pub root: hashing::Hash,
    pub path: Vec<Option<HalfHash>>,
}

/// The root recomputed for leaf `index` from the bytes of the leaf with the nonce
/// after them, along the path that the tree has for that leaf.
pub open spec fn candidate(tree: MerkleTreeView, index: int, leaf: Seq<u8>, nonce: Seq<u8>) -> Seq<
    u8,
> {
    recomputed_root(tree.hash_type, path_of(tree.layers, index), index, leaf + nonce)
}

/// The candidate roots of all leaves of the tree, for the file `data`.
pub open spec fn candidates(tree: MerkleTreeView, data: Seq<u8>, nonce: Seq<u8>) -> Seq<Seq<u8>> {
    Seq::new(tree.layers[0].len(), |i: int| candidate(tree, i, leaf_bytes(data, i), nonce))
}

/// `m` is the leaf that a search over `roots` chooses: its root comes before the root
/// of every leaf before it, and the root of no leaf after it comes before its own.
pub open spec fn is_first_min(roots: Seq<Seq<u8>>, m: int) -> bool {
    &&& 0 <= m < roots.len()
    &&& forall|j: int| 0 <= j < m ==> lex_less(roots[m], #[trigger] roots[j])
    &&& forall|j: int| m < j < roots.len() ==> !lex_less(#[trigger] roots[j], roots[m])
}

/// A search result as plain values.
pub open spec fn best_view(best: Option<MinRoot>) -> Option<(int, Seq<u8>)> {
    match best {
        Some(b) => Some((b.index as int, b.root@)),
        None => None,
    }
}

/// The better of the best leaf so far and a new one: the new one only where there is
/// none so far or its root comes before the best.
pub open spec fn pick(best: Option<(int, Seq<u8>)>, index: int, root: Seq<u8>) -> (int, Seq<u8>) {
    match best {
        Some(b) => if lex_less(root, b.1) {
            (index, root)
        } else {
            b
        },
        None => (index, root),
    }
}

/// The best of the first `n` roots, taken one after the other in the order of their
/// indices.
pub open spec fn scan(roots: Seq<Seq<u8>>, n: int) -> Option<(int, Seq<u8>)>
    decreases n,
{
    if n <= 0 {
        None
    } else {
        Some(pick(scan(roots, n - 1), n - 1, roots[n - 1]))
    }
}

/// The best of the roots `from..to` and of `best`, which stands for the roots before
/// them: a scan that goes on where another has stopped.
pub open spec fn scan_on(
    best: Option<(int, Seq<u8>)>,
    roots: Seq<Seq<u8>>,
    from: int,
    to: int,
) -> Option<(int, Seq<u8>)>
    decreases to - from,
{
    if to <= from {
        best
    } else {
        Some(pick(scan_on(best, roots, from, to - 1), to - 1, roots[to - 1]))
    }
}

/// The candidate root of leaf `index`, whose bytes are `leaf`.
pub fn candidate_root(tree: &MerkleTree, index: u64, leaf: &[u8], nonce: &[u8]) -> (root:
    hashing::Hash)
    requires
        well_shaped(tree@.layers),
        index < tree@.layers[0].len(),
    ensures
        root@ == candidate(tree@, index as int, leaf@, nonce@),
{
    let joined = with_nonce(leaf, nonce);
    let path = tree.get_path(index);
    tree.proof_by_path(path, index, joined.as_slice())
}

/// One step of a search: the better of the best leaf so far and leaf `index` with the
/// root `root`. A root equal to the best does not replace it.
pub fn select_min(best: Option<MinRoot>, index: u64, root: hashing::Hash) -> (next: MinRoot)
    ensures
        (next.index as int, next.root@) == pick(best_view(best), index as int, root@),
{
    match best {
        Some(b) => {
            proof {
                lemma_byte_order_sign(root@, b.root@);
            }
            if compare_bytes(root.as_slice(), b.root.as_slice()) < 0 {
                MinRoot { index, root }
            } else {
                b
            }
        },
        None => MinRoot { index, root },
    }
}

/// Taking the roots one after the other finds the leaf that a search chooses.
pub proof fn lemma_scan_finds_first_min(roots: Seq<Seq<u8>>, n: int)
    requires
        0 < n <= roots.len(),
    ensures
        scan(roots, n) is Some,
        is_first_min(roots.take(n), scan(roots, n).unwrap().0),
        scan(roots, n).unwrap().1 == roots[scan(roots, n).unwrap().0],
    decreases n,
{
    let now = roots.take(n);
    if n == 1 {
        assert(scan(roots, 0) is None);
    } else {
        lemma_scan_finds_first_min(roots, n - 1);
        let before = roots.take(n - 1);
        let m = scan(roots, n - 1).unwrap().0;
        let new = roots[n - 1];
        assert(before[m] == roots[m]);
        if lex_less(new, roots[m]) {
            assert forall|j: int| 0 <= j < n - 1 implies lex_less(now[n - 1], #[trigger] now[j]) by {
                assert(now[j] == before[j]);
                if j < m {
                    lemma_lex_less_asymmetric(before[m], before[j]);
                    lemma_lex_less_chain(new, before[m], before[j]);
                } else if j > m {
                    lemma_lex_less_chain(new, before[m], before[j]);
                }
            }
        } else {
            assert forall|j: int| 0 <= j < m implies lex_less(now[m], #[trigger] now[j]) by {
                assert(now[j] == before[j]);
            }
            assert forall|j: int| m < j < n implies !lex_less(#[trigger] now[j], now[m]) by {
                if j < n - 1 {
                    assert(now[j] == before[j]);
                }
            }
        }
    }
}

/// A search may be made in batches: going on from the best of the first `a` roots over
/// the roots `a..b` gives the best of the first `b`. However the roots of a batch were
/// computed, taking them in the order of their indices gives what one scan gives.
pub proof fn lemma_scan_in_batches(roots: Seq<Seq<u8>>, a: int, b: int)
    requires
        0 <= a <= b <= roots.len(),
    ensures
        scan_on(scan(roots, a), roots, a, b) == scan(roots, b),
    decreases b - a,
{
    if a < b {
        lemma_scan_in_batches(roots, a, b - 1);
    }
}

/// A search chooses one leaf and no other.
pub proof fn lemma_first_min_unique(roots: Seq<Seq<u8>>, m: int, k: int)
    requires
        is_first_min(roots, m),
        is_first_min(roots, k),
    ensures
        m == k,
{
    if m < k {
        assert(lex_less(roots[k], roots[m]));
        assert(!lex_less(roots[k], roots[m]));
    } else if k < m {
        assert(lex_less(roots[m], roots[k]));
        assert(!lex_less(roots[m], roots[k]));
    }
}

/// Among leaves with the same candidate root a search chooses the first.
pub proof fn lemma_first_min_is_lowest(roots: Seq<Seq<u8>>, m: int, j: int)
    requires
        is_first_min(roots, m),
        0 <= j < roots.len(),
        roots[j] == roots[m],
    ensures
        m <= j,
{
    if j < m {
        lemma_lex_less_asymmetric(roots[m], roots[j]);
    }
}

/// Searches all leaves of the tree for the one whose candidate root comes first in the
/// order of byte strings. The leaves are read from `data`. Of leaves with the same
/// root the first is chosen. A tree without leaves has no such leaf.
pub fn find_min_root(tree: &MerkleTree, data: &[u8], nonce: &[u8]) -> (best: Option<MinRoot>)
    requires
        well_shaped(tree@.layers),
    ensures
        best_view(best) == scan(
            candidates(tree@, data@, nonce@),
            candidates(tree@, data@, nonce@).len() as int,
        ),
        best is None <==> tree@.layers[0].len() == 0,
        best matches Some(b) ==> is_first_min(candidates(tree@, data@, nonce@), b.index as int)
            && b.root@ == candidates(tree@, data@, nonce@)[b.index as int],
{
    let ghost roots = candidates(tree@, data@, nonce@);
    let n = tree.leaf_size();
    let mut best: Option<MinRoot> = None;
    let mut i: usize = 0;
    while i < n
        invariant
            i <= n,
            n == tree@.layers[0].len(),
            well_shaped(tree@.layers),
            roots == candidates(tree@, data@, nonce@),
            best_view(best) == scan(roots, i as int),
        decreases n - i,
    {
        let leaf = read_leaf(data, i);
        let root = candidate_root(tree, i as u64, leaf.as_slice(), nonce);
        best = Some(select_min(best, i as u64, root));
        i += 1;
    }
    proof {
        if n > 0 {
            lemma_scan_finds_first_min(roots, n as int);
            assert(roots.take(n as int) =~= roots);
        }
    }
    best
}

/// What the proof of a file reports for a nonce. With a leaf given, that leaf is
/// reported with its candidate root and nothing is searched. With none given, all
/// leaves are searched, and nothing is reported for a tree without leaves.
pub fn find_proof(
    tree: &MerkleTree,
    data: &[u8],
    nonce: &[u8],
    leaf_index: Option<u64>,
) -> (found: Option<LeafProof>)
    requires
        well_shaped(tree@.layers),
        leaf_index matches Some(i) ==> i < tree@.layers[0].len(),
    ensures
        found is None <==> leaf_index is None && tree@.layers[0].len() == 0,
        found matches Some(p) ==> {
            &&& p.index < tree@.layers[0].len()
            &&& p.root@ == candidates(tree@, data@, nonce@)[p.index as int]
            &&& path_view(p.path@) == path_of(tree@.layers, p.index as int)
            &&& match leaf_index {
                Some(i) => p.index == i,
                None => is_first_min(candidates(tree@, data@, nonce@), p.index as int),
            }
        },
{
    let n = tree.leaf_size();
    let chosen: Option<MinRoot> = match leaf_index {
        Some(i) => {
            let leaf = read_leaf(data, i as usize);
            Some(MinRoot { index: i, root: candidate_root(tree, i, leaf.as_slice(), nonce) })
        },
        None => find_min_root(tree, data, nonce),
    };
    match chosen {
        Some(b) => Some(LeafProof { index: b.index, root: b.root, path: tree.get_path(b.index) }),
        None => None,
    }
}

} // verus!
