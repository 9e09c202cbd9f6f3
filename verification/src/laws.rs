use crate::chunks::{file_digests, file_leaves, leaf_bytes, leaf_count};
use crate::hashing::{digest, half, lemma_digest_len, HashType};
use crate::layers::{
    build_layers, ceil_log2, climb, leaf_nodes, lemma_build_layers_shape, path_of, raw_root,
    recompute, recomputed_root, reduce, sibling, top_hash,
};
use crate::lexical::{lemma_lex_less_irreflexive, lex_less};
use crate::root::encoded_root;
use crate::search::{candidates, is_first_min};
use crate::tree::MerkleTreeView;
use vstd::arithmetic::power2::{lemma2_to64, lemma_pow2_unfold, pow2};
use vstd::prelude::*;

verus! {

/// `ceil_log2(n)` is the logarithm of `n` to base two, rounded up: the least exponent
/// whose power of two reaches `n`.
pub proof fn lemma_ceil_log2_is_ceiling(n: nat)
    requires
        n >= 1,
    ensures
        pow2(ceil_log2(n)) >= n,
        ceil_log2(n) > 0 ==> pow2((ceil_log2(n) - 1) as nat) < n,
    decreases n,
{
    if n == 1 {
        lemma2_to64();
    } else {
        let m = (n + 1) / 2;
        let c = ceil_log2(m);
        lemma_ceil_log2_is_ceiling(m);
        lemma_pow2_unfold(c + 1);
        if c == 0 {
            lemma2_to64();
        } else {
            lemma_pow2_unfold(c);
        }
    }
}

/// Climbing from a node along its path ends at the hash of the top pair. `current` is
/// any digest whose half is node `index` of `layer`.
proof fn lemma_climb_reaches_top(
    hash_type: HashType,
    layer: Seq<Seq<u8>>,
    index: int,
    current: Seq<u8>,
    seed: Seq<u8>,
)
    requires
        layer.len() >= 2,
        0 <= index < layer.len(),
        half(current) == layer[index],
    ensures
        recompute(hash_type, path_of(build_layers(hash_type, layer), index), index, current)
            == top_hash(hash_type, layer, seed),
    decreases layer.len(),
{
    let up = reduce(hash_type, layer);
    let layers = build_layers(hash_type, layer);
    let rest = build_layers(hash_type, up);
    let next = climb(hash_type, current, sibling(layer, index), index);
    let path = path_of(layers, index);
    assert(layers.drop_first() =~= rest);
    assert(layers[0] == layer);
    assert(path == seq![sibling(layer, index)] + path_of(rest, index / 2));
    assert(path.drop_first() =~= path_of(rest, index / 2));
    assert(path[0] == sibling(layer, index));
    assert(recompute(hash_type, path, index, current) == recompute(
        hash_type,
        path_of(rest, index / 2),
        index / 2,
        next,
    ));
    if layer.len() == 2 {
        assert(rest[0] == up);
        assert(path_of(rest, index / 2) =~= Seq::<Option<Seq<u8>>>::empty());
    } else {
        assert(half(next) == up[index / 2]);
        lemma_climb_reaches_top(hash_type, up, index / 2, next, seed);
    }
}

/// Every leaf verifies against the raw root. Take the tree over leaves with the given
/// digests and let `leaf` be bytes whose digest is that of leaf `index`. Then the
/// root recomputed from `leaf` along the path of that leaf is the raw root of the
/// tree.
pub proof fn lemma_path_recomputes_root(
    hash_type: HashType,
    digests: Seq<Seq<u8>>,
    index: int,
    leaf: Seq<u8>,
)
    requires
        0 <= index < digests.len(),
        digest(hash_type, leaf) == digests[index],
    ensures
        recomputed_root(
            hash_type,
            path_of(build_layers(hash_type, leaf_nodes(digests)), index),
            index,
            leaf,
        ) == raw_root(hash_type, digests),
{
    let leaves = leaf_nodes(digests);
    if digests.len() == 1 {
        assert(path_of(build_layers(hash_type, leaves), index) =~= Seq::<
            Option<Seq<u8>>,
        >::empty());
    } else {
        lemma_climb_reaches_top(hash_type, leaves, index, digests[index], digests[0]);
    }
}

/// The leaves of a file verify against the raw root of its tree: the root recomputed
/// from leaf `index` of the file along the path of that leaf is the raw root.
pub proof fn lemma_file_leaf_recomputes_root(hash_type: HashType, data: Seq<u8>, index: int)
    requires
        0 <= index < leaf_count(data.len()),
    ensures
        recomputed_root(
            hash_type,
            path_of(build_layers(hash_type, leaf_nodes(file_digests(hash_type, data))), index),
            index,
            leaf_bytes(data, index),
        ) == raw_root(hash_type, file_digests(hash_type, data)),
{
    lemma_path_recomputes_root(
        hash_type,
        file_digests(hash_type, data),
        index,
        leaf_bytes(data, index),
    );
}

/// With an empty nonce every leaf of a file has the same candidate root, the raw root
/// of the tree, so that a search chooses leaf 0.
pub proof fn lemma_empty_nonce_chooses_first(tree: MerkleTreeView, data: Seq<u8>, m: int)
    requires
        tree.layers == build_layers(
            tree.hash_type,
            leaf_nodes(file_digests(tree.hash_type, data)),
        ),
        is_first_min(candidates(tree, data, Seq::<u8>::empty()), m),
    ensures
        m == 0,
        candidates(tree, data, Seq::<u8>::empty())[m] == raw_root(
            tree.hash_type,
            file_digests(tree.hash_type, data),
        ),
{
    let roots = candidates(tree, data, Seq::<u8>::empty());
    let digests = file_digests(tree.hash_type, data);
    lemma_build_layers_shape(tree.hash_type, leaf_nodes(digests));
    assert(roots.len() == leaf_count(data.len()));
    assert forall|i: int| 0 <= i < roots.len() implies #[trigger] roots[i] == raw_root(
        tree.hash_type,
        digests,
    ) by {
        assert(leaf_bytes(data, i) + Seq::<u8>::empty() =~= leaf_bytes(data, i));
        lemma_file_leaf_recomputes_root(tree.hash_type, data, i);
    }
    if m > 0 {
        assert(lex_less(roots[m], roots[0]));
        lemma_lex_less_irreflexive(roots[0]);
    }
}

/// Two byte strings that differ and whose digests have the same half.
pub open spec fn is_collision(hash_type: HashType, x: Seq<u8>, y: Seq<u8>) -> bool {
    x != y && half(digest(hash_type, x)) == half(digest(hash_type, y))
}

/// Whether the algorithm has two byte strings that differ and whose digests have the
/// same half.
pub open spec fn collides(hash_type: HashType) -> bool {
    exists|x: Seq<u8>, y: Seq<u8>| #[trigger] is_collision(hash_type, x, y)
}

/// The two layers have the same nodes, but perhaps for node `i`.
pub open spec fn agree_but_at(a: Seq<Seq<u8>>, b: Seq<Seq<u8>>, i: int) -> bool {
    &&& a.len() == b.len()
    &&& 0 <= i < a.len()
    &&& forall|j: int| 0 <= j < a.len() && j != i ==> #[trigger] a[j] == b[j]
}

/// The two layers have the same nodes but for node `i`, in which they differ.
pub open spec fn differ_at(a: Seq<Seq<u8>>, b: Seq<Seq<u8>>, i: int) -> bool {
    agree_but_at(a, b, i) && a[i] != b[i]
}

/// The position of the node above leaf `index`, `k` layers up.
pub open spec fn ancestor(index: int, k: nat) -> int
    decreases k,
{
    if k == 0 {
        index
    } else {
        ancestor(index / 2, (k - 1) as nat)
    }
}

/// The full digests of leaves given by their bytes.
pub open spec fn digests_of(hash_type: HashType, leaves: Seq<Seq<u8>>) -> Seq<Seq<u8>> {
    Seq::new(leaves.len(), |k: int| digest(hash_type, leaves[k]))
}

proof fn lemma_join_differs(a: Seq<u8>, b: Seq<u8>, c: Seq<u8>, d: Seq<u8>)
    requires
        (a != c && b == d) || (a == c && b != d),
    ensures
        a + b != c + d,
{
    if a + b == c + d {
        assert((a + b).len() == (c + d).len());
        if b == d {
            assert forall|k: int| 0 <= k < a.len() implies a[k] == c[k] by {
                assert((a + b)[k] == (c + d)[k]);
            }
            assert(a =~= c);
        } else {
            assert forall|k: int| 0 <= k < b.len() implies b[k] == d[k] by {
                assert((a + b)[a.len() + k] == (c + d)[a.len() + k]);
            }
            assert(b =~= d);
        }
    }
}

/// Unless the algorithm collides, two layers that differ in one node have layers
/// above them that differ in the node above that one, and in no other.
proof fn lemma_reduce_differs(hash_type: HashType, a: Seq<Seq<u8>>, b: Seq<Seq<u8>>, i: int)
    requires
        differ_at(a, b, i),
        a.len() >= 2,
    ensures
        differ_at(reduce(hash_type, a), reduce(hash_type, b), i / 2) || collides(hash_type),
{
    let up_a = reduce(hash_type, a);
    let up_b = reduce(hash_type, b);
    let k = i / 2;
    assert forall|j: int| 0 <= j < up_a.len() && j != k implies #[trigger] up_a[j] == up_b[j] by {
        assert(a[2 * j] == b[2 * j]);
        if 2 * j + 1 < a.len() {
            assert(a[2 * j + 1] == b[2 * j + 1]);
        }
    }
    if 2 * k + 1 < a.len() {
        let x = a[2 * k] + a[2 * k + 1];
        let y = b[2 * k] + b[2 * k + 1];
        if i == 2 * k {
            assert(a[2 * k + 1] == b[2 * k + 1]);
        } else {
            assert(a[2 * k] == b[2 * k]);
        }
        lemma_join_differs(a[2 * k], a[2 * k + 1], b[2 * k], b[2 * k + 1]);
        if up_a[k] == up_b[k] {
            assert(is_collision(hash_type, x, y));
        }
    }
}

/// Unless the algorithm collides, the trees over two layers that differ in one node
/// have top hashes with different halves.
proof fn lemma_top_hash_differs(
    hash_type: HashType,
    a: Seq<Seq<u8>>,
    b: Seq<Seq<u8>>,
    i: int,
    seed_a: Seq<u8>,
    seed_b: Seq<u8>,
)
    requires
        differ_at(a, b, i),
        a.len() >= 2,
    ensures
        half(top_hash(hash_type, a, seed_a)) != half(top_hash(hash_type, b, seed_b)) || collides(
            hash_type,
        ),
    decreases a.len(),
{
    if a.len() == 2 {
        let x = a[0] + a[1];
        let y = b[0] + b[1];
        if i == 0 {
            assert(a[1] == b[1]);
        } else {
            assert(a[0] == b[0]);
        }
        lemma_join_differs(a[0], a[1], b[0], b[1]);
        if half(digest(hash_type, x)) == half(digest(hash_type, y)) {
            assert(is_collision(hash_type, x, y));
        }
    } else {
        lemma_reduce_differs(hash_type, a, b, i);
        if !collides(hash_type) {
            lemma_top_hash_differs(
                hash_type,
                reduce(hash_type, a),
                reduce(hash_type, b),
                i / 2,
                seed_a,
                seed_b,
            );
        }
    }
}

/// Two roots whose raw roots have different halves differ, whatever file sizes are
/// packed into them.
proof fn lemma_encoded_roots_differ(
    raw_a: Seq<u8>,
    raw_b: Seq<u8>,
    size_a: u64,
    size_b: u64,
    hash_type: HashType,
)
    requires
        raw_a.len() == 32,
        raw_b.len() == 32,
        half(raw_a) != half(raw_b),
    ensures
        encoded_root(raw_a, size_a, hash_type) != encoded_root(raw_b, size_b, hash_type),
{
    let a = encoded_root(raw_a, size_a, hash_type);
    let b = encoded_root(raw_b, size_b, hash_type);
    if a == b {
        assert forall|k: int| 0 <= k < 16 implies half(raw_a)[k] == half(raw_b)[k] by {
            assert(a[16 + k] == raw_a[16 + k]);
            assert(b[16 + k] == raw_b[16 + k]);
        }
        assert(half(raw_a) =~= half(raw_b));
    }
}

/// Changing one leaf changes the root. Take two lists of leaves that differ in the
/// bytes of leaf `i` alone. Unless the algorithm collides, the trees over them have
/// different raw roots and different stored roots, whatever file sizes are stored.
pub proof fn lemma_changed_leaf_changes_root(
    hash_type: HashType,
    leaves: Seq<Seq<u8>>,
    changed: Seq<Seq<u8>>,
    i: int,
    size: u64,
    changed_size: u64,
)
    requires
        differ_at(leaves, changed, i),
    ensures
        collides(hash_type) || {
            let a = raw_root(hash_type, digests_of(hash_type, leaves));
            let b = raw_root(hash_type, digests_of(hash_type, changed));
            a != b && encoded_root(a, size, hash_type) != encoded_root(
                b,
                changed_size,
                hash_type,
            )
        },
{
    let da = digests_of(hash_type, leaves);
    let db = digests_of(hash_type, changed);
    let a = raw_root(hash_type, da);
    let b = raw_root(hash_type, db);
    if !collides(hash_type) {
        assert(!is_collision(hash_type, leaves[i], changed[i]));
        assert(half(da[i]) != half(db[i]));
        if leaves.len() == 1 {
            lemma_digest_len(hash_type, leaves[0]);
            lemma_digest_len(hash_type, changed[0]);
        } else {
            let na = leaf_nodes(da);
            let nb = leaf_nodes(db);
            assert forall|j: int| 0 <= j < na.len() && j != i implies #[trigger] na[j] == nb[j] by {
                assert(leaves[j] == changed[j]);
            }
            assert(differ_at(na, nb, i));
            lemma_top_hash_differs(hash_type, na, nb, i, da[0], db[0]);
            lemma_top_hash_is_a_digest(hash_type, na, da[0]);
            lemma_top_hash_is_a_digest(hash_type, nb, db[0]);
        }
        lemma_encoded_roots_differ(a, b, size, changed_size, hash_type);
    }
}

/// The top hash over two nodes or more has 32 bytes.
proof fn lemma_top_hash_is_a_digest(hash_type: HashType, layer: Seq<Seq<u8>>, seed: Seq<u8>)
    requires
        layer.len() >= 2,
    ensures
        top_hash(hash_type, layer, seed).len() == 32,
    decreases layer.len(),
{
    if layer.len() == 2 {
        lemma_digest_len(hash_type, layer[0] + layer[1]);
    } else {
        lemma_top_hash_is_a_digest(hash_type, reduce(hash_type, layer), seed);
    }
}

/// Changing one byte of a file changes the root of its tree. Take two files of the
/// same length that differ in the byte at `at` alone. Unless the algorithm collides,
/// their trees have different raw roots and different stored roots.
pub proof fn lemma_changed_byte_changes_root(
    hash_type: HashType,
    data: Seq<u8>,
    changed: Seq<u8>,
    at: int,
)
    requires
        data.len() == changed.len(),
        data.len() <= u64::MAX,
        0 <= at < data.len(),
        data[at] != changed[at],
        forall|q: int| 0 <= q < data.len() && q != at ==> #[trigger] data[q] == changed[q],
    ensures
        collides(hash_type) || {
            let a = raw_root(hash_type, file_digests(hash_type, data));
            let b = raw_root(hash_type, file_digests(hash_type, changed));
            a != b && encoded_root(a, data.len() as u64, hash_type) != encoded_root(
                b,
                changed.len() as u64,
                hash_type,
            )
        },
{
    let leaves = file_leaves(data);
    let other = file_leaves(changed);
    let i = at / 1024;
    assert(leaf_bytes(data, i)[at % 1024] == data[at]);
    assert(leaf_bytes(changed, i)[at % 1024] == changed[at]);
    assert forall|j: int| 0 <= j < leaves.len() && j != i implies #[trigger] leaves[j]
        == other[j] by {
        assert forall|k: int| 0 <= k < 1024 implies leaf_bytes(data, j)[k] == leaf_bytes(
            changed,
            j,
        )[k] by {
            if 1024 * j + k < data.len() {
                assert(data[1024 * j + k] == changed[1024 * j + k]);
            }
        }
        assert(leaf_bytes(data, j) =~= leaf_bytes(changed, j));
    }
    assert(differ_at(leaves, other, i));
    assert(digests_of(hash_type, leaves) =~= file_digests(hash_type, data));
    assert(digests_of(hash_type, other) =~= file_digests(hash_type, changed));
    lemma_changed_leaf_changes_root(
        hash_type,
        leaves,
        other,
        i,
        data.len() as u64,
        changed.len() as u64,
    );
}

proof fn lemma_reduce_agrees(hash_type: HashType, a: Seq<Seq<u8>>, b: Seq<Seq<u8>>, i: int)
    requires
        agree_but_at(a, b, i),
        a.len() >= 2,
    ensures
        agree_but_at(reduce(hash_type, a), reduce(hash_type, b), i / 2),
{
    let up_a = reduce(hash_type, a);
    let up_b = reduce(hash_type, b);
    assert forall|j: int| 0 <= j < up_a.len() && j != i / 2 implies #[trigger] up_a[j]
        == up_b[j] by {
        assert(a[2 * j] == b[2 * j]);
        if 2 * j + 1 < a.len() {
            assert(a[2 * j + 1] == b[2 * j + 1]);
        }
    }
}

/// The path of a leaf does not depend on the leaf: two trees whose leaves are the same
/// but perhaps for leaf `i` have the same path for leaf `i`.
pub proof fn lemma_path_ignores_own_leaf(
    hash_type: HashType,
    a: Seq<Seq<u8>>,
    b: Seq<Seq<u8>>,
    i: int,
)
    requires
        agree_but_at(a, b, i),
    ensures
        path_of(build_layers(hash_type, a), i) == path_of(build_layers(hash_type, b), i),
    decreases a.len(),
{
    let la = build_layers(hash_type, a);
    let lb = build_layers(hash_type, b);
    assert(la[0] == a && lb[0] == b);
    if a.len() >= 2 {
        let up_a = reduce(hash_type, a);
        let up_b = reduce(hash_type, b);
        lemma_reduce_agrees(hash_type, a, b, i);
        lemma_path_ignores_own_leaf(hash_type, up_a, up_b, i / 2);
        assert(la.drop_first() =~= build_layers(hash_type, up_a));
        assert(lb.drop_first() =~= build_layers(hash_type, up_b));
        if i % 2 == 1 {
            assert(a[i - 1] == b[i - 1]);
        } else if i + 1 < a.len() {
            assert(a[i + 1] == b[i + 1]);
        }
        assert(sibling(a, i) == sibling(b, i));
    }
}

/// Changing one leaf changes the nodes above it. Take two lists of leaf nodes that
/// differ in leaf `i` alone. Unless the algorithm collides, the trees over them
/// differ, in each layer, in the node above leaf `i` and in no other node.
pub proof fn lemma_changed_leaf_changes_its_ancestors(
    hash_type: HashType,
    a: Seq<Seq<u8>>,
    b: Seq<Seq<u8>>,
    i: int,
    k: nat,
)
    requires
        differ_at(a, b, i),
        k < build_layers(hash_type, a).len(),
    ensures
        build_layers(hash_type, a).len() == build_layers(hash_type, b).len(),
        collides(hash_type) || differ_at(
            build_layers(hash_type, a)[k as int],
            build_layers(hash_type, b)[k as int],
            ancestor(i, k),
        ),
    decreases k,
{
    lemma_build_layers_shape(hash_type, a);
    lemma_build_layers_shape(hash_type, b);
    if k > 0 {
        let up_a = reduce(hash_type, a);
        let up_b = reduce(hash_type, b);
        assert(build_layers(hash_type, a).drop_first() =~= build_layers(hash_type, up_a));
        assert(build_layers(hash_type, b).drop_first() =~= build_layers(hash_type, up_b));
        assert(build_layers(hash_type, a)[k as int] == build_layers(hash_type, up_a)[k - 1]);
        assert(build_layers(hash_type, b)[k as int] == build_layers(hash_type, up_b)[k - 1]);
        lemma_reduce_differs(hash_type, a, b, i);
        if !collides(hash_type) {
            lemma_changed_leaf_changes_its_ancestors(
                hash_type,
                up_a,
                up_b,
                i / 2,
                (k - 1) as nat,
            );
        }
    }
}

} // verus!
