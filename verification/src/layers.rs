use crate::hashing::{digest, half, pair_hash, zero_hash, HalfHash, HashType};
use vstd::prelude::*;

verus! {

/// The layer above `layer`. Nodes are paired left to right; a pair becomes the half of
/// its hash, and a node left over at the end goes up as it is.
pub open spec fn reduce(hash_type: HashType, layer: Seq<Seq<u8>>) -> Seq<Seq<u8>> {
    Seq::new(
        ((layer.len() + 1) / 2) as nat,
        |k: int|
            if 2 * k + 1 < layer.len() {
                half(pair_hash(hash_type, layer[2 * k], layer[2 * k + 1]))
            } else {
                layer[2 * k]
            },
    )
}

/// All layers of the tree over `leaves`, the leaves first. The last layer is the first
/// one with fewer than two nodes.
pub open spec fn build_layers(hash_type: HashType, leaves: Seq<Seq<u8>>) -> Seq<Seq<Seq<u8>>>
    decreases leaves.len(),
{
    if leaves.len() < 2 {
        seq![leaves]
    } else {
        seq![leaves] + build_layers(hash_type, reduce(hash_type, leaves))
    }
}

/// The full hash of the two nodes right under the top of the tree over `layer`: the
/// last pair that building the tree hashes. A layer of fewer than two nodes has no
/// pair, and the value is `seed`.
pub open spec fn top_hash(hash_type: HashType, layer: Seq<Seq<u8>>, seed: Seq<u8>) -> Seq<u8>
    decreases layer.len(),
{
    if layer.len() < 2 {
        seed
    } else if layer.len() == 2 {
        pair_hash(hash_type, layer[0], layer[1])
    } else {
        top_hash(hash_type, reduce(hash_type, layer), seed)
    }
}

/// The nodes of the bottom layer for leaves with the given digests.
pub open spec fn leaf_nodes(digests: Seq<Seq<u8>>) -> Seq<Seq<u8>> {
    Seq::new(digests.len(), |i: int| half(digests[i]))
}

/// The root of the tree over leaves with the given digests, before the file size and
/// the algorithm are packed into it. For two leaves or more it is the hash of the
/// last pair that the reduction hashes. A single leaf is never paired: its own digest
/// is the root. With no leaf at all the root is 32 zero bytes.
pub open spec fn raw_root(hash_type: HashType, digests: Seq<Seq<u8>>) -> Seq<u8> {
    if digests.len() == 0 {
        zero_hash()
    } else if digests.len() == 1 {
        digests[0]
    } else {
        top_hash(hash_type, leaf_nodes(digests), digests[0])
    }
}

/// The number of times a count has to be halved, rounding up, to reach one.
pub open spec fn ceil_log2(n: nat) -> nat
    decreases n,
{
    if n <= 1 {
        0
    } else {
        1 + ceil_log2((n + 1) / 2)
    }
}

/// Layer `k` has two nodes or more, and the layer above it has half as many, rounded up.
pub open spec fn halves_at(layers: Seq<Seq<Seq<u8>>>, k: int) -> bool {
    layers[k].len() >= 2 && layers[k + 1].len() == (layers[k].len() + 1) / 2
}

/// What it means for layers to have the shape of a tree: there is a bottom layer, each
/// layer but the last has two nodes or more and the next has half as many, rounded
/// up, and the last has at most one node.
pub open spec fn well_shaped(layers: Seq<Seq<Seq<u8>>>) -> bool {
    &&& layers.len() >= 1
    &&& forall|k: int| 0 <= k < layers.len() - 1 ==> #[trigger] halves_at(layers, k)
    &&& layers.last().len() <= 1
}

/// The layer above layer `k` is its reduction.
pub open spec fn reduces_at(hash_type: HashType, layers: Seq<Seq<Seq<u8>>>, k: int) -> bool {
    layers[k + 1] == reduce(hash_type, layers[k])
}

/// What it means for layers to be a tree under `hash_type`: they have the shape of
/// one, and each layer above the bottom is the reduction of the one below it.
pub open spec fn is_reduction(hash_type: HashType, layers: Seq<Seq<Seq<u8>>>) -> bool {
    &&& well_shaped(layers)
    &&& forall|k: int| 0 <= k < layers.len() - 1 ==> #[trigger] reduces_at(hash_type, layers, k)
}

/// The nodes of a stored layer as byte sequences.
pub open spec fn layer_view(layer: Seq<HalfHash>) -> Seq<Seq<u8>> {
    Seq::new(layer.len(), |i: int| layer[i]@)
}

/// Stored layers as byte sequences.
pub open spec fn layers_view(tree: Seq<Vec<HalfHash>>) -> Seq<Seq<Seq<u8>>> {
    Seq::new(tree.len(), |k: int| layer_view(tree[k]@))
}

/// The node that node `index` of `layer` is paired with. An even node at the end of a
/// layer of odd size has none.
pub open spec fn sibling(layer: Seq<Seq<u8>>, index: int) -> Option<Seq<u8>> {
    if index % 2 == 1 {
        Some(layer[index - 1])
    } else if index + 1 < layer.len() {
        Some(layer[index + 1])
    } else {
        None
    }
}

/// The authentication path of leaf `index`: for each layer from the bottom up, as long
/// as the layer has two nodes or more, the sibling of the node above the leaf. The
/// node's position halves from one layer to the next.
pub open spec fn path_of(layers: Seq<Seq<Seq<u8>>>, index: int) -> Seq<Option<Seq<u8>>>
    decreases layers.len(),
{
    if layers.len() == 0 || layers[0].len() < 2 {
        Seq::empty()
    } else {
        seq![sibling(layers[0], index)] + path_of(layers.drop_first(), index / 2)
    }
}

/// One step up the tree from the running digest `current` of the node at `index`.
/// With a sibling, the halves of the two are hashed, the node at the even position
/// first. Without one, the running digest goes up unchanged.
pub open spec fn climb(
    hash_type: HashType,
    current: Seq<u8>,
    entry: Option<Seq<u8>>,
    index: int,
) -> Seq<u8> {
    match entry {
        Some(s) => if index % 2 == 0 {
            pair_hash(hash_type, half(current), s)
        } else {
            pair_hash(hash_type, s, half(current))
        },
        None => current,
    }
}

/// The digest reached from `current` at position `index` by climbing along `path`.
pub open spec fn recompute(
    hash_type: HashType,
    path: Seq<Option<Seq<u8>>>,
    index: int,
    current: Seq<u8>,
) -> Seq<u8>
    decreases path.len(),
{
    if path.len() == 0 {
        current
    } else {
        recompute(
            hash_type,
            path.drop_first(),
            index / 2,
            climb(hash_type, current, path[0], index),
        )
    }
}

/// The root recomputed from the bytes of leaf `index` and its path. Nothing is packed
/// into it: it is the raw digest.
pub open spec fn recomputed_root(
    hash_type: HashType,
    path: Seq<Option<Seq<u8>>>,
    index: int,
    leaf: Seq<u8>,
) -> Seq<u8> {
    recompute(hash_type, path, index, digest(hash_type, leaf))
}

/// A path entry as a byte sequence, if it is a sibling.
pub open spec fn entry_view(entry: Option<HalfHash>) -> Option<Seq<u8>> {
    match entry {
        Some(h) => Some(h@),
        None => None,
    }
}

/// A stored path as byte sequences.
pub open spec fn path_view(path: Seq<Option<HalfHash>>) -> Seq<Option<Seq<u8>>> {
    Seq::new(path.len(), |i: int| entry_view(path[i]))
}

/// With two nodes or more in the layer, the seed plays no part in the top hash.
pub proof fn lemma_top_hash_ignores_seed(
    hash_type: HashType,
    layer: Seq<Seq<u8>>,
    a: Seq<u8>,
    b: Seq<u8>,
)
    requires
        layer.len() >= 2,
    ensures
        top_hash(hash_type, layer, a) == top_hash(hash_type, layer, b),
    decreases layer.len(),
{
    if layer.len() > 2 {
        lemma_top_hash_ignores_seed(hash_type, reduce(hash_type, layer), a, b);
    }
}

/// The layers over any leaves are a tree with those leaves at the bottom, and there
/// are `ceil_log2` of the leaf count plus one of them.
pub proof fn lemma_build_layers_shape(hash_type: HashType, leaves: Seq<Seq<u8>>)
    ensures
        is_reduction(hash_type, build_layers(hash_type, leaves)),
        build_layers(hash_type, leaves)[0] == leaves,
        build_layers(hash_type, leaves).len() == ceil_log2(leaves.len()) + 1,
        leaves.len() >= 1 ==> build_layers(hash_type, leaves).last().len() == 1,
    decreases leaves.len(),
{
    let layers = build_layers(hash_type, leaves);
    if leaves.len() >= 2 {
        let up = reduce(hash_type, leaves);
        let rest = build_layers(hash_type, up);
        lemma_build_layers_shape(hash_type, up);
        assert(layers == seq![leaves] + rest);
        assert forall|k: int| 0 <= k < layers.len() - 1 implies #[trigger] halves_at(layers, k) by {
            if k > 0 {
                assert(halves_at(rest, k - 1));
                assert(layers[k] == rest[k - 1]);
                assert(layers[k + 1] == rest[k]);
            } else {
                assert(layers[1] == rest[0]);
            }
        }
        assert forall|k: int| 0 <= k < layers.len() - 1 implies #[trigger] reduces_at(
            hash_type,
            layers,
            k,
        ) by {
            if k > 0 {
                assert(reduces_at(hash_type, rest, k - 1));
                assert(layers[k] == rest[k - 1]);
                assert(layers[k + 1] == rest[k]);
            } else {
                assert(layers[1] == rest[0]);
            }
        }
        assert(layers.last() == rest.last());
    }
}

/// Layers that are a tree are the layers built over their bottom layer.
pub proof fn lemma_reduction_is_built(hash_type: HashType, layers: Seq<Seq<Seq<u8>>>)
    requires
        is_reduction(hash_type, layers),
    ensures
        layers == build_layers(hash_type, layers[0]),
    decreases layers.len(),
{
    if layers.len() == 1 {
        assert(layers =~= seq![layers[0]]);
    } else {
        let rest = layers.drop_first();
        assert(halves_at(layers, 0) && reduces_at(hash_type, layers, 0));
        assert forall|k: int| 0 <= k < rest.len() - 1 implies #[trigger] halves_at(rest, k) by {
            assert(halves_at(layers, k + 1));
        }
        assert forall|k: int| 0 <= k < rest.len() - 1 implies #[trigger] reduces_at(
            hash_type,
            rest,
            k,
        ) by {
            assert(reduces_at(hash_type, layers, k + 1));
        }
        assert(rest.last() == layers.last());
        lemma_reduction_is_built(hash_type, rest);
        assert(layers =~= seq![layers[0]] + rest);
    }
}

} // verus!
