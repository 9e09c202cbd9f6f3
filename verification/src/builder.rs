use crate::chunks::{count_leaves, file_digests, read_leaf};
use crate::hashing::{
    self, calc_hash, digest, half_hash, hash_pair, pair_hash, zero_hash, HalfHash, HashType,
};
use crate::layers::{
    build_layers, ceil_log2, is_reduction, layer_view, layers_view, leaf_nodes,
    lemma_build_layers_shape, lemma_top_hash_ignores_seed, raw_root, reduce, top_hash,
};
use crate::root::{encode_root, encoded_root};
use crate::tree::MerkleTree;
use vstd::prelude::*;

verus! {

/// Collects the leaves of a file in order and builds the tree over them.
pub struct MerkleTreeBuilder {
    leaf_hash: Vec<HalfHash>,
    first: hashing::Hash,
    hash_type: HashType,
    digests: Ghost<Seq<Seq<u8>>>,
}

/// What a builder is, as plain values: its algorithm and the full digests of the
/// leaves it was given, in the order in which it got them.
pub struct BuilderView {
    pub hash_type: HashType,
    pub digests: Seq<Seq<u8>>,
}

/// The full digests of the given leaves, in their order.
pub open spec fn leaf_digests(hash_type: HashType, leafs: Seq<Vec<u8>>) -> Seq<Seq<u8>> {
    Seq::new(leafs.len(), |i: int| digest(hash_type, leafs[i]@))
}

/// The last pair of `layer` hashed: nodes `2m - 2` and `2m - 1`, for `m` pairs.
spec fn last_pair_hash(hash_type: HashType, layer: Seq<Seq<u8>>) -> Seq<u8> {
    let m = layer.len() / 2;
    pair_hash(hash_type, layer[2 * m - 2], layer[2 * m - 1])
}

/// One round of the reduction: the layer above `layer`, and the hash of its last pair.
fn reduce_layer(hash_type: &HashType, layer: &Vec<HalfHash>) -> (res: (
    Vec<HalfHash>,
    hashing::Hash,
))
    requires
        layer.len() >= 2,
    ensures
        layer_view(res.0@) == reduce(*hash_type, layer_view(layer@)),
        res.1@ == last_pair_hash(*hash_type, layer_view(layer@)),
{
    let ghost below = layer_view(layer@);
    let mut next: Vec<HalfHash> = Vec::new();
    let mut last: hashing::Hash = [0u8; 32];
    let mut i: usize = 0;
    while i < layer.len()
        invariant
            i <= layer.len(),
            i % 2 == 0 || i == layer.len(),
            next.len() == (i + 1) / 2,
            below == layer_view(layer@),
            forall|k: int| 0 <= k < next.len() ==> next@[k]@ == reduce(*hash_type, below)[k],
            i >= 2 ==> last@ == pair_hash(
                *hash_type,
                below[2 * (i as int / 2) - 2],
                below[2 * (i as int / 2) - 1],
            ),
        decreases layer.len() - i,
    {
        if i + 1 < layer.len() {
            last = hash_pair(hash_type, &layer[i], &layer[i + 1]);
            next.push(half_hash(&last));
            i += 2;
        } else {
            next.push(layer[i]);
            i += 1;
        }
    }
    assert(layer_view(next@) =~= reduce(*hash_type, below));
    (next, last)
}

impl View for MerkleTreeBuilder {
    type V = BuilderView;

    closed spec fn view(&self) -> BuilderView {
        BuilderView { hash_type: self.hash_type, digests: self.digests@ }
    }
}

impl MerkleTreeBuilder {
    /// What the builder keeps of its leaves agrees with the leaves it was given.
    pub closed spec fn wf(&self) -> bool {
        &&& layer_view(self.leaf_hash@) == leaf_nodes(self.digests@)
        &&& self.first@ == if self.digests@.len() == 0 {
            zero_hash()
        } else {
            self.digests@[0]
        }
    }

    /// A builder with no leaves.
    pub fn new(hash_type: HashType) -> (builder: MerkleTreeBuilder)
        ensures
            builder.wf(),
            builder@.hash_type == hash_type,
            builder@.digests == Seq::<Seq<u8>>::empty(),
    {
        let builder = MerkleTreeBuilder {
            leaf_hash: Vec::new(),
            first: [0u8; 32],
            hash_type,
            digests: Ghost(Seq::empty()),
        };
        assert(layer_view(builder.leaf_hash@) =~= leaf_nodes(builder.digests@));
        assert(builder.first@ =~= zero_hash());
        builder
    }

    /// Appends a leaf that has been hashed already: `leaf_digest` is its full digest.
    pub fn add_leaf_digest(&mut self, leaf_digest: hashing::Hash)
        requires
            old(self).wf(),
        ensures
            final(self).wf(),
            final(self)@.hash_type == old(self)@.hash_type,
            final(self)@.digests == old(self)@.digests.push(leaf_digest@),
    {
        if self.leaf_hash.len() == 0 {
            self.first = leaf_digest;
        }
        self.leaf_hash.push(half_hash(&leaf_digest));
        self.digests = Ghost(self.digests@.push(leaf_digest@));
        proof {
            assert(old(self).leaf_hash@.len() == layer_view(old(self).leaf_hash@).len());
            assert(old(self).digests@.len() == leaf_nodes(old(self).digests@).len());
            assert forall|i: int| 0 <= i < self.leaf_hash@.len() implies layer_view(
                self.leaf_hash@,
            )[i] == leaf_nodes(self.digests@)[i] by {
                if i < old(self).leaf_hash@.len() {
                    assert(layer_view(old(self).leaf_hash@)[i] == leaf_nodes(old(self).digests@)[i]);
                }
            }
            assert(layer_view(self.leaf_hash@) =~= leaf_nodes(self.digests@));
        }
    }

    /// Hashes `leaf` and appends it. The leaves keep the order in which they are added.
    pub fn add_leaf(&mut self, leaf: &[u8])
        requires
            old(self).wf(),
        ensures
            final(self).wf(),
            final(self)@.hash_type == old(self)@.hash_type,
            final(self)@.digests == old(self)@.digests.push(digest(
                old(self)@.hash_type,
                leaf@,
            )),
    {
        let leaf_digest = calc_hash(&self.hash_type, leaf);
        self.add_leaf_digest(leaf_digest);
    }

    /// Hashes the leaves and appends them in the order of `leafs`.
    pub fn add_leafs(&mut self, leafs: Vec<Vec<u8>>)
        requires
            old(self).wf(),
        ensures
            final(self).wf(),
            final(self)@.hash_type == old(self)@.hash_type,
            final(self)@.digests == old(self)@.digests + leaf_digests(old(self)@.hash_type, leafs@),
    {
        let mut i: usize = 0;
        while i < leafs.len()
            invariant
                i <= leafs.len(),
                self.wf(),
                self@.hash_type == old(self)@.hash_type,
                self@.digests == old(self)@.digests + leaf_digests(
                    old(self)@.hash_type,
                    leafs@.take(i as int),
                ),
            decreases leafs.len() - i,
        {
            self.add_leaf(leafs[i].as_slice());
            proof {
                assert(leaf_digests(old(self)@.hash_type, leafs@.take(i + 1)) =~= leaf_digests(
                    old(self)@.hash_type,
                    leafs@.take(i as int),
                ).push(digest(old(self)@.hash_type, leafs@[i as int]@)));
            }
            i += 1;
        }
        assert(leafs@.take(leafs.len() as int) =~= leafs@);
    }

    /// Builds the tree over the leaves added so far and stores the raw root in it:
    /// nothing is packed into the root. Every leaf of this tree verifies against it.
    pub fn calc_raw_tree(self) -> (tree: MerkleTree)
        requires
            self.wf(),
        ensures
            tree@.hash_type == self@.hash_type,
            tree@.layers == build_layers(self@.hash_type, leaf_nodes(self@.digests)),
            tree@.root == raw_root(self@.hash_type, self@.digests),
            is_reduction(tree@.hash_type, tree@.layers),
            tree@.layers.len() == ceil_log2(self@.digests.len()) + 1,
            tree@.layers[0] == leaf_nodes(self@.digests),
            self@.digests.len() >= 1 ==> tree@.layers.last().len() == 1,
    {
        let hash_type = self.hash_type;
        let ghost leaves = leaf_nodes(self.digests@);
        let ghost seed = self.first@;
        let mut layers: Vec<Vec<HalfHash>> = Vec::new();
        let mut cur: Vec<HalfHash> = self.leaf_hash;
        let mut hash: hashing::Hash = self.first;
        assert(layers_view(layers@) + build_layers(hash_type, leaves) =~= build_layers(
            hash_type,
            leaves,
        ));
        while cur.len() > 1
            invariant
                build_layers(hash_type, leaves) == layers_view(layers@) + build_layers(
                    hash_type,
                    layer_view(cur@),
                ),
                top_hash(hash_type, leaves, seed) == top_hash(hash_type, layer_view(cur@), hash@),
            decreases cur.len(),
        {
            let ghost below = layer_view(cur@);
            let (next, last) = reduce_layer(&hash_type, &cur);
            proof {
                let up = layer_view(next@);
                assert(up.len() == (below.len() + 1) / 2);
                if below.len() > 2 {
                    lemma_top_hash_ignores_seed(hash_type, up, hash@, last@);
                }
                assert(layers_view(layers@.push(cur)) =~= layers_view(layers@).push(below));
                assert(layers_view(layers@).push(below) + build_layers(hash_type, up)
                    =~= layers_view(layers@) + build_layers(hash_type, below));
            }
            layers.push(cur);
            cur = next;
            hash = last;
        }
        proof {
            assert(layers_view(layers@.push(cur)) =~= layers_view(layers@).push(layer_view(cur@)));
            assert(layers_view(layers@).push(layer_view(cur@)) =~= build_layers(hash_type, leaves));
            lemma_build_layers_shape(hash_type, leaves);
        }
        layers.push(cur);
        MerkleTree::from_parts(layers, hash, hash_type)
    }

    /// Builds the tree over the leaves added so far, for a file of `file_size` bytes.
    /// The layers are those of the reduction. The stored root is the raw root with the
    /// file size and the algorithm packed into its first eight bytes.
    pub fn calc_tree(self, file_size: usize) -> (tree: MerkleTree)
        requires
            self.wf(),
        ensures
            tree@.hash_type == self@.hash_type,
            tree@.layers == build_layers(self@.hash_type, leaf_nodes(self@.digests)),
            tree@.root == encoded_root(
                raw_root(self@.hash_type, self@.digests),
                file_size as u64,
                self@.hash_type,
            ),
            is_reduction(tree@.hash_type, tree@.layers),
            tree@.layers.len() == ceil_log2(self@.digests.len()) + 1,
            tree@.layers[0] == leaf_nodes(self@.digests),
            self@.digests.len() >= 1 ==> tree@.layers.last().len() == 1,
    {
        let mut tree = self.calc_raw_tree();
        let hash_type = tree.hash_type();
        let encoded = encode_root(tree.get_root(), file_size as u64, &hash_type);
        tree.update_root(encoded);
        tree
    }
}

/// Builds the tree of a file: its leaves are hashed in order, and the file's size in
/// bytes is packed into the root.
pub fn build_tree(hash_type: HashType, data: &[u8]) -> (tree: MerkleTree)
    ensures
        tree@.hash_type == hash_type,
        tree@.layers == build_layers(hash_type, leaf_nodes(file_digests(hash_type, data@))),
        tree@.root == encoded_root(
            raw_root(hash_type, file_digests(hash_type, data@)),
            data@.len() as u64,
            hash_type,
        ),
        is_reduction(hash_type, tree@.layers),
        tree@.layers[0].len() == file_digests(hash_type, data@).len(),
{
    let ghost all = file_digests(hash_type, data@);
    let mut builder = MerkleTreeBuilder::new(hash_type);
    let n = count_leaves(data.len() as u64) as usize;
    let mut i: usize = 0;
    assert(all.take(0) =~= Seq::<Seq<u8>>::empty());
    while i < n
        invariant
            i <= n,
            n == all.len(),
            all == file_digests(hash_type, data@),
            builder.wf(),
            builder@.hash_type == hash_type,
            builder@.digests == all.take(i as int),
        decreases n - i,
    {
        let leaf = read_leaf(data, i);
        builder.add_leaf(leaf.as_slice());
        assert(all.take(i + 1) =~= all.take(i as int).push(all[i as int]));
        i += 1;
    }
    assert(all.take(n as int) =~= all);
    let tree = builder.calc_tree(data.len());
    assert(tree@.layers[0].len() == leaf_nodes(all).len());
    tree
}

} // verus!
