use crate::hashing::{
    self, calc_hash, half, half_hash, join_halves, zero_hash, HalfHash, HashType,
};
use crate::layers::{
    entry_view, halves_at, layer_view, layers_view, path_of, path_view, recompute,
    recomputed_root, sibling, well_shaped,
};
use vstd::prelude::*;

verus! {

/// A built tree: its layers from the leaves up, the root stored for it, and the
/// algorithm that every hash in it was made with.
pub struct MerkleTree {
    tree: Vec<Vec<HalfHash>>,
    root: hashing::Hash,
    hash_type: HashType,
}

/// What a tree is, as plain values.
pub struct MerkleTreeView {
    pub hash_type: HashType,
    pub layers: Seq<Seq<Seq<u8>>>,
    pub root: Seq<u8>,
}

/// Whether every node of the tree has 16 bytes and its root 32, as those of every
/// stored tree have.
pub open spec fn sized(tree: MerkleTreeView) -> bool {
    &&& tree.root.len() == 32
    &&& forall|k: int, j: int|
        0 <= k < tree.layers.len() && 0 <= j < tree.layers[k].len() ==> (
        #[trigger] tree.layers[k][j]).len() == 16
}

impl View for MerkleTree {
    type V = MerkleTreeView;

    closed spec fn view(&self) -> MerkleTreeView {
        MerkleTreeView {
            hash_type: self.hash_type,
            layers: layers_view(self.tree@),
            root: self.root@,
        }
    }
}

/// The 32 bytes hashed for a node and its sibling: their halves, the node at the even
/// position first.
pub fn pair_input(current: &hashing::Hash, sibling: &HalfHash, index: u64) -> (out: [u8; 32])
    ensures
        out@ == if index % 2 == 0 {
            half(current@) + sibling@
        } else {
            sibling@ + half(current@)
        },
{
    let current_half = half_hash(current);
    if index % 2 == 0 {
        join_halves(&current_half, sibling)
    } else {
        join_halves(sibling, &current_half)
    }
}

/// Under a layer of fewer than two nodes a path has no entries.
proof fn lemma_path_end(rest: Seq<Seq<Seq<u8>>>, index: int)
    requires
        rest.len() == 0 || rest[0].len() < 2,
    ensures
        path_of(rest, index) == Seq::<Option<Seq<u8>>>::empty(),
{
}

/// Under a layer of two nodes or more a path begins with the sibling in that layer.
proof fn lemma_path_step(rest: Seq<Seq<Seq<u8>>>, index: int)
    requires
        rest.len() > 0,
        rest[0].len() >= 2,
    ensures
        path_of(rest, index) == seq![sibling(rest[0], index)] + path_of(
            rest.drop_first(),
            index / 2,
        ),
{
}

/// Whether two digests hold the same bytes.
pub fn same_hash(a: &hashing::Hash, b: &hashing::Hash) -> (same: bool)
    ensures
        same == (a@ == b@),
{
    let mut i: usize = 0;
    while i < 32
        invariant
            i <= 32,
            forall|j: int| 0 <= j < i ==> a@[j] == b@[j],
        decreases 32 - i,
    {
        if a[i] != b[i] {
            return false;
        }
        i += 1;
    }
    assert(a@ =~= b@);
    true
}

impl MerkleTree {
    /// The nodes and the root of a stored tree have their sizes.
    pub proof fn lemma_sized(&self)
        ensures
            sized(self@),
    {
    }

    /// A tree with no layers yet and a root of zeros.
    pub fn new(hash_type: HashType) -> (tree: MerkleTree)
        ensures
            tree@.hash_type == hash_type,
            tree@.layers == Seq::<Seq<Seq<u8>>>::empty(),
            tree@.root == zero_hash(),
    {
        let tree = MerkleTree { tree: Vec::new(), root: [0u8; 32], hash_type };
        assert(tree@.layers =~= Seq::<Seq<Seq<u8>>>::empty());
        assert(tree@.root =~= zero_hash());
        tree
    }

    /// The tree made of the given parts.
    pub(crate) fn from_parts(
        tree: Vec<Vec<HalfHash>>,
        root: hashing::Hash,
        hash_type: HashType,
    ) -> (t: MerkleTree)
        ensures
            t@.hash_type == hash_type,
            t@.layers == layers_view(tree@),
            t@.root == root@,
    {
        MerkleTree { tree, root, hash_type }
    }

    /// The stored layers.
    pub(crate) fn stored_layers(&self) -> (layers: &Vec<Vec<HalfHash>>)
        ensures
            layers_view(layers@) == self@.layers,
    {
        &self.tree
    }

    /// The number of leaves: the size of the bottom layer.
    pub fn leaf_size(&self) -> (n: usize)
        requires
            self@.layers.len() > 0,
        ensures
            n == self@.layers[0].len(),
    {
        self.tree[0].len()
    }

    /// The stored root.
    pub fn get_root(&self) -> (root: &hashing::Hash)
        ensures
            root@ == self@.root,
    {
        &self.root
    }

    /// The algorithm of the tree.
    pub fn hash_type(&self) -> (hash_type: HashType)
        ensures
            hash_type == self@.hash_type,
    {
        self.hash_type
    }

    /// Replaces the stored root and nothing else.
    pub fn update_root(&mut self, new_root: hashing::Hash)
        ensures
            final(self)@.root == new_root@,
            final(self)@.layers == old(self)@.layers,
            final(self)@.hash_type == old(self)@.hash_type,
    {
        self.root = new_root;
    }

    /// Whether the layers have the shape of a tree.
    pub fn is_well_shaped(&self) -> (ok: bool)
        ensures
            ok == well_shaped(self@.layers),
    {
        let n = self.tree.len();
        if n == 0 {
            return false;
        }
        let mut k: usize = 0;
        while k + 1 < n
            invariant
                n == self.tree.len(),
                n >= 1,
                k + 1 <= n,
                forall|j: int| 0 <= j < k ==> #[trigger] halves_at(self@.layers, j),
            decreases n - k,
        {
            let below = self.tree[k].len();
            let above = self.tree[k + 1].len();
            assert(self@.layers[k as int].len() == below);
            assert(self@.layers[k + 1].len() == above);
            if below < 2 || above != below - below / 2 {
                assert(!halves_at(self@.layers, k as int));
                return false;
            }
            assert(halves_at(self@.layers, k as int));
            k += 1;
        }
        assert(self@.layers.last().len() == self.tree[n - 1].len());
        self.tree[n - 1].len() <= 1
    }

    /// The authentication path of leaf `index`: one entry for each layer under the top
    /// one, from the bottom up. An entry is the sibling of the node above the leaf in
    /// that layer, or `None` where the node has no sibling.
    pub fn get_path(&self, index: u64) -> (path: Vec<Option<HalfHash>>)
        requires
            well_shaped(self@.layers),
            index < self@.layers[0].len(),
        ensures
            path_view(path@) == path_of(self@.layers, index as int),
            path@.len() == self@.layers.len() - 1,
    {
        let ghost layers = self@.layers;
        let n = self.tree.len();
        let leaf_count = self.tree[0].len();
        assert(layers[0].len() == leaf_count);
        let mut cur_index: usize = index as usize;
        let mut ret: Vec<Option<HalfHash>> = Vec::new();
        let mut k: usize = 0;
        proof {
            assert(layers.skip(0) =~= layers);
            assert(path_view(ret@) + path_of(layers, index as int) =~= path_of(
                layers,
                index as int,
            ));
        }
        while k < n
            invariant
                layers == self@.layers,
                n == self.tree.len(),
                n == layers.len(),
                well_shaped(layers),
                k < n,
                ret@.len() == k,
                cur_index < layers[k as int].len(),
                path_of(layers, index as int) == path_view(ret@) + path_of(
                    layers.skip(k as int),
                    cur_index as int,
                ),
            ensures
                ret@.len() == n - 1,
                path_of(layers, index as int) == path_view(ret@),
            decreases n - k,
        {
            let layer = &self.tree[k];
            let ghost rest = layers.skip(k as int);
            assert(rest[0] == layers[k as int]);
            assert(layers[k as int] == layer_view(layer@));
            if layer.len() < 2 {
                proof {
                    if k < n - 1 {
                        assert(halves_at(layers, k as int));
                    }
                    lemma_path_end(rest, cur_index as int);
                    assert(path_view(ret@) + Seq::<Option<Seq<u8>>>::empty() =~= path_view(ret@));
                }
                break;
            }
            let entry: Option<HalfHash> = if cur_index % 2 == 1 {
                Some(layer[cur_index - 1])
            } else if cur_index + 1 < layer.len() {
                Some(layer[cur_index + 1])
            } else {
                None
            };
            proof {
                assert(k < n - 1);
                assert(halves_at(layers, k as int));
                assert(entry_view(entry) == sibling(layers[k as int], cur_index as int));
                lemma_path_step(rest, cur_index as int);
                assert(rest.drop_first() =~= layers.skip(k + 1));
                assert(path_view(ret@.push(entry)) =~= path_view(ret@).push(entry_view(entry)));
                assert(path_view(ret@).push(entry_view(entry)) + path_of(
                    layers.skip(k + 1),
                    cur_index as int / 2,
                ) =~= path_view(ret@) + path_of(rest, cur_index as int));
            }
            ret.push(entry);
            cur_index = cur_index / 2;
            k += 1;
        }
        ret
    }

    /// The root recomputed from the bytes of leaf `leaf_index` and the path `proofs`.
    /// The result is the raw digest: no file size or algorithm is packed into it.
    pub fn proof_by_path(
        &self,
        proofs: Vec<Option<HalfHash>>,
        leaf_index: u64,
        leafdata: &[u8],
    ) -> (h: hashing::Hash)
        ensures
            h@ == recomputed_root(
                self@.hash_type,
                path_view(proofs@),
                leaf_index as int,
                leafdata@,
            ),
    {
        let ghost path = path_view(proofs@);
        let mut current: hashing::Hash = calc_hash(&self.hash_type, leafdata);
        let mut cur_index: u64 = leaf_index;
        let mut i: usize = 0;
        assert(path.skip(0) =~= path);
        while i < proofs.len()
            invariant
                i <= proofs.len(),
                path == path_view(proofs@),
                recomputed_root(self@.hash_type, path, leaf_index as int, leafdata@) == recompute(
                    self@.hash_type,
                    path.skip(i as int),
                    cur_index as int,
                    current@,
                ),
            decreases proofs.len() - i,
        {
            proof {
                assert(path.skip(i as int)[0] == entry_view(proofs@[i as int]));
                assert(path.skip(i as int).drop_first() =~= path.skip(i + 1));
            }
            match &proofs[i] {
                Some(sibling) => {
                    let joined = pair_input(&current, sibling, cur_index);
                    current = calc_hash(&self.hash_type, joined.as_slice());
                },
                None => {},
            }
            cur_index = cur_index / 2;
            i += 1;
        }
        current
    }

    /// Whether the root recomputed from the leaf and the path is the stored root, byte
    /// for byte. The recomputed root is raw, so a stored root that has the file size
    /// and the algorithm packed into it is matched only by chance.
    pub fn verify(&self, proof: Vec<Option<HalfHash>>, leaf_index: u64, leafdata: &[u8]) -> (ok:
        bool)
        ensures
            ok == (recomputed_root(
                self@.hash_type,
                path_view(proof@),
                leaf_index as int,
                leafdata@,
            ) == self@.root),
    {
        let calc_root = self.proof_by_path(proof, leaf_index, leafdata);
        same_hash(&calc_root, &self.root)
    }
}

} // verus!
