use crate::hashing::{HalfHash, HashType};
use crate::hexfmt::{
    decode_half_hash, decode_hash, hex, hex_text, lemma_hex_round_trip, parse_sized, FormatError,
};
use crate::layers::{layer_view, layers_view};
use crate::tree::{sized, MerkleTree, MerkleTreeView};
use vstd::prelude::*;

verus! {

/// A tree as it is written out: the algorithm, each node of each layer in hex form,
/// and the stored root in hex form.
pub struct MerkleTreeData {
    pub hash_type: HashType,
    pub tree: Vec<Vec<String>>,
    pub root: String,
}

/// What a written tree is, as plain values.
pub struct MerkleTreeDataView {
    pub hash_type: HashType,
    pub tree: Seq<Seq<Seq<char>>>,
    pub root: Seq<char>,
}

/// The texts of a written layer.
pub open spec fn texts_view(layer: Seq<String>) -> Seq<Seq<char>> {
    Seq::new(layer.len(), |j: int| layer[j]@)
}

impl View for MerkleTreeData {
    type V = MerkleTreeDataView;

    open spec fn view(&self) -> MerkleTreeDataView {
        MerkleTreeDataView {
            hash_type: self.hash_type,
            tree: Seq::new(self.tree@.len(), |k: int| texts_view(self.tree@[k]@)),
            root: self.root@,
        }
    }
}

/// The written form of a layer: each node in hex form.
pub open spec fn saved_layer(layer: Seq<Seq<u8>>) -> Seq<Seq<char>> {
    Seq::new(layer.len(), |j: int| hex_text(layer[j]))
}

/// The written form of a tree.
pub open spec fn saved(tree: MerkleTreeView) -> MerkleTreeDataView {
    MerkleTreeDataView {
        hash_type: tree.hash_type,
        tree: Seq::new(tree.layers.len(), |k: int| saved_layer(tree.layers[k])),
        root: hex_text(tree.root),
    }
}

/// The nodes that the texts of a written layer stand for, or the error of the first
/// text that is not the hex form of 16 bytes.
pub open spec fn parse_layer(texts: Seq<Seq<char>>) -> Result<Seq<Seq<u8>>, FormatError>
    decreases texts.len(),
{
    if texts.len() == 0 {
        Ok(Seq::empty())
    } else {
        match parse_layer(texts.drop_last()) {
            Err(e) => Err(e),
            Ok(nodes) => match parse_sized(texts.last(), 16) {
                Err(e) => Err(e),
                Ok(node) => Ok(nodes.push(node)),
            },
        }
    }
}

/// The layers that written layers stand for, or the error of the first layer that has
/// one.
pub open spec fn parse_layers(tree: Seq<Seq<Seq<char>>>) -> Result<Seq<Seq<Seq<u8>>>, FormatError>
    decreases tree.len(),
{
    if tree.len() == 0 {
        Ok(Seq::empty())
    } else {
        match parse_layers(tree.drop_last()) {
            Err(e) => Err(e),
            Ok(layers) => match parse_layer(tree.last()) {
                Err(e) => Err(e),
                Ok(layer) => Ok(layers.push(layer)),
            },
        }
    }
}

/// The tree that a written tree stands for. The texts are read layer by layer, node
/// by node, and the root last; the error is that of the first text that cannot be
/// read.
pub open spec fn loaded(data: MerkleTreeDataView) -> Result<MerkleTreeView, FormatError> {
    match parse_layers(data.tree) {
        Err(e) => Err(e),
        Ok(layers) => match parse_sized(data.root, 32) {
            Err(e) => Err(e),
            Ok(root) => Ok(MerkleTreeView { hash_type: data.hash_type, layers, root }),
        },
    }
}

/// Reads the nodes of one written layer.
fn load_layer(texts: &Vec<String>) -> (res: Result<Vec<HalfHash>, FormatError>)
    ensures
        match res {
            Ok(layer) => parse_layer(texts_view(texts@)) == Ok::<Seq<Seq<u8>>, FormatError>(
                layer_view(layer@),
            ),
            Err(e) => parse_layer(texts_view(texts@)) == Err::<Seq<Seq<u8>>, FormatError>(e),
        },
{
    let ghost all = texts_view(texts@);
    let mut layer: Vec<HalfHash> = Vec::new();
    let mut j: usize = 0;
    assert(all.take(0) =~= Seq::<Seq<char>>::empty());
    assert(layer_view(layer@) =~= Seq::<Seq<u8>>::empty());
    while j < texts.len()
        invariant
            j <= texts.len(),
            all == texts_view(texts@),
            parse_layer(all.take(j as int)) == Ok::<Seq<Seq<u8>>, FormatError>(layer_view(layer@)),
        decreases texts.len() - j,
    {
        proof {
            assert(all.take(j + 1).drop_last() =~= all.take(j as int));
            assert(all.take(j + 1).last() == texts@[j as int]@);
        }
        match decode_half_hash(texts[j].as_str()) {
            Ok(node) => {
                proof {
                    assert(layer_view(layer@.push(node)) =~= layer_view(layer@).push(node@));
                }
                layer.push(node);
            },
            Err(e) => {
                proof {
                    lemma_parse_layer_prefix_error(all, j + 1, e);
                }
                return Err(e);
            },
        }
        j += 1;
    }
    proof {
        assert(all.take(j as int) =~= all);
    }
    Ok(layer)
}

/// An error in reading the first `n` texts of a layer is the error in reading all.
proof fn lemma_parse_layer_prefix_error(texts: Seq<Seq<char>>, n: int, e: FormatError)
    requires
        0 <= n <= texts.len(),
        parse_layer(texts.take(n)) == Err::<Seq<Seq<u8>>, FormatError>(e),
    ensures
        parse_layer(texts) == Err::<Seq<Seq<u8>>, FormatError>(e),
    decreases texts.len() - n,
{
    if n < texts.len() {
        assert(texts.take(n + 1).drop_last() =~= texts.take(n));
        lemma_parse_layer_prefix_error(texts, n + 1, e);
    } else {
        assert(texts.take(n) =~= texts);
    }
}

/// An error in reading the first `n` layers is the error in reading all.
proof fn lemma_parse_layers_prefix_error(tree: Seq<Seq<Seq<char>>>, n: int, e: FormatError)
    requires
        0 <= n <= tree.len(),
        parse_layers(tree.take(n)) == Err::<Seq<Seq<Seq<u8>>>, FormatError>(e),
    ensures
        parse_layers(tree) == Err::<Seq<Seq<Seq<u8>>>, FormatError>(e),
    decreases tree.len() - n,
{
    if n < tree.len() {
        assert(tree.take(n + 1).drop_last() =~= tree.take(n));
        lemma_parse_layers_prefix_error(tree, n + 1, e);
    } else {
        assert(tree.take(n) =~= tree);
    }
}

impl MerkleTree {
    /// Reads a written tree. Every node has to be the hex form of 16 bytes and the
    /// root that of 32. The shape of the layers is not examined.
    pub fn load(data: MerkleTreeData) -> (res: Result<MerkleTree, FormatError>)
        ensures
            match res {
                Ok(tree) => loaded(data@) == Ok::<MerkleTreeView, FormatError>(tree@),
                Err(e) => loaded(data@) == Err::<MerkleTreeView, FormatError>(e),
            },
    {
        let ghost all = data@.tree;
        let mut layers: Vec<Vec<HalfHash>> = Vec::new();
        let mut k: usize = 0;
        assert(all.take(0) =~= Seq::<Seq<Seq<char>>>::empty());
        assert(layers_view(layers@) =~= Seq::<Seq<Seq<u8>>>::empty());
        while k < data.tree.len()
            invariant
                k <= data.tree.len(),
                all == data@.tree,
                parse_layers(all.take(k as int)) == Ok::<Seq<Seq<Seq<u8>>>, FormatError>(
                    layers_view(layers@),
                ),
            decreases data.tree.len() - k,
        {
            proof {
                assert(all.take(k + 1).drop_last() =~= all.take(k as int));
                assert(all.take(k + 1).last() == texts_view(data.tree@[k as int]@));
            }
            match load_layer(&data.tree[k]) {
                Ok(layer) => {
                    proof {
                        assert(layers_view(layers@.push(layer)) =~= layers_view(layers@).push(
                            layer_view(layer@),
                        ));
                    }
                    layers.push(layer);
                },
                Err(e) => {
                    proof {
                        lemma_parse_layers_prefix_error(all, k + 1, e);
                    }
                    return Err(e);
                },
            }
            k += 1;
        }
        proof {
            assert(all.take(k as int) =~= all);
        }
        match decode_hash(data.root.as_str()) {
            Ok(root) => Ok(MerkleTree::from_parts(layers, root, data.hash_type)),
            Err(e) => Err(e),
        }
    }

    /// Writes the tree out: each node and the stored root in hex form.
    pub fn save(&self) -> (data: MerkleTreeData)
        ensures
            data@ == saved(self@),
    {
        let stored = self.stored_layers();
        let mut tree: Vec<Vec<String>> = Vec::new();
        let mut k: usize = 0;
        while k < stored.len()
            invariant
                k <= stored.len(),
                tree@.len() == k,
                layers_view(stored@) == self@.layers,
                forall|i: int|
                    0 <= i < k ==> texts_view(#[trigger] tree@[i]@) == saved_layer(
                        self@.layers[i],
                    ),
            decreases stored.len() - k,
        {
            let layer = &stored[k];
            let mut texts: Vec<String> = Vec::new();
            let mut j: usize = 0;
            assert(self@.layers[k as int] == layer_view(layer@));
            while j < layer.len()
                invariant
                    j <= layer.len(),
                    texts@.len() == j,
                    forall|i: int| 0 <= i < j ==> (#[trigger] texts@[i])@ == hex_text(layer@[i]@),
                decreases layer.len() - j,
            {
                texts.push(hex(layer[j].as_slice()));
                j += 1;
            }
            assert(texts_view(texts@) =~= saved_layer(self@.layers[k as int]));
            tree.push(texts);
            k += 1;
        }
        let root = hex(self.get_root().as_slice());
        let data = MerkleTreeData { hash_type: self.hash_type(), tree, root };
        assert(data@.tree =~= saved(self@).tree);
        data
    }
}

proof fn lemma_layer_round_trip(layer: Seq<Seq<u8>>)
    requires
        forall|j: int| 0 <= j < layer.len() ==> (#[trigger] layer[j]).len() == 16,
    ensures
        parse_layer(saved_layer(layer)) == Ok::<Seq<Seq<u8>>, FormatError>(layer),
    decreases layer.len(),
{
    let texts = saved_layer(layer);
    if layer.len() == 0 {
        assert(layer =~= Seq::<Seq<u8>>::empty());
    } else {
        assert(texts.drop_last() =~= saved_layer(layer.drop_last()));
        lemma_layer_round_trip(layer.drop_last());
        lemma_hex_round_trip(layer.last());
        assert(texts.last() == hex_text(layer.last()));
        assert(layer.drop_last().push(layer.last()) =~= layer);
    }
}

proof fn lemma_layers_round_trip(layers: Seq<Seq<Seq<u8>>>)
    requires
        forall|k: int, j: int|
            0 <= k < layers.len() && 0 <= j < layers[k].len() ==> (#[trigger] layers[k][j]).len()
                == 16,
    ensures
        parse_layers(Seq::new(layers.len(), |k: int| saved_layer(layers[k]))) == Ok::<
            Seq<Seq<Seq<u8>>>,
            FormatError,
        >(layers),
    decreases layers.len(),
{
    let written = Seq::new(layers.len(), |k: int| saved_layer(layers[k]));
    if layers.len() == 0 {
        assert(layers =~= Seq::<Seq<Seq<u8>>>::empty());
    } else {
        let fewer = layers.drop_last();
        assert(written.drop_last() =~= Seq::new(fewer.len(), |k: int| saved_layer(fewer[k])));
        assert forall|k: int, j: int| 0 <= k < fewer.len() && 0 <= j < fewer[k].len() implies (
        #[trigger] fewer[k][j]).len() == 16 by {
            assert(fewer[k] == layers[k]);
        }
        lemma_layers_round_trip(fewer);
        assert forall|j: int| 0 <= j < layers.last().len() implies (
        #[trigger] layers.last()[j]).len() == 16 by {
            assert(layers.last()[j] == layers[layers.len() - 1][j]);
        }
        lemma_layer_round_trip(layers.last());
        assert(written.last() == saved_layer(layers.last()));
        assert(fewer.push(layers.last()) =~= layers);
    }
}

/// A tree that is written out and read again is the same tree, to the byte: its
/// layers, its root and its algorithm.
pub proof fn lemma_save_load_round_trip(tree: MerkleTreeView)
    requires
        sized(tree),
    ensures
        loaded(saved(tree)) == Ok::<MerkleTreeView, FormatError>(tree),
{
    lemma_layers_round_trip(tree.layers);
    lemma_hex_round_trip(tree.root);
}

} // verus!
