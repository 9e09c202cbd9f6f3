use proof_tool::{
    build_tree, hex, FormatError, HashType, MerkleTree, MerkleTreeBuilder, MerkleTreeData,
};

fn node(seed: u8) -> String {
    hex(&[seed; 16])
}

fn written(tree: Vec<Vec<String>>, root: String) -> MerkleTreeData {
    MerkleTreeData { hash_type: HashType::Sha256, tree, root }
}

fn good_root() -> String {
    hex(&[9u8; 32])
}

fn error_of(data: MerkleTreeData) -> FormatError {
    match MerkleTree::load(data) {
        Ok(_) => panic!("the tree was read"),
        Err(e) => e,
    }
}

#[test]
fn save_writes_every_node_in_hex() {
    let data: Vec<u8> = (0..3000usize).map(|i| (i % 251) as u8).collect();
    let tree = build_tree(HashType::Keccak256, &data);
    let saved = tree.save();
    assert!(saved.hash_type == HashType::Keccak256);
    assert_eq!(saved.root, hex(tree.get_root()));
    assert_eq!(saved.root.len(), 66);
    assert_eq!(saved.tree.len(), 3);
    for layer in &saved.tree {
        for text in layer {
            assert_eq!(text.len(), 34);
            assert!(text.starts_with("0x"));
            assert_eq!(text.to_lowercase(), *text);
        }
    }
    let path = tree.get_path(0);
    assert_eq!(saved.tree[0][1], hex(&path[0].unwrap()));
    assert_eq!(saved.tree[1][1], hex(&path[1].unwrap()));
}

#[test]
fn load_reads_what_save_writes() {
    for hash_type in [HashType::Sha256, HashType::Keccak256] {
        for leaves in [0usize, 1, 2, 3, 8, 13] {
            let mut builder = MerkleTreeBuilder::new(hash_type);
            for i in 0..leaves {
                builder.add_leaf(&[i as u8; 5]);
            }
            let tree = builder.calc_tree(leaves * 5);
            let first = tree.save();
            let again = MerkleTree::load(tree.save()).unwrap();
            let second = again.save();
            assert!(second.hash_type == hash_type);
            assert_eq!(second.tree, first.tree);
            assert_eq!(second.root, first.root);
            assert_eq!(again.get_root(), tree.get_root());
            assert_eq!(again.leaf_size(), leaves);
            assert!(again.is_well_shaped());
            for i in 0..leaves {
                assert_eq!(again.get_path(i as u64), tree.get_path(i as u64));
            }
        }
    }
}

#[test]
fn load_reads_given_texts() {
    let data = written(
        vec![
            vec![node(1), "0x000102030405060708090a0B0C0D0E0F".to_string()],
            vec![node(3)],
        ],
        "0x0000000000000005ffffffffffffffff00112233445566778899aabbccddeeff".to_string(),
    );
    let tree = MerkleTree::load(data).unwrap();
    assert_eq!(tree.leaf_size(), 2);
    assert_eq!(
        tree.get_path(0),
        vec![Some([0, 1, 2, 3, 4, 5, 6, 7, 8, 9, 10, 11, 12, 13, 14, 15])]
    );
    assert_eq!(tree.get_path(1), vec![Some([1u8; 16])]);
    assert_eq!(
        tree.get_root(),
        &[
            0, 0, 0, 0, 0, 0, 0, 5, 0xff, 0xff, 0xff, 0xff, 0xff, 0xff, 0xff, 0xff, 0x00, 0x11,
            0x22, 0x33, 0x44, 0x55, 0x66, 0x77, 0x88, 0x99, 0xaa, 0xbb, 0xcc, 0xdd, 0xee, 0xff
        ]
    );
    assert_eq!(tree.hash_type(), HashType::Sha256);
}

#[test]
fn load_does_not_examine_the_shape() {
    let data = written(
        vec![vec![node(1)], vec![node(2), node(3), node(4)], vec![]],
        good_root(),
    );
    let tree = MerkleTree::load(data).unwrap();
    assert!(!tree.is_well_shaped());
    assert_eq!(tree.leaf_size(), 1);
    assert_eq!(tree.save().tree[1], vec![node(2), node(3), node(4)]);
    let data = written(vec![], good_root());
    assert!(MerkleTree::load(data).unwrap().save().tree.is_empty());
}

#[test]
fn load_fails_on_a_node_that_is_no_hex() {
    let data = written(vec![vec![node(1), "0xzz".to_string()]], good_root());
    assert_eq!(error_of(data), FormatError::InvalidDigit);
    let data = written(vec![vec![hex(&[1u8; 16])[2..].to_string()]], good_root());
    assert_eq!(error_of(data), FormatError::MissingPrefix);
    let data = written(vec![vec![format!("{}a", node(1))]], good_root());
    assert_eq!(error_of(data), FormatError::OddLength);
    let data = written(vec![vec![hex(&[1u8; 15])]], good_root());
    assert_eq!(error_of(data), FormatError::WrongLength);
    let data = written(vec![vec![hex(&[1u8; 32])]], good_root());
    assert_eq!(error_of(data), FormatError::WrongLength);
}

#[test]
fn load_fails_on_a_root_that_is_no_hex() {
    let layers = vec![vec![node(1), node(2)], vec![node(3)]];
    let data = written(layers.clone(), "".to_string());
    assert_eq!(error_of(data), FormatError::MissingPrefix);
    let data = written(layers.clone(), "0x1".to_string());
    assert_eq!(error_of(data), FormatError::OddLength);
    let data = written(layers.clone(), format!("0x{}", "g".repeat(64)));
    assert_eq!(error_of(data), FormatError::InvalidDigit);
    let data = written(layers.clone(), node(7));
    assert_eq!(error_of(data), FormatError::WrongLength);
    let data = written(layers, hex(&[1u8; 33]));
    assert_eq!(error_of(data), FormatError::WrongLength);
}

#[test]
fn load_reports_the_first_text_that_cannot_be_read() {
    let data = written(
        vec![
            vec![node(1), "0x1".to_string(), "zz".to_string()],
            vec!["0xzz".to_string()],
        ],
        "".to_string(),
    );
    assert_eq!(error_of(data), FormatError::OddLength);
    let data = written(
        vec![vec![node(1), node(2)], vec!["0xzz".to_string(), "0x1".to_string()]],
        "".to_string(),
    );
    assert_eq!(error_of(data), FormatError::InvalidDigit);
    let data = written(
        vec![vec![node(1), node(2)], vec![node(3), hex(&[0u8; 2])]],
        "0xzz".to_string(),
    );
    assert_eq!(error_of(data), FormatError::WrongLength);
    let data = written(vec![vec![node(1), node(2)], vec![node(3)]], "0xzz".to_string());
    assert_eq!(error_of(data), FormatError::InvalidDigit);
}

#[test]
fn load_keeps_the_algorithm() {
    let mut data = written(vec![vec![node(1)]], good_root());
    data.hash_type = HashType::Keccak256;
    let tree = MerkleTree::load(data).unwrap();
    assert_eq!(tree.hash_type(), HashType::Keccak256);
    assert!(tree.save().hash_type == HashType::Keccak256);
}
