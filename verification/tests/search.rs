use proof_tool::chunks::{count_leaves, read_leaf, with_nonce, LEAF_SIZE};
use proof_tool::search::{candidate_root, find_min_root, find_proof, select_min, MinRoot};
use proof_tool::{build_tree, compare_bytes, encode_root, HashType, MerkleTree, MerkleTreeBuilder};

fn file(len: usize, seed: u8) -> Vec<u8> {
    (0..len)
        .map(|i| ((i * 11 + i / 1024 * 5) as u8).wrapping_add(seed))
        .collect()
}

fn leaf_of(data: &[u8], index: usize) -> Vec<u8> {
    let mut leaf = vec![0u8; 1024];
    for j in 0..1024 {
        if let Some(byte) = data.get(1024 * index + j) {
            leaf[j] = *byte;
        }
    }
    leaf
}

fn all_candidates(tree: &MerkleTree, data: &[u8], nonce: &[u8]) -> Vec<[u8; 32]> {
    (0..tree.leaf_size())
        .map(|i| {
            let mut leaf = leaf_of(data, i);
            leaf.extend_from_slice(nonce);
            tree.proof_by_path(tree.get_path(i as u64), i as u64, &leaf)
        })
        .collect()
}

fn first_least(roots: &[[u8; 32]]) -> usize {
    let mut best = 0;
    for i in 1..roots.len() {
        if roots[i] < roots[best] {
            best = i;
        }
    }
    best
}

#[test]
fn compare_bytes_is_the_difference_of_the_first_bytes_that_differ() {
    assert_eq!(compare_bytes(&[1, 2, 3], &[1, 5, 0]), -3);
    assert_eq!(compare_bytes(&[1, 5, 0], &[1, 2, 3]), 3);
    assert_eq!(compare_bytes(&[0], &[255]), -255);
    assert_eq!(compare_bytes(&[255], &[0]), 255);
    assert_eq!(compare_bytes(&[7, 7, 200], &[7, 7, 100, 1, 1]), 100);
    assert_eq!(compare_bytes(&[0x7f, 0], &[0x80, 0]), -1);
}

#[test]
fn compare_bytes_of_equal_strings_is_zero() {
    assert_eq!(compare_bytes(&[], &[]), 0);
    assert_eq!(compare_bytes(&[4, 5, 6], &[4, 5, 6]), 0);
    assert_eq!(compare_bytes(&[9u8; 32], &[9u8; 32]), 0);
}

#[test]
fn compare_bytes_falls_back_to_the_lengths() {
    assert_eq!(compare_bytes(&[1, 2, 3, 4], &[1, 2]), 2);
    assert_eq!(compare_bytes(&[1, 2], &[1, 2, 3, 4, 5]), -3);
    assert_eq!(compare_bytes(&[], &[0]), -1);
    assert_eq!(compare_bytes(&[0], &[]), 1);
}

#[test]
fn compare_bytes_orders_as_slices_do() {
    let strings: Vec<Vec<u8>> = vec![
        vec![],
        vec![0],
        vec![0, 0],
        vec![0, 1],
        vec![1],
        vec![1, 0, 255],
        vec![1, 1],
        vec![128],
        vec![255, 255],
    ];
    for a in &strings {
        for b in &strings {
            let order = compare_bytes(a, b);
            assert_eq!(order < 0, a < b);
            assert_eq!(order == 0, a == b);
            assert_eq!(order > 0, a > b);
        }
    }
}

#[test]
fn count_leaves_rounds_up() {
    assert_eq!(LEAF_SIZE, 1024);
    assert_eq!(count_leaves(0), 0);
    assert_eq!(count_leaves(1), 1);
    assert_eq!(count_leaves(1023), 1);
    assert_eq!(count_leaves(1024), 1);
    assert_eq!(count_leaves(1025), 2);
    assert_eq!(count_leaves(2500), 3);
    assert_eq!(count_leaves(1 << 40), 1 << 30);
    assert_eq!(count_leaves(u64::MAX), 1 << 54);
}

#[test]
fn read_leaf_pads_with_zeros() {
    let data = file(2500, 3);
    assert_eq!(read_leaf(&data, 0), data[..1024].to_vec());
    assert_eq!(read_leaf(&data, 1), data[1024..2048].to_vec());
    let last = read_leaf(&data, 2);
    assert_eq!(last.len(), 1024);
    assert_eq!(&last[..452], &data[2048..]);
    assert_eq!(&last[452..], &[0u8; 572][..]);
    assert_eq!(read_leaf(&data, 3), vec![0u8; 1024]);
    assert_eq!(read_leaf(&data, usize::MAX), vec![0u8; 1024]);
    assert_eq!(read_leaf(&[], 0), vec![0u8; 1024]);
    assert_eq!(read_leaf(&data[..2048], 2), vec![0u8; 1024]);
    for i in 0..4 {
        assert_eq!(read_leaf(&data, i), leaf_of(&data, i));
    }
}

#[test]
fn with_nonce_puts_the_nonce_last() {
    assert_eq!(with_nonce(&[1, 2, 3], &[9, 8]), vec![1, 2, 3, 9, 8]);
    assert_eq!(with_nonce(&[1, 2, 3], &[]), vec![1, 2, 3]);
    assert_eq!(with_nonce(&[], &[4]), vec![4]);
    assert_eq!(with_nonce(&[], &[]), Vec::<u8>::new());
}

#[test]
fn select_min_keeps_the_first_of_equal_roots() {
    let root = [5u8; 32];
    let first = select_min(None, 3, root);
    assert_eq!((first.index, first.root), (3, root));
    let second = select_min(Some(first), 4, root);
    assert_eq!((second.index, second.root), (3, root));
}

#[test]
fn select_min_takes_a_root_that_comes_before() {
    let mut small = [5u8; 32];
    small[31] = 4;
    let mut large = [5u8; 32];
    large[0] = 6;
    let best = MinRoot { index: 10, root: [5u8; 32] };
    let next = select_min(Some(best), 11, small);
    assert_eq!((next.index, next.root), (11, small));
    let next = select_min(Some(best), 11, large);
    assert_eq!((next.index, next.root), (10, [5u8; 32]));
    let mut signed = [5u8; 32];
    signed[0] = 0x80;
    let next = select_min(Some(best), 2, signed);
    assert_eq!(next.index, 10);
    let next = select_min(Some(MinRoot { index: 1, root: signed }), 2, [5u8; 32]);
    assert_eq!(next.index, 2);
}

#[test]
fn candidate_root_recomputes_with_the_nonce() {
    let data = file(4000, 6);
    let nonce = [0xde, 0xad, 0xbe, 0xef];
    for hash_type in [HashType::Sha256, HashType::Keccak256] {
        let tree = build_tree(hash_type, &data);
        let expected = all_candidates(&tree, &data, &nonce);
        for i in 0..4 {
            let leaf = leaf_of(&data, i);
            assert_eq!(candidate_root(&tree, i as u64, &leaf, &nonce), expected[i]);
        }
        let first = tree.get_path(0);
        let leaf = leaf_of(&data, 0);
        assert_ne!(
            candidate_root(&tree, 0, &leaf, &nonce),
            tree.proof_by_path(first, 0, &leaf)
        );
    }
}

#[test]
fn search_finds_the_least_root() {
    for hash_type in [HashType::Sha256, HashType::Keccak256] {
        for len in [1usize, 1024, 2500, 9 * 1024, 20 * 1024 + 7] {
            let data = file(len, len as u8);
            let tree = build_tree(hash_type, &data);
            for nonce in [vec![1u8], vec![2, 3, 4], vec![0xff; 32], vec![0; 40]] {
                let roots = all_candidates(&tree, &data, &nonce);
                let expected = first_least(&roots);
                let best = find_min_root(&tree, &data, &nonce).unwrap();
                assert_eq!(best.index, expected as u64);
                assert_eq!(best.root, roots[expected]);
                for root in &roots {
                    assert!(best.root <= *root);
                }
            }
        }
    }
}

#[test]
fn search_is_the_same_on_every_run() {
    let data = file(12 * 1024 + 100, 8);
    let tree = build_tree(HashType::Keccak256, &data);
    let nonce = [7u8; 32];
    let first = find_min_root(&tree, &data, &nonce).unwrap();
    for _ in 0..3 {
        let again = find_min_root(&tree, &data, &nonce).unwrap();
        assert_eq!((again.index, again.root), (first.index, first.root));
    }
    let rebuilt = build_tree(HashType::Keccak256, &data);
    let again = find_min_root(&rebuilt, &data, &nonce).unwrap();
    assert_eq!((again.index, again.root), (first.index, first.root));
}

#[test]
fn search_in_batches_is_the_search_at_once() {
    let data = file(13 * 1024, 1);
    let tree = build_tree(HashType::Sha256, &data);
    let nonce = [0x42u8; 8];
    let at_once = find_min_root(&tree, &data, &nonce).unwrap();
    for width in [1usize, 2, 4, 5, 64] {
        let mut best: Option<MinRoot> = None;
        let mut next = 0;
        while next < tree.leaf_size() {
            let end = (next + width).min(tree.leaf_size());
            let mut batch: Vec<(u64, [u8; 32])> = (next..end)
                .rev()
                .map(|i| (i as u64, candidate_root(&tree, i as u64, &read_leaf(&data, i), &nonce)))
                .collect();
            batch.sort_by_key(|entry| entry.0);
            for (index, root) in batch {
                best = Some(select_min(best, index, root));
            }
            next = end;
        }
        let best = best.unwrap();
        assert_eq!((best.index, best.root), (at_once.index, at_once.root));
    }
}

#[test]
fn search_with_an_empty_nonce_takes_the_first_leaf() {
    for hash_type in [HashType::Sha256, HashType::Keccak256] {
        let data = file(7 * 1024 + 1, 5);
        let mut builder = MerkleTreeBuilder::new(hash_type);
        for i in 0..8 {
            builder.add_leaf(&leaf_of(&data, i));
        }
        let raw = builder.calc_raw_tree();
        let tree = build_tree(hash_type, &data);
        let roots = all_candidates(&tree, &data, &[]);
        assert_eq!(roots.len(), 8);
        for root in &roots {
            assert_eq!(root, raw.get_root());
        }
        let best = find_min_root(&tree, &data, &[]).unwrap();
        assert_eq!(best.index, 0);
        assert_eq!(&best.root, raw.get_root());
        assert_eq!(
            tree.get_root(),
            &encode_root(&best.root, data.len() as u64, &hash_type)
        );
    }
}

#[test]
fn search_of_a_tree_without_leaves_finds_nothing() {
    let tree = build_tree(HashType::Sha256, &[]);
    assert!(find_min_root(&tree, &[], &[1, 2, 3]).is_none());
    assert!(find_proof(&tree, &[], &[1, 2, 3], None).is_none());
}

#[test]
fn search_reads_the_leaves_padded() {
    let data = file(2500, 7);
    let tree = build_tree(HashType::Sha256, &data);
    let nonce = [1u8, 2];
    let mut last = data[2048..].to_vec();
    last.resize(1024, 0);
    last.extend_from_slice(&nonce);
    let expected = tree.proof_by_path(tree.get_path(2), 2, &last);
    let found = find_proof(&tree, &data, &nonce, Some(2)).unwrap();
    assert_eq!(found.root, expected);
}

#[test]
fn proof_of_a_given_leaf_searches_nothing() {
    let data = file(6 * 1024, 2);
    let tree = build_tree(HashType::Keccak256, &data);
    let nonce = [0xabu8; 16];
    let roots = all_candidates(&tree, &data, &nonce);
    for i in 0..6u64 {
        let found = find_proof(&tree, &data, &nonce, Some(i)).unwrap();
        assert_eq!(found.index, i);
        assert_eq!(found.root, roots[i as usize]);
        assert_eq!(found.path, tree.get_path(i));
    }
}

#[test]
fn proof_without_a_leaf_is_the_search() {
    let data = file(10 * 1024 + 3, 4);
    let tree = build_tree(HashType::Sha256, &data);
    for nonce in [vec![], vec![5u8], vec![6u8; 20]] {
        let best = find_min_root(&tree, &data, &nonce).unwrap();
        let found = find_proof(&tree, &data, &nonce, None).unwrap();
        assert_eq!(found.index, best.index);
        assert_eq!(found.root, best.root);
        assert_eq!(found.path, tree.get_path(best.index));
        let roots = all_candidates(&tree, &data, &nonce);
        assert_eq!(found.index as usize, first_least(&roots));
    }
}
