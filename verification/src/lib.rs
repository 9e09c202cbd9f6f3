//! A Merkle commitment over the 1024-byte leaves of a file.
//!
//! The tree stores halved digests: each node is the lower 16 bytes of a SHA-256 or
//! Keccak-256 digest. Its root has the file size and the algorithm packed into its
//! first eight bytes. From the tree come the authentication path of a leaf, the root
//! recomputed from a leaf and its path, and, for a nonce, the leaf whose recomputed
//! root comes first in the order of byte strings.
//!
//! - [`hashing`]: the two algorithms, digests and their halves.
//! - [`layers`]: what a tree, a path and a recomputed root are.
//! - [`builder`]: building a tree from leaves or from a file.
//! - [`tree`]: the built tree, paths, recomputing and verifying.
//! - [`root`]: the stored form of a root.
//! - [`search`]: the search for the leaf with the least root.
//! - [`chunks`]: cutting a file into leaves.
//! - [`lexical`]: the order of byte strings.
//! - [`hexfmt`] and [`persist`]: the written form of hashes and of a tree.
//! - [`laws`]: what holds of trees, paths and roots together.

pub mod builder;
pub mod chunks;
pub mod hashing;
pub mod hexfmt;
pub mod laws;
pub mod layers;
pub mod lexical;
pub mod persist;
pub mod root;
pub mod search;
pub mod tree;

pub use builder::{build_tree, MerkleTreeBuilder};
pub use hashing::{calc_hash, half_hash, HalfHash, HashType};
pub use hexfmt::{hex, FormatError};
pub use lexical::compare_bytes;
pub use persist::MerkleTreeData;
pub use root::encode_root;
pub use tree::MerkleTree;
