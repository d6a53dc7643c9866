//! An authenticated key-value trie: every internal node carries a polynomial
//! commitment to the fingerprints of its children, so that one root commitment
//! authenticates every stored value.

pub mod hashing;
pub mod scheme;
pub mod trie;
pub mod commit;
pub mod path_proof;
pub mod tree;
pub mod laws;

pub use hashing::hash;
pub use path_proof::{PathProof, VerkleNodeProof};
pub use scheme::{setup, CommitError, SchemeKeys};
pub use tree::{VerkleTree, BRANCHING_FACTOR};
pub use trie::{Entry, LeafNode, Node};
