//! A binary Merkle hash tree over an ordered sequence of hashable values.
//!
//! The tree commits to the sequence with a single root digest; for any stored
//! value an inclusion proof can be generated and later checked against the
//! root digest alone, without access to the rest of the tree.

mod hashable;
mod hashing;
mod inclusion;
mod merkletree;
mod treeelement;

pub use hashable::Hashable;
pub use hashing::{hash_leaf_data, hash_node_data};
pub use inclusion::Proof;
pub use merkletree::{EmptyInputError, MerkleTree};
pub use treeelement::TreeElement;
