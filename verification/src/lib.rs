//! A Merkle-Sum Sparse Merkle Tree (MS-SMT).
//!
//! An MS-SMT is an authenticated key-to-(value, sum) map over the full
//! 256-bit key space. Every branch commits both to a SHA-256 hash and to the
//! running sum of all leaf sums below it, so a single root authenticates the
//! value stored at each key as well as the total of all sums in the tree.
//!
//! The crate provides the node model ([`node`]), the precomputed empty-subtree
//! table, the storage interface and an in-memory reference store ([`store`]),
//! the tree engine ([`tree`]), and Merkle proof generation and verification
//! ([`merkle_proof`]). The lemmas in [`lemmas`] establish the global laws of the
//! structure: the root hash and root sum are determined by the key-value-sum
//! map a tree represents, so inserts are idempotent and commute.

use vstd::prelude::*;

pub mod compacted_tree;
pub mod hash_utils;
pub mod lemmas;
pub mod merkle_proof;
pub mod node;
pub mod store;
pub mod tree;

pub use crate::compacted_tree::CompactedTree;
pub use crate::merkle_proof::Proof;
pub use crate::node::{BranchNode, ComputedNode, EmptyTree, LeafNode, Node, NodeHash};
pub use crate::store::{DefaultStore, TreeStore};
pub use crate::tree::FullTree;

verus! {

/// Errors surfaced by tree and store operations.
#[derive(Clone, Copy, Debug, PartialEq, Eq, Structural)]
pub enum TreeError {
    /// The storage backend failed while reading or writing a node.
    StoreIo,
    /// A branch sum would exceed `u64::MAX`; the mutation was aborted
    /// before the root was updated.
    SumOverflow,
}

} // verus!
