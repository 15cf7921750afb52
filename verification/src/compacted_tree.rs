//! A compacted Merkle-Sum Sparse Merkle Tree.
//!
//! A compacted tree collapses the long empty-sided branch runs of a sparse
//! insert into fewer stored nodes while committing to exactly the same root
//! hash and sum. This type carries a store and exposes the committed root;
//! the walking operations live on [`crate::tree::FullTree`], whose node
//! layout materializes every level of a written path.

use crate::node::{LeafData, Node};
use crate::store::TreeStore;
use crate::TreeError;
use vstd::prelude::*;

verus! {

/// A compacted tree over a node store.
pub struct CompactedTree<S: TreeStore> {
    store: S,
}

impl<S: TreeStore> CompactedTree<S> {
    /// The entries of the tree: its committed key-value-sum map.
    pub closed spec fn as_map(self) -> Map<Seq<u8>, LeafData> {
        match self.store.root_view() {
            None => Map::empty(),
            Some(n) => n.contents(),
        }
    }

    /// The tree is well formed: its store is consistent and the persisted
    /// root (when present) is a cached, well-formed node standing at depth 0.
    pub closed spec fn wf(self) -> bool {
        &&& self.store.inv()
        &&& match self.store.root_view() {
            Some(n) => n.inv() && n.wf_at(0),
            None => true,
        }
    }

    /// Whether the tree's store is free of I/O failures.
    pub closed spec fn never_fails(self) -> bool {
        self.store.never_fails()
    }

    /// Creates a new compacted tree over the given store. A store holding a
    /// prior root must hold a well-formed one.
    pub fn new(store: S) -> (r: Self)
        requires
            store.inv(),
            match store.root_view() {
                Some(n) => n.inv() && n.wf_at(0),
                None => true,
            },
        ensures
            r.wf(),
            r.never_fails() == store.never_fails(),
            r.as_map() == match store.root_view() {
                Some(n) => n.contents(),
                None => Map::<Seq<u8>, LeafData>::empty(),
            },
    {
        CompactedTree { store }
    }

    /// Returns the root node of the tree: the persisted root, or the empty
    /// root when nothing was ever written.
    pub fn root(&self) -> (r: Result<Node, TreeError>)
        requires
            self.wf(),
        ensures
            match r {
                Ok(n) => {
                    &&& n.inv()
                    &&& n.wf_at(0)
                    &&& n.contents() == self.as_map()
                },
                Err(e) => e == TreeError::StoreIo && !self.never_fails(),
            },
            self.never_fails() ==> r is Ok,
    {
        match self.store.root_node() {
            Ok(n) => Ok(n),
            Err(e) => Err(e),
        }
    }
}

} // verus!
