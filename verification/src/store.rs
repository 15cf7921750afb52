//! Storage interfaces and the in-memory reference store.
//!
//! The [`TreeStore`] trait is the persistence contract of the tree: nodes are
//! content-addressed (keyed by their hash), and a single mutable root pointer
//! is the only other state. The tree engine persists every node on a write
//! path before it updates the root, so a failed write leaves the logical tree
//! at its prior committed root.
//!
//! [`DefaultStore`] is the in-memory reference backend: two hash-keyed maps
//! and an optional root; until a root is set it reports the precomputed
//! root of the fully empty tree. It never fails.

use crate::node::hashes_equal;
use crate::node::{
    empty_hash, equiv, BranchNode, ComputedNode, EmptyTree, LeafData, LeafNode, Node, NodeHash,
};
use crate::TreeError;
use vstd::prelude::*;

verus! {

/// The map an association list denotes: later entries shadow earlier ones.
spec fn assoc_map<V>(entries: Seq<(NodeHash, V)>) -> Map<Seq<u8>, V>
    decreases entries.len(),
{
    if entries.len() == 0 {
        Map::empty()
    } else {
        assoc_map(entries.drop_last()).insert(entries.last().0@, entries.last().1)
    }
}

/// Entries at positions at or after `m` that never mention `k` do not affect
/// the association at `k`.
proof fn lemma_assoc_prefix_absent<V>(entries: Seq<(NodeHash, V)>, m: int, k: Seq<u8>)
    requires
        0 <= m <= entries.len(),
        forall|j: int| m <= j < entries.len() ==> #[trigger] entries[j].0@ != k,
    ensures
        assoc_map(entries).dom().contains(k) == assoc_map(entries.take(m)).dom().contains(k),
        assoc_map(entries).dom().contains(k) ==> assoc_map(entries)[k] == assoc_map(
            entries.take(m),
        )[k],
    decreases entries.len() - m,
{
    if m == entries.len() {
        assert(entries.take(m) =~= entries);
    } else {
        lemma_assoc_prefix_absent(entries, m + 1, k);
        assert(entries.take(m + 1).drop_last() =~= entries.take(m));
        assert(entries.take(m + 1).last() == entries[m]);
        assert(assoc_map(entries.take(m + 1)) == assoc_map(entries.take(m)).insert(
            entries[m].0@,
            entries[m].1,
        ));
    }
}

/// Finds the association-list entry that decides the binding of `key`, if
/// one exists.
fn assoc_find<V>(entries: &Vec<(NodeHash, V)>, key: &NodeHash) -> (r: Option<usize>)
    ensures
        match r {
            Some(i) => {
                &&& i < entries@.len()
                &&& entries@[i as int].0@ == key@
                &&& assoc_map(entries@).dom().contains(key@)
                &&& assoc_map(entries@)[key@] == entries@[i as int].1
            },
            None => !assoc_map(entries@).dom().contains(key@),
        },
{
    let mut i: usize = entries.len();
    while i > 0
        invariant
            i <= entries@.len(),
            forall|j: int| i <= j < entries@.len() ==> #[trigger] entries@[j].0@ != key@,
        decreases i,
    {
        i = i - 1;
        if hashes_equal(&entries[i].0, key) {
            proof {
                lemma_assoc_prefix_absent(entries@, i + 1, key@);
                assert(entries@.take(i + 1).drop_last() =~= entries@.take(i as int));
                assert(entries@.take(i + 1).last() == entries@[i as int]);
            }
            return Some(i);
        }
    }
    proof {
        lemma_assoc_prefix_absent(entries@, 0, key@);
        assert(entries@.take(0) =~= Seq::<(NodeHash, V)>::empty());
    }
    None
}

/// Removes every association-list entry stored under `key`.
fn assoc_remove<V>(entries: &mut Vec<(NodeHash, V)>, key: &NodeHash)
    ensures
        assoc_map(final(entries)@) == assoc_map(old(entries)@).remove(key@),
        forall|i: int|
            0 <= i < final(entries)@.len() ==> old(entries)@.contains(
                #[trigger] final(entries)@[i],
            ),
{
    let ghost all = entries@;
    let n0 = entries.len();
    proof {
        assert(all.len() == n0);
        assert(all.take(all.len() as int) =~= all);
    }
    let mut stack: Vec<(NodeHash, V)> = Vec::new();
    while entries.len() > 0
        invariant
            entries@ == all.take(entries@.len() as int),
            stack@.len() == all.len() - entries@.len(),
            forall|j: int|
                0 <= j < stack@.len() ==> #[trigger] stack@[j] == all[all.len() - 1 - j],
        decreases entries@.len(),
    {
        let ghost len0 = entries@.len() as int;
        let e = entries.pop().unwrap();
        proof {
            assert(all.take(len0).drop_last() =~= all.take(len0 - 1));
            assert(e == all[len0 - 1]);
        }
        stack.push(e);
    }
    let mut i: usize = 0;
    while stack.len() > 0
        invariant
            all.len() <= usize::MAX,
            i as int == all.len() - stack@.len(),
            i <= all.len(),
            forall|j: int|
                0 <= j < stack@.len() ==> #[trigger] stack@[j] == all[all.len() - 1 - j],
            assoc_map(entries@) == assoc_map(all.take(i as int)).remove(key@),
            forall|j: int| 0 <= j < entries@.len() ==> all.contains(#[trigger] entries@[j]),
        decreases stack@.len(),
    {
        let e = stack.pop().unwrap();
        proof {
            assert(e == all[i as int]);
            assert(all.take(i + 1).drop_last() =~= all.take(i as int));
            assert(all.take(i + 1).last() == all[i as int]);
            assert(assoc_map(all.take(i + 1)) == assoc_map(all.take(i as int)).insert(
                all[i as int].0@,
                all[i as int].1,
            ));
        }
        let keep = !hashes_equal(&e.0, key);
        if keep {
            let ghost kept0 = entries@;
            entries.push(e);
            proof {
                assert(entries@.drop_last() =~= kept0);
                assert(entries@.last() == all[i as int]);
                assert(assoc_map(entries@) == assoc_map(kept0).insert(
                    all[i as int].0@,
                    all[i as int].1,
                ));
                assert(assoc_map(entries@) =~= assoc_map(all.take(i + 1)).remove(key@));
            }
        } else {
            proof {
                assert(assoc_map(all.take(i + 1)).remove(key@) =~= assoc_map(
                    all.take(i as int),
                ).remove(key@));
            }
        }
        i = i + 1;
    }
    proof {
        assert(all.take(all.len() as int) =~= all);
    }
}

/// The storage backend interface of the tree.
///
/// Nodes are content-addressed: `insert_branch` and `insert_leaf` persist a
/// node under its own hash, and the matching `get` operations retrieve what
/// was last persisted under a hash. The root pointer is the only other
/// state; `update_root` replaces it atomically. Every operation may fail
/// with [`TreeError::StoreIo`]; a store with `never_fails()` never does.
pub trait TreeStore: Sized {
    /// The store's internal consistency invariant.
    spec fn inv(&self) -> bool;

    /// The node the root pointer holds, or `None` when it was never set.
    spec fn root_view(&self) -> Option<Node>;

    /// The branches persisted so far, keyed by their hash bytes.
    spec fn branches(&self) -> Map<Seq<u8>, BranchNode>;

    /// The leaves persisted so far, keyed by their hash bytes.
    spec fn leaves(&self) -> Map<Seq<u8>, LeafNode>;

    /// Whether the store is free of I/O failures.
    spec fn never_fails(&self) -> bool;

    /// Returns the persisted root node, or the root of the fully empty tree
    /// when the root pointer was never set.
    fn root_node(&self) -> (r: Result<Node, TreeError>)
        requires
            self.inv(),
        ensures
            match r {
                Ok(n) => match self.root_view() {
                    Some(m) => equiv(m, n) && n.inv(),
                    None => {
                        &&& n.inv()
                        &&& n.wf_at(0)
                        &&& n.contents() == Map::<Seq<u8>, LeafData>::empty()
                        &&& n.sum_of() == 0
                        &&& n.hash_of() == empty_hash(0)
                    },
                },
                Err(e) => e == TreeError::StoreIo,
            },
            self.never_fails() ==> r is Ok,
    ;

    /// Gets a previously persisted branch node by its hash.
    fn get_branch(&self, key: &NodeHash) -> (r: Result<Option<BranchNode>, TreeError>)
        requires
            self.inv(),
        ensures
            match r {
                Ok(Some(b)) => {
                    &&& self.branches().dom().contains(key@)
                    &&& equiv(Node::Branch(self.branches()[key@]), Node::Branch(b))
                    &&& Node::Branch(b).inv()
                },
                Ok(None) => !self.branches().dom().contains(key@),
                Err(e) => e == TreeError::StoreIo,
            },
            self.never_fails() ==> r is Ok,
    ;

    /// Gets a previously persisted leaf node by its hash.
    fn get_leaf(&self, key: &NodeHash) -> (r: Result<Option<LeafNode>, TreeError>)
        requires
            self.inv(),
        ensures
            match r {
                Ok(Some(l)) => {
                    &&& self.leaves().dom().contains(key@)
                    &&& equiv(Node::Leaf(self.leaves()[key@]), Node::Leaf(l))
                    &&& Node::Leaf(l).inv()
                },
                Ok(None) => !self.leaves().dom().contains(key@),
                Err(e) => e == TreeError::StoreIo,
            },
            self.never_fails() ==> r is Ok,
    ;

    /// Persists a branch node under its hash. Persisting the same hash again
    /// replaces the stored node.
    fn insert_branch(&mut self, branch: BranchNode) -> (r: Result<(), TreeError>)
        requires
            old(self).inv(),
            Node::Branch(branch).inv(),
        ensures
            final(self).inv(),
            final(self).root_view() == old(self).root_view(),
            final(self).leaves() == old(self).leaves(),
            final(self).never_fails() == old(self).never_fails(),
            match r {
                Ok(()) => final(self).branches() == old(self).branches().insert(
                    branch.node_hash@,
                    branch,
                ),
                Err(e) => e == TreeError::StoreIo && final(self).branches() == old(
                    self,
                ).branches(),
            },
            old(self).never_fails() ==> r is Ok,
    ;

    /// Persists a leaf node under its hash. Persisting the same hash again
    /// replaces the stored node.
    fn insert_leaf(&mut self, leaf: LeafNode) -> (r: Result<(), TreeError>)
        requires
            old(self).inv(),
            Node::Leaf(leaf).inv(),
        ensures
            final(self).inv(),
            final(self).root_view() == old(self).root_view(),
            final(self).branches() == old(self).branches(),
            final(self).never_fails() == old(self).never_fails(),
            match r {
                Ok(()) => final(self).leaves() == old(self).leaves().insert(
                    leaf.node_hash@,
                    leaf,
                ),
                Err(e) => e == TreeError::StoreIo && final(self).leaves() == old(self).leaves(),
            },
            old(self).never_fails() ==> r is Ok,
    ;

    /// Deletes a branch node by hash. Deleting an absent hash succeeds.
    fn delete_branch(&mut self, key: &NodeHash) -> (r: Result<(), TreeError>)
        requires
            old(self).inv(),
        ensures
            final(self).inv(),
            final(self).root_view() == old(self).root_view(),
            final(self).leaves() == old(self).leaves(),
            final(self).never_fails() == old(self).never_fails(),
            match r {
                Ok(()) => final(self).branches() == old(self).branches().remove(key@),
                Err(e) => e == TreeError::StoreIo && final(self).branches() == old(
                    self,
                ).branches(),
            },
            old(self).never_fails() ==> r is Ok,
    ;

    /// Deletes a leaf node by hash. Deleting an absent hash succeeds.
    fn delete_leaf(&mut self, key: &NodeHash) -> (r: Result<(), TreeError>)
        requires
            old(self).inv(),
        ensures
            final(self).inv(),
            final(self).root_view() == old(self).root_view(),
            final(self).branches() == old(self).branches(),
            final(self).never_fails() == old(self).never_fails(),
            match r {
                Ok(()) => final(self).leaves() == old(self).leaves().remove(key@),
                Err(e) => e == TreeError::StoreIo && final(self).leaves() == old(self).leaves(),
            },
            old(self).never_fails() ==> r is Ok,
    ;

    /// Atomically replaces the root pointer.
    fn update_root(&mut self, root: Node) -> (r: Result<(), TreeError>)
        requires
            old(self).inv(),
            root.inv(),
        ensures
            final(self).inv(),
            final(self).branches() == old(self).branches(),
            final(self).leaves() == old(self).leaves(),
            final(self).never_fails() == old(self).never_fails(),
            match r {
                Ok(()) => final(self).root_view() == Some(root),
                Err(e) => e == TreeError::StoreIo && final(self).root_view() == old(
                    self,
                ).root_view(),
            },
            old(self).never_fails() ==> r is Ok,
    ;
}

/// An in-memory implementation of [`TreeStore`]: two hash-keyed maps and an
/// optional root node, with the empty-tree root precomputed for the time
/// before any root is set. Suitable for tests and small data sets; it never
/// fails.
pub struct DefaultStore {
    branches: Vec<(NodeHash, BranchNode)>,
    leaves: Vec<(NodeHash, LeafNode)>,
    root: Option<Node>,
    empty_root: NodeHash,
}

impl DefaultStore {
    /// Creates a new, empty in-memory store. The root it reports before any
    /// `update_root` is the precomputed root of the fully empty tree.
    pub fn new() -> (r: Self)
        ensures
            r.inv(),
            r.root_view() is None,
            r.branches() == Map::<Seq<u8>, BranchNode>::empty(),
            r.leaves() == Map::<Seq<u8>, LeafNode>::empty(),
            r.never_fails(),
    {
        let table = EmptyTree::new();
        DefaultStore {
            branches: Vec::new(),
            leaves: Vec::new(),
            root: None,
            empty_root: table.hash_at(0),
        }
    }
}

impl TreeStore for DefaultStore {
    closed spec fn inv(&self) -> bool {
        &&& forall|i: int|
            0 <= i < self.branches@.len() ==> Node::Branch(
                #[trigger] self.branches@[i].1,
            ).inv()
        &&& forall|i: int|
            0 <= i < self.leaves@.len() ==> Node::Leaf(#[trigger] self.leaves@[i].1).inv()
        &&& match self.root {
            Some(n) => n.inv(),
            None => true,
        }
        &&& self.empty_root@ == empty_hash(0)
    }

    closed spec fn root_view(&self) -> Option<Node> {
        self.root
    }

    closed spec fn branches(&self) -> Map<Seq<u8>, BranchNode> {
        assoc_map(self.branches@)
    }

    closed spec fn leaves(&self) -> Map<Seq<u8>, LeafNode> {
        assoc_map(self.leaves@)
    }

    closed spec fn never_fails(&self) -> bool {
        true
    }

    fn root_node(&self) -> (r: Result<Node, TreeError>) {
        match &self.root {
            None => Ok(Node::Computed(ComputedNode::new(self.empty_root, 0))),
            Some(n) => Ok(n.copy()),
        }
    }

    fn get_branch(&self, key: &NodeHash) -> (r: Result<Option<BranchNode>, TreeError>) {
        match assoc_find(&self.branches, key) {
            Some(i) => Ok(Some(self.branches[i].1.copy())),
            None => Ok(None),
        }
    }

    fn get_leaf(&self, key: &NodeHash) -> (r: Result<Option<LeafNode>, TreeError>) {
        match assoc_find(&self.leaves, key) {
            Some(i) => Ok(Some(self.leaves[i].1.copy())),
            None => Ok(None),
        }
    }

    fn insert_branch(&mut self, branch: BranchNode) -> (r: Result<(), TreeError>) {
        let ghost entries0 = self.branches@;
        let key = branch.node_hash;
        self.branches.push((key, branch));
        proof {
            assert(self.branches@.drop_last() =~= entries0);
        }
        Ok(())
    }

    fn insert_leaf(&mut self, leaf: LeafNode) -> (r: Result<(), TreeError>) {
        let ghost entries0 = self.leaves@;
        let key = leaf.node_hash;
        self.leaves.push((key, leaf));
        proof {
            assert(self.leaves@.drop_last() =~= entries0);
        }
        Ok(())
    }

    fn delete_branch(&mut self, key: &NodeHash) -> (r: Result<(), TreeError>) {
        let ghost entries0 = self.branches@;
        assoc_remove(&mut self.branches, key);
        proof {
            assert forall|i: int| 0 <= i < self.branches@.len() implies Node::Branch(
                #[trigger] self.branches@[i].1,
            ).inv() by {
                let e = self.branches@[i];
                assert(entries0.contains(e));
                let j = choose|j: int| 0 <= j < entries0.len() && entries0[j] == e;
                assert(Node::Branch(entries0[j].1).inv());
            }
        }
        Ok(())
    }

    fn delete_leaf(&mut self, key: &NodeHash) -> (r: Result<(), TreeError>) {
        let ghost entries0 = self.leaves@;
        assoc_remove(&mut self.leaves, key);
        proof {
            assert forall|i: int| 0 <= i < self.leaves@.len() implies Node::Leaf(
                #[trigger] self.leaves@[i].1,
            ).inv() by {
                let e = self.leaves@[i];
                assert(entries0.contains(e));
                let j = choose|j: int| 0 <= j < entries0.len() && entries0[j] == e;
                assert(Node::Leaf(entries0[j].1).inv());
            }
        }
        Ok(())
    }

    fn update_root(&mut self, root: Node) -> (r: Result<(), TreeError>) {
        self.root = Some(root);
        Ok(())
    }
}

} // verus!
