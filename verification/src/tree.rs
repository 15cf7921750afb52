//! The Merkle-Sum Sparse Merkle Tree engine.
//!
//! [`FullTree`] walks the path spelled by a key's bits, one bit per level,
//! over the full 256-level sparse domain. Mutations rebuild the nodes along
//! one path bottom-up, persist them, and finally swap the store's root
//! pointer, so a failed write never changes the committed tree. Subtrees
//! with no entries are held as computed stand-ins from the precomputed
//! empty-subtree table, and a deletion collapses any branch whose two
//! children become empty back into such a stand-in.

use crate::merkle_proof::{
    leaf_hash_at, lemma_reconstruct_empty_chain, lemma_reconstruct_prepend, reconstruct,
    reconstruct_upto, sibling_views, Proof,
};
use crate::node::{
    bit_index, empty_hash, empty_leaf_hash, key_bit, keys_agree_below, keys_equal, leaf_hash,
    lemma_key_bits_determine, lemma_sum_of_bounded, lemma_sum_of_nonneg, zero_key, BranchNode,
    ComputedNode, EmptyTree, LeafData, LeafNode, Node,
};
use crate::store::TreeStore;
use crate::TreeError;
use vstd::prelude::*;

verus! {

/// Whether the triple is the canonical empty entry: the all-zero key with an
/// empty value and a zero sum. Writing it clears a slot instead of filling
/// one, because its leaf is the empty leaf itself.
pub open spec fn is_empty_entry(key: Seq<u8>, value: Seq<u8>, sum: u64) -> bool {
    key == zero_key() && value == Seq::<u8>::empty() && sum == 0
}

/// The entries of a tree after writing `(key, value, sum)`: the canonical
/// empty entry clears the slot, anything else fills it.
pub open spec fn map_after_write(
    m: Map<Seq<u8>, LeafData>,
    key: Seq<u8>,
    value: Seq<u8>,
    sum: u64,
) -> Map<Seq<u8>, LeafData> {
    if is_empty_entry(key, value, sum) {
        m.remove(key)
    } else {
        m.insert(key, LeafData { value, sum })
    }
}

/// The entries of a subtree after writing `leaf` at the path of `key`:
/// writing the canonical empty leaf clears the slot at `key`.
pub open spec fn map_after_leaf_write(
    m: Map<Seq<u8>, LeafData>,
    key: Seq<u8>,
    leaf: LeafNode,
) -> Map<Seq<u8>, LeafData> {
    if is_empty_entry(leaf.key@, leaf.value@, leaf.sum) {
        m.remove(key)
    } else {
        m.insert(key, LeafData { value: leaf.value@, sum: leaf.sum })
    }
}

/// The sum stored at `key`, zero when the key is absent.
pub open spec fn entry_sum(m: Map<Seq<u8>, LeafData>, key: Seq<u8>) -> int {
    if m.dom().contains(key) {
        m[key].sum as int
    } else {
        0
    }
}

/// Every branch along the path of `key` below `n` is persisted in the given
/// branch map under its hash. Reused siblings off the path, and the empty
/// stand-ins, carry no obligation: only the nodes a write rebuilds must be
/// persisted before the root moves.
pub open spec fn path_branches_persisted(
    n: Node,
    key: Seq<u8>,
    depth: int,
    branches: Map<Seq<u8>, BranchNode>,
) -> bool
    decreases n,
{
    match n {
        Node::Branch(b) => {
            &&& branches.dom().contains(b.node_hash@)
            &&& if key_bit(key, depth) {
                path_branches_persisted(*b.right, key, depth + 1, branches)
            } else {
                path_branches_persisted(*b.left, key, depth + 1, branches)
            }
        },
        Node::Leaf(l) => true,
        Node::Computed(c) => true,
    }
}

/// Persistence along a path survives additions to the branch map.
proof fn lemma_path_persisted_monotone(
    n: Node,
    key: Seq<u8>,
    depth: int,
    m1: Map<Seq<u8>, BranchNode>,
    m2: Map<Seq<u8>, BranchNode>,
)
    requires
        path_branches_persisted(n, key, depth, m1),
        forall|h: Seq<u8>| #[trigger] m1.dom().contains(h) ==> m2.dom().contains(h),
    ensures
        path_branches_persisted(n, key, depth, m2),
    decreases n,
{
    match n {
        Node::Branch(b) => {
            if key_bit(key, depth) {
                lemma_path_persisted_monotone(*b.right, key, depth + 1, m1, m2);
            } else {
                lemma_path_persisted_monotone(*b.left, key, depth + 1, m1, m2);
            }
        },
        _ => {},
    }
}

/// Whether the leaf is the canonical empty leaf.
fn leaf_is_canonical_empty(leaf: &LeafNode) -> (r: bool)
    ensures
        r == is_empty_entry(leaf.key@, leaf.value@, leaf.sum),
{
    let zero = [0u8; 32];
    let r = leaf.is_empty() && keys_equal(&leaf.key, &zero);
    proof {
        assert(zero@ =~= zero_key());
        if leaf.value@.len() == 0 {
            assert(leaf.value@ =~= Seq::<u8>::empty());
        }
    }
    r
}

/// Whether a well-formed node standing at `depth` is an entirely empty
/// subtree.
fn is_empty_node(n: &Node, Ghost(depth): Ghost<int>) -> (r: bool)
    requires
        n.wf_at(depth),
    ensures
        r == (n.contents() == Map::<Seq<u8>, LeafData>::empty()),
        r ==> n.sum_of() == 0,
{
    match n {
        Node::Leaf(l) => {
            let zero = [0u8; 32];
            let c = l.is_empty() && keys_equal(&l.key, &zero);
            proof {
                assert(zero@ =~= zero_key());
                if c {
                    assert(l.value@ =~= Seq::<u8>::empty());
                    assert(n.contents() == Map::<Seq<u8>, LeafData>::empty());
                } else {
                    assert(n.contents().dom().contains(l.key@));
                }
            }
            c
        },
        Node::Branch(b) => false,
        Node::Computed(c) => true,
    }
}

/// A Merkle-Sum Sparse Merkle Tree over a node store.
///
/// The tree is a functional structure: every mutation rebuilds one root-to-
/// leaf path and keeps everything else, and the store's root pointer is the
/// single mutable cell. Its committed state is the key-value-sum map
/// [`FullTree::as_map`], whose hash and total sum stand at the root.
pub struct FullTree<S: TreeStore> {
    store: S,
    empty_tree: EmptyTree,
}

impl<S: TreeStore> FullTree<S> {
    /// The entries of the tree: its committed key-value-sum map.
    pub closed spec fn as_map(self) -> Map<Seq<u8>, LeafData> {
        match self.store.root_view() {
            None => Map::empty(),
            Some(n) => n.contents(),
        }
    }

    /// The root hash the tree commits to.
    pub closed spec fn root_hash(self) -> Seq<u8> {
        match self.store.root_view() {
            None => crate::node::empty_hash(0),
            Some(n) => n.hash_of(),
        }
    }

    /// The total sum the tree commits to.
    pub closed spec fn total_sum(self) -> int {
        match self.store.root_view() {
            None => 0,
            Some(n) => n.sum_of(),
        }
    }

    /// The tree is well formed: its store is consistent, its empty-subtree
    /// table is correct, and the persisted root (when present) is a cached,
    /// well-formed node standing at depth 0.
    pub closed spec fn wf(self) -> bool {
        &&& self.store.inv()
        &&& self.empty_tree.wf()
        &&& match self.store.root_view() {
            Some(n) => n.inv() && n.wf_at(0),
            None => true,
        }
    }

    /// Whether the tree's store is free of I/O failures.
    pub closed spec fn never_fails(self) -> bool {
        self.store.never_fails()
    }

    /// The branches the tree's store holds, keyed by their hash bytes.
    pub closed spec fn stored_branches(self) -> Map<Seq<u8>, BranchNode> {
        self.store.branches()
    }

    /// The leaves the tree's store holds, keyed by their hash bytes.
    pub closed spec fn stored_leaves(self) -> Map<Seq<u8>, LeafNode> {
        self.store.leaves()
    }

    /// Every branch along the path of `key` below the committed root stands
    /// persisted in the store — the write path a mutation rebuilds is in the
    /// store before the root pointer moves.
    pub closed spec fn root_path_persisted(self, key: Seq<u8>) -> bool {
        match self.store.root_view() {
            Some(n) => path_branches_persisted(n, key, 0, self.store.branches()),
            None => true,
        }
    }

    /// Creates a new tree over the given store. A store holding a prior root
    /// must hold a well-formed one.
    pub fn new(store: S) -> (r: Self)
        requires
            store.inv(),
            match store.root_view() {
                Some(n) => n.inv() && n.wf_at(0),
                None => true,
            },
        ensures
            r.wf(),
            r.never_fails() == store.never_fails(),
            r.as_map() == match store.root_view() {
                Some(n) => n.contents(),
                None => Map::<Seq<u8>, LeafData>::empty(),
            },
            r.root_hash() == match store.root_view() {
                Some(n) => n.hash_of(),
                None => crate::node::empty_hash(0),
            },
            r.total_sum() == match store.root_view() {
                Some(n) => n.sum_of(),
                None => 0,
            },
    {
        FullTree { store, empty_tree: EmptyTree::new() }
    }

    /// Returns the root node of the tree: the persisted root, or the empty
    /// root when nothing was ever written.
    pub fn root(&self) -> (r: Result<Node, TreeError>)
        requires
            self.wf(),
        ensures
            match r {
                Ok(n) => {
                    &&& n.inv()
                    &&& n.wf_at(0)
                    &&& n.contents() == self.as_map()
                    &&& n.hash_of() == self.root_hash()
                    &&& n.sum_of() == self.total_sum()
                },
                Err(e) => e == TreeError::StoreIo && !self.never_fails(),
            },
            self.never_fails() ==> r is Ok,
    {
        match self.store.root_node() {
            Ok(n) => Ok(n),
            Err(e) => Err(e),
        }
    }

    /// Writes `leaf` at the path of `key` below `node`, which stands at
    /// `height`. Rebuilds and persists the branches along the path, creating
    /// them through empty subtrees, and collapses a subtree that becomes
    /// entirely empty back into its empty stand-in. Returns the new subtree
    /// root; the caller is responsible for the store's root pointer.
    #[verifier::rlimit(50)]
    fn set_leaf_at(&mut self, node: Node, height: usize, key: &[u8; 32], leaf: &LeafNode) -> (r:
        Result<Node, TreeError>)
        requires
            old(self).store.inv(),
            old(self).empty_tree.wf(),
            node.inv(),
            node.wf_at(height as int),
            height <= 256,
            Node::Leaf(*leaf).inv(),
            !is_empty_entry(leaf.key@, leaf.value@, leaf.sum) ==> leaf.key@ == key@,
            forall|k: Seq<u8>| #[trigger]
                node.contents().dom().contains(k) ==> keys_agree_below(k, key@, height as int),
        ensures
            final(self).store.inv(),
            final(self).store.root_view() == old(self).store.root_view(),
            final(self).store.never_fails() == old(self).store.never_fails(),
            final(self).empty_tree == old(self).empty_tree,
            match r {
                Ok(n) => {
                    &&& n.inv()
                    &&& n.wf_at(height as int)
                    &&& n.contents() == map_after_leaf_write(node.contents(), key@, *leaf)
                    &&& n.sum_of() == node.sum_of() - entry_sum(node.contents(), key@) + leaf.sum
                    &&& n.sum_of() <= u64::MAX
                    &&& path_branches_persisted(n, key@, height as int, final(self).store.branches())
                    &&& !is_empty_entry(leaf.key@, leaf.value@, leaf.sum)
                        ==> final(self).store.leaves().dom().contains(leaf.node_hash@)
                },
                Err(TreeError::SumOverflow) => node.sum_of() - entry_sum(node.contents(), key@)
                    + leaf.sum > u64::MAX,
                Err(TreeError::StoreIo) => !old(self).store.never_fails(),
            },
            old(self).store.never_fails() && node.sum_of() - entry_sum(node.contents(), key@)
                + leaf.sum <= u64::MAX ==> r is Ok,
        decreases 256 - height,
    {
        let ghost target = map_after_leaf_write(node.contents(), key@, *leaf);
        if height == 256 {
            proof {
                // A non-empty leaf here lies at the full path of `key`, so it
                // carries `key` itself.
                let gnode = node;
                match gnode {
                    Node::Leaf(l) => {
                        if !(l.key@ == zero_key() && l.value@ == Seq::<u8>::empty() && l.sum
                            == 0) {
                            assert(node.contents().dom().contains(l.key@));
                            assert(keys_agree_below(l.key@, key@, 256));
                            lemma_key_bits_determine(l.key@, key@);
                        }
                    },
                    _ => {},
                }
            }
            let deleting = leaf_is_canonical_empty(leaf);
            if deleting {
                match &node {
                    Node::Leaf(l) => {
                        if keys_equal(&l.key, key) {
                            match self.store.delete_leaf(&l.node_hash) {
                                Ok(()) => (),
                                Err(e) => {
                                    return Err(e);
                                },
                            }
                        }
                    },
                    _ => {},
                }
                let n = Node::Leaf(leaf.copy());
                proof {
                    assert(n.contents() =~= node.contents().remove(key@));
                }
                Ok(n)
            } else {
                let stored_leaf = leaf.copy();
                let ghost stored_leaf_g = stored_leaf;
                match self.store.insert_leaf(stored_leaf) {
                    Ok(()) => (),
                    Err(e) => {
                        return Err(e);
                    },
                }
                let n = Node::Leaf(leaf.copy());
                proof {
                    assert(n.contents() =~= node.contents().insert(
                        key@,
                        LeafData { value: leaf.value@, sum: leaf.sum },
                    ));
                    assert(stored_leaf_g.node_hash == leaf.node_hash);
                    assert(self.store.leaves().dom().contains(leaf.node_hash@));
                }
                Ok(n)
            }
        } else {
            let bit = bit_index(height, key);
            match node {
                Node::Computed(c) => {
                    let deleting = leaf_is_canonical_empty(leaf);
                    if deleting {
                        // Deleting below an empty subtree changes nothing.
                        proof {
                            assert(node.contents().remove(key@) =~= node.contents());
                        }
                        Ok(Node::Computed(c))
                    } else {
                        // Descend through empty space: the child on the key's
                        // side receives the leaf, the other stays empty.
                        let child = self.empty_tree.node_at(height + 1);
                        let new_child = match self.set_leaf_at(child, height + 1, key, leaf) {
                            Ok(n) => n,
                            Err(e) => {
                                return Err(e);
                            },
                        };
                        let ghost new_child_g = new_child;
                        let ghost mid_branches = self.store.branches();
                        let sibling = self.empty_tree.node_at(height + 1);
                        let (left_node, right_node) = if bit == 0 {
                            (new_child, sibling)
                        } else {
                            (sibling, new_child)
                        };
                        let branch = BranchNode::new(left_node, right_node);
                        let stored = branch.copy();
                        let ghost stored_g = stored;
                        match self.store.insert_branch(stored) {
                            Ok(()) => (),
                            Err(e) => {
                                return Err(e);
                            },
                        }
                        let n = Node::Branch(branch);
                        proof {
                            let data = LeafData { value: leaf.value@, sum: leaf.sum };
                            assert(n.contents() =~= node.contents().insert(key@, data));
                            assert(n.contents().dom().contains(key@));
                            assert(n.contents() != Map::<Seq<u8>, LeafData>::empty());
                            // The rebuilt branch and the path below it are
                            // persisted before the caller moves the root.
                            assert(stored_g.node_hash@ == branch.node_hash@);
                            assert(self.store.branches().dom().contains(branch.node_hash@));
                            assert forall|h: Seq<u8>| #[trigger]
                                mid_branches.dom().contains(h) implies
                                self.store.branches().dom().contains(h) by {}
                            if bit == 0 {
                                assert(*branch.left == new_child_g);
                                lemma_path_persisted_monotone(
                                    new_child_g,
                                    key@,
                                    height + 1,
                                    mid_branches,
                                    self.store.branches(),
                                );
                            } else {
                                assert(*branch.right == new_child_g);
                                lemma_path_persisted_monotone(
                                    new_child_g,
                                    key@,
                                    height + 1,
                                    mid_branches,
                                    self.store.branches(),
                                );
                            }
                        }
                        Ok(n)
                    }
                },
                Node::Branch(b) => {
                    let BranchNode { node_hash: _, sum: _, left, right } = b;
                    let left_node = *left;
                    let right_node = *right;
                    let ghost old_left = left_node;
                    let ghost old_right = right_node;
                    proof {
                        lemma_sum_of_nonneg(old_left);
                        lemma_sum_of_nonneg(old_right);
                        // The key never lies below the sibling side.
                        if bit == 0 {
                            if old_right.contents().dom().contains(key@) {
                                assert(key_bit(key@, height as int));
                            }
                        } else {
                            if old_left.contents().dom().contains(key@) {
                                assert(!key_bit(key@, height as int));
                            }
                        }
                    }
                    let (new_left, new_right) = if bit == 0 {
                        proof {
                            assert forall|k: Seq<u8>| #[trigger]
                                old_left.contents().dom().contains(k) implies keys_agree_below(
                                k,
                                key@,
                                height + 1,
                            ) by {
                                assert(node.contents().dom().contains(k));
                                assert(keys_agree_below(k, key@, height as int));
                                assert forall|i: int| 0 <= i < height + 1 implies (
                                #[trigger] key_bit(k, i)) == key_bit(key@, i) by {
                                    if i < height as int {
                                        assert(key_bit(k, i) == key_bit(key@, i));
                                    } else {
                                        assert(!key_bit(k, i));
                                        assert(!key_bit(key@, i));
                                    }
                                }
                            }
                        }
                        let new_left = match self.set_leaf_at(left_node, height + 1, key, leaf) {
                            Ok(n) => n,
                            Err(e) => {
                                proof {
                                    assert(entry_sum(node.contents(), key@) == entry_sum(
                                        old_left.contents(),
                                        key@,
                                    ));
                                }
                                return Err(e);
                            },
                        };
                        (new_left, right_node)
                    } else {
                        proof {
                            assert forall|k: Seq<u8>| #[trigger]
                                old_right.contents().dom().contains(k) implies keys_agree_below(
                                k,
                                key@,
                                height + 1,
                            ) by {
                                assert(node.contents().dom().contains(k));
                                assert(keys_agree_below(k, key@, height as int));
                                assert forall|i: int| 0 <= i < height + 1 implies (
                                #[trigger] key_bit(k, i)) == key_bit(key@, i) by {
                                    if i < height as int {
                                        assert(key_bit(k, i) == key_bit(key@, i));
                                    } else {
                                        assert(key_bit(k, i));
                                        assert(key_bit(key@, i));
                                    }
                                }
                            }
                        }
                        let new_right = match self.set_leaf_at(right_node, height + 1, key, leaf) {
                            Ok(n) => n,
                            Err(e) => {
                                proof {
                                    assert(entry_sum(node.contents(), key@) == entry_sum(
                                        old_right.contents(),
                                        key@,
                                    ));
                                }
                                return Err(e);
                            },
                        };
                        (left_node, new_right)
                    };
                    proof {
                        lemma_sum_of_nonneg(new_left);
                        lemma_sum_of_nonneg(new_right);
                        assert(entry_sum(node.contents(), key@) == if bit == 0 {
                            entry_sum(old_left.contents(), key@)
                        } else {
                            entry_sum(old_right.contents(), key@)
                        });
                    }
                    let ls = new_left.node_sum();
                    let rs = new_right.node_sum();
                    if ls > u64::MAX - rs {
                        return Err(TreeError::SumOverflow);
                    }
                    let collapse = is_empty_node(&new_left, Ghost(height + 1)) && is_empty_node(
                        &new_right,
                        Ghost(height + 1),
                    );
                    let ghost new_left_g = new_left;
                    let ghost new_right_g = new_right;
                    let ghost mid_branches = self.store.branches();
                    let branch = BranchNode::new(new_left, new_right);
                    let stored = branch.copy();
                    let ghost stored_g = stored;
                    match self.store.insert_branch(stored) {
                        Ok(()) => (),
                        Err(e) => {
                            return Err(e);
                        },
                    }
                    proof {
                        // The rebuilt branch and the path below it are
                        // persisted before the caller moves the root.
                        assert(stored_g.node_hash@ == branch.node_hash@);
                        assert(self.store.branches().dom().contains(branch.node_hash@));
                        assert forall|h: Seq<u8>| #[trigger]
                            mid_branches.dom().contains(h) implies
                            self.store.branches().dom().contains(h) by {}
                        if bit == 0 {
                            assert(*branch.left == new_left_g);
                            lemma_path_persisted_monotone(
                                new_left_g,
                                key@,
                                height + 1,
                                mid_branches,
                                self.store.branches(),
                            );
                        } else {
                            assert(*branch.right == new_right_g);
                            lemma_path_persisted_monotone(
                                new_right_g,
                                key@,
                                height + 1,
                                mid_branches,
                                self.store.branches(),
                            );
                        }
                        // The rebuilt branch holds exactly the written map.
                        let data = LeafData { value: leaf.value@, sum: leaf.sum };
                        if bit == 0 {
                            assert(!old_right.contents().dom().contains(key@));
                            if is_empty_entry(leaf.key@, leaf.value@, leaf.sum) {
                                assert(new_left_g.contents() == old_left.contents().remove(key@));
                                assert(Node::Branch(branch).contents() =~= node.contents().remove(
                                    key@,
                                ));
                            } else {
                                assert(new_left_g.contents() == old_left.contents().insert(
                                    key@,
                                    data,
                                ));
                                assert(Node::Branch(branch).contents() =~= node.contents().insert(
                                    key@,
                                    data,
                                ));
                            }
                        } else {
                            assert(!old_left.contents().dom().contains(key@));
                            if is_empty_entry(leaf.key@, leaf.value@, leaf.sum) {
                                assert(new_right_g.contents() == old_right.contents().remove(
                                    key@,
                                ));
                                assert(Node::Branch(branch).contents() =~= node.contents().remove(
                                    key@,
                                ));
                            } else {
                                assert(new_right_g.contents() == old_right.contents().insert(
                                    key@,
                                    data,
                                ));
                                assert(Node::Branch(branch).contents() =~= node.contents().insert(
                                    key@,
                                    data,
                                ));
                            }
                        }
                        assert(Node::Branch(branch).contents() == target);
                    }
                    if collapse {
                        let n = self.empty_tree.node_at(height);
                        proof {
                            assert(Node::Branch(branch).contents() =~= Map::<
                                Seq<u8>,
                                LeafData,
                            >::empty());
                            assert(n.contents() == target);
                        }
                        Ok(n)
                    } else {
                        let n = Node::Branch(branch);
                        proof {
                            // Well-formedness of the rebuilt branch: each side
                            // still keeps only keys that follow its bit.
                            assert forall|k: Seq<u8>| #[trigger]
                                branch.left.contents().dom().contains(k) implies !key_bit(
                                k,
                                height as int,
                            ) by {
                                if bit == 0 {
                                    if k != key@ {
                                        assert(old_left.contents().dom().contains(k));
                                    }
                                } else {
                                    assert(old_left.contents().dom().contains(k));
                                }
                            }
                            assert forall|k: Seq<u8>| #[trigger]
                                branch.right.contents().dom().contains(k) implies key_bit(
                                k,
                                height as int,
                            ) by {
                                if bit == 0 {
                                    assert(old_right.contents().dom().contains(k));
                                } else {
                                    if k != key@ {
                                        assert(old_right.contents().dom().contains(k));
                                    }
                                }
                            }
                            // Not collapsed: some side is non-empty, so the
                            // branch is non-empty.
                            if n.contents() == Map::<Seq<u8>, LeafData>::empty() {
                                assert forall|k: Seq<u8>|
                                    !(#[trigger] new_left_g.contents().dom().contains(k)) by {
                                    if new_left_g.contents().dom().contains(k) {
                                        assert(n.contents().dom().contains(k));
                                    }
                                }
                                assert forall|k: Seq<u8>|
                                    !(#[trigger] new_right_g.contents().dom().contains(k)) by {
                                    if new_right_g.contents().dom().contains(k) {
                                        assert(n.contents().dom().contains(k));
                                    }
                                }
                                assert(new_left_g.contents() =~= Map::<Seq<u8>, LeafData>::empty());
                                assert(new_right_g.contents() =~= Map::<
                                    Seq<u8>,
                                    LeafData,
                                >::empty());
                                assert(false);
                            }
                        }
                        Ok(n)
                    }
                },
                Node::Leaf(l) => {
                    // Leaves stand only at depth 256; this point is
                    // unreachable for a well-formed tree.
                    proof {
                        assert(false);
                    }
                    vstd::pervasive::unreached()
                },
            }
        }
    }

    /// Inserts a key-value pair with its sum into the tree, replacing any
    /// prior entry under the key.
    pub fn insert(&mut self, key: [u8; 32], value: Vec<u8>, sum: u64) -> (r: Result<
        (),
        TreeError,
    >)
        requires
            old(self).wf(),
        ensures
            final(self).wf(),
            final(self).never_fails() == old(self).never_fails(),
            match r {
                Ok(()) => {
                    &&& final(self).as_map() == map_after_write(
                        old(self).as_map(),
                        key@,
                        value@,
                        sum,
                    )
                    &&& final(self).total_sum() == old(self).total_sum() - entry_sum(
                        old(self).as_map(),
                        key@,
                    ) + sum
                    &&& final(self).total_sum() <= u64::MAX
                    &&& final(self).root_path_persisted(key@)
                    &&& !is_empty_entry(key@, value@, sum)
                        ==> final(self).stored_leaves().dom().contains(leaf_hash(key@, value@, sum))
                },
                Err(TreeError::SumOverflow) => {
                    &&& old(self).total_sum() - entry_sum(old(self).as_map(), key@) + sum
                        > u64::MAX
                    &&& final(self).as_map() == old(self).as_map()
                    &&& final(self).root_hash() == old(self).root_hash()
                    &&& final(self).total_sum() == old(self).total_sum()
                },
                Err(TreeError::StoreIo) => {
                    &&& !old(self).never_fails()
                    &&& final(self).as_map() == old(self).as_map()
                    &&& final(self).root_hash() == old(self).root_hash()
                    &&& final(self).total_sum() == old(self).total_sum()
                },
            },
            old(self).never_fails() ==> (r is Ok <==> old(self).total_sum() - entry_sum(
                old(self).as_map(),
                key@,
            ) + sum <= u64::MAX),
    {
        let leaf = LeafNode::new(key, value, sum);
        let root = match self.store.root_node() {
            Ok(n) => n,
            Err(e) => {
                return Err(e);
            },
        };
        proof {
            lemma_sum_of_bounded(root);
        }
        let new_root = match self.set_leaf_at(root, 0, &key, &leaf) {
            Ok(n) => n,
            Err(e) => {
                return Err(e);
            },
        };
        match self.store.update_root(new_root) {
            Ok(()) => Ok(()),
            Err(e) => Err(e),
        }
    }

    /// Deletes the entry under a key. Deleting an absent key leaves the tree
    /// unchanged.
    pub fn delete(&mut self, key: [u8; 32]) -> (r: Result<(), TreeError>)
        requires
            old(self).wf(),
        ensures
            final(self).wf(),
            final(self).never_fails() == old(self).never_fails(),
            !(r matches Err(TreeError::SumOverflow)),
            match r {
                Ok(()) => {
                    &&& final(self).as_map() == old(self).as_map().remove(key@)
                    &&& final(self).total_sum() == old(self).total_sum() - entry_sum(
                        old(self).as_map(),
                        key@,
                    )
                    &&& final(self).root_path_persisted(key@)
                },
                Err(e) => {
                    &&& !old(self).never_fails()
                    &&& final(self).as_map() == old(self).as_map()
                    &&& final(self).root_hash() == old(self).root_hash()
                    &&& final(self).total_sum() == old(self).total_sum()
                },
            },
            old(self).never_fails() ==> r is Ok,
    {
        let leaf = LeafNode::empty();
        let root = match self.store.root_node() {
            Ok(n) => n,
            Err(e) => {
                return Err(e);
            },
        };
        proof {
            lemma_sum_of_bounded(root);
            lemma_sum_of_nonneg(root);
            if root.contents().dom().contains(key@) {
                assert(entry_sum(root.contents(), key@) >= 0);
            }
        }
        let new_root = match self.set_leaf_at(root, 0, &key, &leaf) {
            Ok(n) => n,
            Err(e) => {
                return Err(e);
            },
        };
        match self.store.update_root(new_root) {
            Ok(()) => Ok(()),
            Err(e) => Err(e),
        }
    }

    /// Looks up the value and sum stored under a key.
    pub fn get(&self, key: [u8; 32]) -> (r: Result<Option<(Vec<u8>, u64)>, TreeError>)
        requires
            self.wf(),
        ensures
            match r {
                Ok(Some((v, s))) => {
                    &&& self.as_map().dom().contains(key@)
                    &&& v@ == self.as_map()[key@].value
                    &&& s == self.as_map()[key@].sum
                },
                Ok(None) => !self.as_map().dom().contains(key@),
                Err(e) => e == TreeError::StoreIo && !self.never_fails(),
            },
            self.never_fails() ==> r is Ok,
    {
        let root = match self.store.root_node() {
            Ok(n) => n,
            Err(e) => {
                return Err(e);
            },
        };
        Ok(Self::get_at_node(&root, 0, &key))
    }

    /// Canonicity at the tree level: two well-formed trees holding the same
    /// entries commit to the same root hash and the same total sum, whatever
    /// sequence of operations built each of them. With the write laws this
    /// gives insert idempotence and order independence: writing an entry
    /// twice commits to the same root as writing it once, and distinct keys
    /// may be written in any order.
    pub proof fn lemma_root_determined_by_entries<S2: TreeStore>(t1: FullTree<S>, t2: FullTree<S2>)
        requires
            t1.wf(),
            t2.wf(),
            t1.as_map() == t2.as_map(),
        ensures
            t1.root_hash() == t2.root_hash(),
            t1.total_sum() == t2.total_sum(),
    {
        match (t1.store.root_view(), t2.store.root_view()) {
            (Some(n1), Some(n2)) => {
                crate::lemmas::lemma_root_determined_by_contents(n1, n2, 0);
            },
            (Some(n1), None) => {
                crate::lemmas::lemma_empty_contents_empty_root(n1, 0);
            },
            (None, Some(n2)) => {
                crate::lemmas::lemma_empty_contents_empty_root(n2, 0);
            },
            (None, None) => {},
        }
    }

    /// Empty-root constancy: a tree holding no entries — never written, or
    /// with every entry deleted again — commits to the precomputed empty
    /// root hash at depth 0, with total sum zero.
    pub proof fn lemma_empty_tree_root(t: FullTree<S>)
        requires
            t.wf(),
            t.as_map() == Map::<Seq<u8>, LeafData>::empty(),
        ensures
            t.root_hash() == empty_hash(0),
            t.total_sum() == 0,
    {
        match t.store.root_view() {
            Some(n) => {
                crate::lemmas::lemma_empty_contents_empty_root(n, 0);
            },
            None => {},
        }
    }

    /// Sum conservation: a well-formed tree's total sum is exactly the sum of
    /// the entry sums it holds.
    pub proof fn lemma_total_sum_is_entry_sums(t: FullTree<S>)
        requires
            t.wf(),
        ensures
            t.total_sum() == crate::lemmas::map_sum(t.as_map()),
    {
        match t.store.root_view() {
            Some(n) => {
                crate::lemmas::lemma_sum_is_map_sum(n, 0);
            },
            None => {
                let m = Map::<Seq<u8>, LeafData>::empty();
                assert(m.dom() =~= Set::empty());
                assert(m.dom().len() == 0);
            },
        }
    }

    /// Generates a Merkle proof for a key: exactly 256 sibling snapshots,
    /// root-side first, that rebuild this tree's root hash and total sum from
    /// the leaf standing at the key — the entry's leaf when the key is
    /// present, the empty leaf when it is absent. Verifying the proof against
    /// this tree's root hash therefore succeeds with that leaf.
    pub fn merkle_proof(&self, key: [u8; 32]) -> (r: Result<Proof, TreeError>)
        requires
            self.wf(),
        ensures
            match r {
                Ok(p) => {
                    &&& p.wf()
                    &&& p.nodes@.len() == 256
                    &&& reconstruct(
                        key@,
                        leaf_hash_at(self.as_map(), key@),
                        entry_sum(self.as_map(), key@),
                        sibling_views(p.nodes@),
                    ) == Some((self.root_hash(), self.total_sum()))
                },
                Err(e) => e == TreeError::StoreIo && !self.never_fails(),
            },
            self.never_fails() ==> r is Ok,
    {
        let root = match self.store.root_node() {
            Ok(n) => n,
            Err(e) => {
                return Err(e);
            },
        };
        let mut nodes: Vec<Node> = Vec::new();
        Self::generate_proof_at(&self.empty_tree, &root, 0, &key, &mut nodes);
        proof {
            assert(nodes@.skip(0) =~= nodes@);
        }
        Ok(Proof::new(nodes))
    }

    /// Collects the proof siblings for `key` below `node`, which stands at
    /// `height`: at a branch, the hash and sum of the unfollowed child; below
    /// an empty subtree, the empty subtrees one level deeper.
    fn generate_proof_at(
        empty_tree: &EmptyTree,
        node: &Node,
        height: usize,
        key: &[u8; 32],
        out: &mut Vec<Node>,
    )
        requires
            empty_tree.wf(),
            node.inv(),
            node.wf_at(height as int),
            height <= 256,
            forall|k: Seq<u8>| #[trigger]
                node.contents().dom().contains(k) ==> keys_agree_below(k, key@, height as int),
        ensures
            final(out)@.len() == old(out)@.len() + 256 - height,
            final(out)@.subrange(0, old(out)@.len() as int) == old(out)@,
            forall|i: int|
                old(out)@.len() <= i < final(out)@.len() ==> (#[trigger] final(out)@[i]).inv(),
            reconstruct_upto(
                key@,
                leaf_hash_at(node.contents(), key@),
                entry_sum(node.contents(), key@),
                sibling_views(final(out)@.skip(old(out)@.len() as int)),
                height as int,
            ) == Some((node.hash_of(), node.sum_of())),
        decreases 256 - height,
    {
        let ghost base = out@.len() as int;
        if height == 256 {
            proof {
                let gnode = *node;
                match gnode {
                    Node::Leaf(l) => {
                        if l.key@ == zero_key() && l.value@ == Seq::<u8>::empty() && l.sum == 0 {
                            assert(node.contents() == Map::<Seq<u8>, LeafData>::empty());
                            assert(leaf_hash_at(node.contents(), key@) == empty_leaf_hash());
                        } else {
                            assert(node.contents().dom().contains(l.key@));
                            assert(keys_agree_below(l.key@, key@, 256));
                            lemma_key_bits_determine(l.key@, key@);
                            assert(node.contents()[key@] == LeafData {
                                value: l.value@,
                                sum: l.sum,
                            });
                        }
                    },
                    Node::Computed(c) => {
                        assert(c.hash@ == empty_hash(256));
                    },
                    Node::Branch(b) => {
                        assert(false);
                    },
                }
                assert(out@.skip(base) =~= Seq::<Node>::empty());
                assert(sibling_views(out@.skip(base)) =~= Seq::<(Seq<u8>, int)>::empty());
            }
        } else {
            match node {
                Node::Branch(b) => {
                    let bit = bit_index(height, key);
                    proof {
                        if bit == 0 {
                            if b.right.contents().dom().contains(key@) {
                                assert(key_bit(key@, height as int));
                            }
                        } else {
                            if b.left.contents().dom().contains(key@) {
                                assert(!key_bit(key@, height as int));
                            }
                        }
                    }
                    let (child, sib): (&Node, &Node) = if bit == 0 {
                        (&b.left, &b.right)
                    } else {
                        (&b.right, &b.left)
                    };
                    let snapshot = Node::Computed(
                        ComputedNode::new(sib.node_hash(), sib.node_sum()),
                    );
                    let ghost snap_g = snapshot;
                    out.push(snapshot);
                    let ghost mid = out@;
                    proof {
                        assert(mid[base] == snap_g);
                        assert(snap_g.inv());
                        assert(snap_g.hash_of() == sib.hash_of());
                        assert(snap_g.sum_of() == sib.sum_of());
                    }
                    proof {
                        assert forall|k: Seq<u8>| #[trigger]
                            child.contents().dom().contains(k) implies keys_agree_below(
                            k,
                            key@,
                            height + 1,
                        ) by {
                            assert(node.contents().dom().contains(k));
                            assert(keys_agree_below(k, key@, height as int));
                            assert forall|i: int| 0 <= i < height + 1 implies (#[trigger] key_bit(
                                k,
                                i,
                            )) == key_bit(key@, i) by {
                                if i < height as int {
                                    assert(key_bit(k, i) == key_bit(key@, i));
                                } else {
                                    if bit == 0 {
                                        assert(!key_bit(k, i));
                                        assert(!key_bit(key@, i));
                                    } else {
                                        assert(key_bit(k, i));
                                        assert(key_bit(key@, i));
                                    }
                                }
                            }
                        }
                    }
                    Self::generate_proof_at(empty_tree, child, height + 1, key, out);
                    proof {
                        assert(out@.subrange(0, base) =~= mid.subrange(0, base));
                        let part = out@.skip(base);
                        let child_part = out@.skip(base + 1);
                        assert(out@.subrange(0, base + 1) == mid);
                        assert(out@[base] == mid[base]);
                        assert(part =~= seq![snap_g] + child_part);
                        assert(sibling_views(part) =~= seq![(sib.hash_of(), sib.sum_of())]
                            + sibling_views(child_part));
                        assert forall|i: int| base <= i < out@.len() implies (
                        #[trigger] out@[i]).inv() by {
                            if i > base {
                                assert(out@[i].inv());
                            } else {
                                assert(out@[base] == snap_g);
                            }
                        }
                        // The entry at `key`, and its leaf hash, live on the
                        // followed side.
                        assert(node.contents().dom().contains(key@)
                            == child.contents().dom().contains(key@));
                        assert(leaf_hash_at(node.contents(), key@) == leaf_hash_at(
                            child.contents(),
                            key@,
                        ));
                        assert(entry_sum(node.contents(), key@) == entry_sum(
                            child.contents(),
                            key@,
                        ));
                        lemma_reconstruct_prepend(
                            key@,
                            leaf_hash_at(node.contents(), key@),
                            entry_sum(node.contents(), key@),
                            (sib.hash_of(), sib.sum_of()),
                            sibling_views(child_part),
                            height as int,
                        );
                        lemma_sum_of_nonneg(*node);
                    }
                },
                Node::Computed(c) => {
                    let ghost prefix = out@;
                    let mut d = height;
                    while d < 256
                        invariant
                            height <= d <= 256,
                            empty_tree.wf(),
                            out@.len() == prefix.len() + d - height,
                            out@.subrange(0, prefix.len() as int) == prefix,
                            forall|j: int|
                                0 <= j < d - height ==> {
                                    let sib = #[trigger] out@[prefix.len() + j];
                                    &&& sib.inv()
                                    &&& sib.hash_of() == empty_hash(height + j + 1)
                                    &&& sib.sum_of() == 0
                                },
                        decreases 256 - d,
                    {
                        let ghost before = out@;
                        let sib = Node::Computed(ComputedNode::new(empty_tree.hash_at(d + 1), 0));
                        out.push(sib);
                        proof {
                            assert(out@.subrange(0, prefix.len() as int) =~= before.subrange(
                                0,
                                prefix.len() as int,
                            ));
                        }
                        d = d + 1;
                    }
                    proof {
                        assert(prefix.len() == base);
                        assert forall|i: int| base <= i < out@.len() implies (
                        #[trigger] out@[i]).inv() by {
                            let j = i - base;
                            assert(out@[prefix.len() + j].inv());
                        }
                        assert forall|j: int| 0 <= j < 256 - height implies (#[trigger] sibling_views(
                            out@.skip(base),
                        )[j]) == (empty_hash(height + j + 1), 0int) by {
                            assert(out@.skip(base)[j] == out@[base + j]);
                            let sib = out@[prefix.len() + j];
                            assert(sib.hash_of() == empty_hash(height + j + 1));
                            assert(sib.sum_of() == 0);
                        }
                        assert(sibling_views(out@.skip(base)) =~= Seq::new(
                            (256 - height) as nat,
                            |j: int| (empty_hash(height + j + 1), 0int),
                        ));
                        lemma_reconstruct_empty_chain(key@, height as int, 256);
                        assert(leaf_hash_at(node.contents(), key@) == empty_leaf_hash());
                        assert(empty_leaf_hash() == empty_hash(256));
                        assert(node.hash_of() == empty_hash(height as int));
                    }
                },
                Node::Leaf(l) => {
                    proof {
                        assert(false);
                    }
                },
            }
        }
    }

    /// Walks the path of `key` below `node`, which stands at `height`.
    fn get_at_node(node: &Node, height: usize, key: &[u8; 32]) -> (r: Option<(Vec<u8>, u64)>)
        requires
            node.wf_at(height as int),
            height <= 256,
        ensures
            match r {
                Some((v, s)) => {
                    &&& node.contents().dom().contains(key@)
                    &&& v@ == node.contents()[key@].value
                    &&& s == node.contents()[key@].sum
                },
                None => !node.contents().dom().contains(key@),
            },
        decreases 256 - height,
    {
        if height == 256 {
            match node {
                Node::Leaf(l) => {
                    let zero = [0u8; 32];
                    if l.is_empty() && keys_equal(&l.key, &zero) {
                        proof {
                            assert(zero@ =~= zero_key());
                            assert(l.value@ =~= Seq::<u8>::empty());
                        }
                        None
                    } else if keys_equal(&l.key, key) {
                        proof {
                            assert(zero@ =~= zero_key());
                            assert(node.contents().dom().contains(key@));
                        }
                        Some((crate::node::copy_vec(&l.value), l.sum))
                    } else {
                        None
                    }
                },
                Node::Computed(c) => None,
                Node::Branch(b) => {
                    proof {
                        assert(false);
                    }
                    vstd::pervasive::unreached()
                },
            }
        } else {
            let bit = bit_index(height, key);
            match node {
                Node::Branch(b) => {
                    proof {
                        if bit == 0 {
                            if b.right.contents().dom().contains(key@) {
                                assert(key_bit(key@, height as int));
                            }
                        } else {
                            if b.left.contents().dom().contains(key@) {
                                assert(!key_bit(key@, height as int));
                            }
                        }
                    }
                    if bit == 0 {
                        Self::get_at_node(&b.left, height + 1, key)
                    } else {
                        Self::get_at_node(&b.right, height + 1, key)
                    }
                },
                Node::Computed(c) => None,
                Node::Leaf(l) => {
                    proof {
                        assert(false);
                    }
                    vstd::pervasive::unreached()
                },
            }
        }
    }
}

} // verus!
