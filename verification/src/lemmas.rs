//! Global laws of the Merkle-Sum Sparse Merkle Tree.
//!
//! The central law is canonicity: a well-formed subtree's hash and sum are
//! determined by the entries it holds and the depth it stands at, no matter
//! how the subtree was built. Everything order-related follows: inserting
//! twice commits to the same root as inserting once, distinct keys can be
//! written in any order, and a tree whose entries are gone again commits to
//! the precomputed empty root. The module also proves sum conservation: a
//! well-formed subtree's sum is exactly the sum of the entry sums it holds.

use crate::node::{empty_hash, empty_leaf_hash, key_bit, zero_key, LeafData, Node};
use crate::tree::{is_empty_entry, map_after_write};
use vstd::prelude::*;

verus! {

/// Canonicity: two well-formed subtrees at the same depth holding the same
/// entries commit to the same hash and the same sum — the root is determined
/// by the entries alone.
pub proof fn lemma_root_determined_by_contents(a: Node, b: Node, depth: int)
    requires
        a.wf_at(depth),
        b.wf_at(depth),
        a.contents() == b.contents(),
    ensures
        a.hash_of() == b.hash_of(),
        a.sum_of() == b.sum_of(),
    decreases 256 - depth,
{
    match (a, b) {
        (Node::Computed(x), Node::Computed(y)) => {},
        (Node::Computed(x), Node::Leaf(y)) => {
            lemma_empty_leaf_is_empty_hash(b, depth);
        },
        (Node::Leaf(x), Node::Computed(y)) => {
            lemma_empty_leaf_is_empty_hash(a, depth);
        },
        (Node::Leaf(x), Node::Leaf(y)) => {
            let xe = x.key@ == zero_key() && x.value@ == Seq::<u8>::empty() && x.sum == 0;
            let ye = y.key@ == zero_key() && y.value@ == Seq::<u8>::empty() && y.sum == 0;
            if xe && ye {
            } else if !xe && !ye {
                assert(a.contents().dom().contains(x.key@));
                assert(b.contents().dom().contains(y.key@));
                assert(x.key@ == y.key@);
                assert(a.contents()[x.key@] == LeafData { value: x.value@, sum: x.sum });
                assert(b.contents()[x.key@] == LeafData { value: y.value@, sum: y.sum });
            } else if xe {
                assert(b.contents().dom().contains(y.key@));
                assert(false);
            } else {
                assert(a.contents().dom().contains(x.key@));
                assert(false);
            }
        },
        (Node::Branch(x), Node::Branch(y)) => {
            lemma_branch_side_contents(x, depth);
            lemma_branch_side_contents(y, depth);
            assert(x.left.contents() =~= y.left.contents());
            assert(x.right.contents() =~= y.right.contents());
            lemma_root_determined_by_contents(*x.left, *y.left, depth + 1);
            lemma_root_determined_by_contents(*x.right, *y.right, depth + 1);
        },
        (Node::Branch(x), Node::Computed(y)) => {
            assert(false);
        },
        (Node::Computed(x), Node::Branch(y)) => {
            assert(false);
        },
        (Node::Branch(x), Node::Leaf(y)) => {
            assert(false);
        },
        (Node::Leaf(x), Node::Branch(y)) => {
            assert(false);
        },
    }
}

/// A well-formed leaf with no entries is the canonical empty leaf and hashes
/// to the empty hash of its depth.
proof fn lemma_empty_leaf_is_empty_hash(n: Node, depth: int)
    requires
        n.wf_at(depth),
        n is Leaf,
        n.contents() == Map::<Seq<u8>, LeafData>::empty(),
    ensures
        n.hash_of() == empty_hash(depth),
        n.sum_of() == 0,
{
    match n {
        Node::Leaf(l) => {
            if !(l.key@ == zero_key() && l.value@ == Seq::<u8>::empty() && l.sum == 0) {
                assert(n.contents().dom().contains(l.key@));
                assert(false);
            }
            assert(n.hash_of() == empty_leaf_hash());
            assert(empty_hash(256) == empty_leaf_hash());
        },
        _ => {},
    }
}

/// Each side of a well-formed branch holds exactly the branch's entries whose
/// key bit at the branch's depth selects that side.
proof fn lemma_branch_side_contents(b: crate::node::BranchNode, depth: int)
    requires
        Node::Branch(b).wf_at(depth),
    ensures
        forall|k: Seq<u8>| #[trigger]
            b.left.contents().dom().contains(k) == (Node::Branch(b).contents().dom().contains(k)
                && !key_bit(k, depth)),
        forall|k: Seq<u8>| #[trigger]
            b.right.contents().dom().contains(k) == (Node::Branch(b).contents().dom().contains(k)
                && key_bit(k, depth)),
        forall|k: Seq<u8>|
            b.left.contents().dom().contains(k) ==> #[trigger] b.left.contents()[k]
                == Node::Branch(b).contents()[k],
        forall|k: Seq<u8>|
            b.right.contents().dom().contains(k) ==> #[trigger] b.right.contents()[k]
                == Node::Branch(b).contents()[k],
{
    let n = Node::Branch(b);
    assert forall|k: Seq<u8>| #[trigger]
        b.left.contents().dom().contains(k) == (n.contents().dom().contains(k) && !key_bit(
        k,
        depth,
    )) by {
        if b.left.contents().dom().contains(k) {
            assert(n.contents().dom().contains(k));
        }
        if n.contents().dom().contains(k) && !key_bit(k, depth) {
            if b.right.contents().dom().contains(k) {
                assert(key_bit(k, depth));
            }
            assert(b.left.contents().dom().contains(k));
        }
    }
    assert forall|k: Seq<u8>| #[trigger]
        b.right.contents().dom().contains(k) == (n.contents().dom().contains(k) && key_bit(
        k,
        depth,
    )) by {
        if b.right.contents().dom().contains(k) {
            assert(n.contents().dom().contains(k));
        }
        if n.contents().dom().contains(k) && key_bit(k, depth) {
            if b.left.contents().dom().contains(k) {
                assert(!key_bit(k, depth));
            }
            assert(b.right.contents().dom().contains(k));
        }
    }
    assert forall|k: Seq<u8>|
        b.left.contents().dom().contains(k) implies #[trigger] b.left.contents()[k]
        == n.contents()[k] by {
        if b.right.contents().dom().contains(k) {
            assert(key_bit(k, depth));
            assert(!key_bit(k, depth));
        }
    }
}

/// An empty tree commits to the empty root: a well-formed root with no
/// entries hashes to the precomputed empty hash of its depth with sum zero.
pub proof fn lemma_empty_contents_empty_root(n: Node, depth: int)
    requires
        n.wf_at(depth),
        n.contents() == Map::<Seq<u8>, LeafData>::empty(),
    ensures
        n.hash_of() == empty_hash(depth),
        n.sum_of() == 0,
{
    match n {
        Node::Leaf(l) => {
            lemma_empty_leaf_is_empty_hash(n, depth);
        },
        Node::Computed(c) => {},
        Node::Branch(b) => {
            assert(false);
        },
    }
}

/// Insert idempotence: writing the same entry twice leaves the same entries
/// as writing it once — so, by canonicity, the same root hash and sum.
pub proof fn lemma_write_idempotent(
    m: Map<Seq<u8>, LeafData>,
    key: Seq<u8>,
    value: Seq<u8>,
    sum: u64,
)
    ensures
        map_after_write(map_after_write(m, key, value, sum), key, value, sum) == map_after_write(
            m,
            key,
            value,
            sum,
        ),
{
    if is_empty_entry(key, value, sum) {
        assert(map_after_write(map_after_write(m, key, value, sum), key, value, sum)
            =~= map_after_write(m, key, value, sum));
    } else {
        assert(map_after_write(map_after_write(m, key, value, sum), key, value, sum)
            =~= map_after_write(m, key, value, sum));
    }
}

/// Order independence: writes under distinct keys commute, so any permutation
/// of insertions leaves the same entries — and, by canonicity, the same root
/// hash and sum.
pub proof fn lemma_write_commutes(
    m: Map<Seq<u8>, LeafData>,
    key1: Seq<u8>,
    value1: Seq<u8>,
    sum1: u64,
    key2: Seq<u8>,
    value2: Seq<u8>,
    sum2: u64,
)
    requires
        key1 != key2,
    ensures
        map_after_write(map_after_write(m, key1, value1, sum1), key2, value2, sum2)
            == map_after_write(map_after_write(m, key2, value2, sum2), key1, value1, sum1),
{
    assert(map_after_write(map_after_write(m, key1, value1, sum1), key2, value2, sum2)
        =~= map_after_write(map_after_write(m, key2, value2, sum2), key1, value1, sum1));
}

/// Round trip: after writing an entry, the written key holds exactly that
/// value and sum, and every other key holds what it held before — so a
/// lookup after a sequence of writes under distinct keys returns each key's
/// own entry.
pub proof fn lemma_write_then_read(
    m: Map<Seq<u8>, LeafData>,
    key: Seq<u8>,
    value: Seq<u8>,
    sum: u64,
    other: Seq<u8>,
)
    requires
        !is_empty_entry(key, value, sum),
    ensures
        map_after_write(m, key, value, sum).dom().contains(key),
        map_after_write(m, key, value, sum)[key] == (LeafData { value, sum }),
        other != key ==> map_after_write(m, key, value, sum).dom().contains(other)
            == m.dom().contains(other),
        other != key && m.dom().contains(other) ==> map_after_write(m, key, value, sum)[other]
            == m[other],
{
}

/// The sum of all entry sums in a finite entry map.
pub open spec fn map_sum(m: Map<Seq<u8>, LeafData>) -> int
    decreases m.dom().len(),
    when m.dom().finite()
{
    if m.dom().len() == 0 {
        0
    } else {
        let k = m.dom().choose();
        m[k].sum + map_sum(m.remove(k))
    }
}

/// Splitting off any one entry splits the sum.
proof fn lemma_map_sum_remove(m: Map<Seq<u8>, LeafData>, k: Seq<u8>)
    requires
        m.dom().finite(),
        m.dom().contains(k),
    ensures
        map_sum(m) == m[k].sum + map_sum(m.remove(k)),
    decreases m.dom().len(),
{
    let c = m.dom().choose();
    assert(m.dom().contains(c));
    if c == k {
    } else {
        lemma_map_sum_remove(m.remove(c), k);
        lemma_map_sum_remove(m.remove(k), c);
        assert(m.remove(c).remove(k) =~= m.remove(k).remove(c));
        assert(map_sum(m) == m[c].sum + map_sum(m.remove(c)));
        assert(map_sum(m.remove(c)) == m[k].sum + map_sum(m.remove(c).remove(k)));
        assert(m.remove(k).dom().len() != 0);
        assert(map_sum(m.remove(k)) == m[c].sum + map_sum(m.remove(k).remove(c)));
    }
}

/// The sum of a union of entry maps with no common key is the sum of the
/// parts.
proof fn lemma_map_sum_disjoint_union(m1: Map<Seq<u8>, LeafData>, m2: Map<Seq<u8>, LeafData>)
    requires
        m1.dom().finite(),
        m2.dom().finite(),
        forall|k: Seq<u8>| !(m1.dom().contains(k) && m2.dom().contains(k)),
    ensures
        map_sum(m1.union_prefer_right(m2)) == map_sum(m1) + map_sum(m2),
    decreases m2.dom().len(),
{
    let u = m1.union_prefer_right(m2);
    assert(u.dom() =~= m1.dom() + m2.dom());
    vstd::set_lib::lemma_set_union_finite_iff(m1.dom(), m2.dom());
    if m2.dom().len() == 0 {
        assert(m2.dom() =~= Set::empty());
        assert(u =~= m1);
        assert(map_sum(m2) == 0);
    } else {
        let k = m2.dom().choose();
        assert(m2.dom().contains(k));
        assert(u.dom().contains(k));
        lemma_map_sum_remove(u, k);
        lemma_map_sum_remove(m2, k);
        assert(u.remove(k) =~= m1.union_prefer_right(m2.remove(k)));
        assert(u[k] == m2[k]);
        lemma_map_sum_disjoint_union(m1, m2.remove(k));
    }
}

/// A node's entries form a finite map.
pub proof fn lemma_contents_finite(n: Node)
    ensures
        n.contents().dom().finite(),
    decreases n,
{
    match n {
        Node::Leaf(l) => {},
        Node::Branch(b) => {
            lemma_contents_finite(*b.left);
            lemma_contents_finite(*b.right);
            assert(n.contents().dom() =~= b.left.contents().dom() + b.right.contents().dom());
            vstd::set_lib::lemma_set_union_finite_iff(
                b.left.contents().dom(),
                b.right.contents().dom(),
            );
        },
        Node::Computed(c) => {},
    }
}

/// Sum conservation: a well-formed subtree's sum is exactly the sum of the
/// entry sums it holds.
pub proof fn lemma_sum_is_map_sum(n: Node, depth: int)
    requires
        n.wf_at(depth),
    ensures
        n.sum_of() == map_sum(n.contents()),
    decreases n,
{
    match n {
        Node::Leaf(l) => {
            if l.key@ == zero_key() && l.value@ == Seq::<u8>::empty() && l.sum == 0 {
                assert(n.contents().dom().len() == 0);
            } else {
                let m = n.contents();
                assert(m.dom().contains(l.key@));
                assert(m.dom() =~= Set::empty().insert(l.key@));
                lemma_map_sum_remove(m, l.key@);
                assert(m.remove(l.key@).dom() =~= Set::empty());
                assert(m.remove(l.key@).dom().len() == 0);
            }
        },
        Node::Branch(b) => {
            lemma_sum_is_map_sum(*b.left, depth + 1);
            lemma_sum_is_map_sum(*b.right, depth + 1);
            lemma_contents_finite(*b.left);
            lemma_contents_finite(*b.right);
            assert forall|k: Seq<u8>|
                !(#[trigger] b.left.contents().dom().contains(k)
                    && b.right.contents().dom().contains(k)) by {
                if b.left.contents().dom().contains(k) && b.right.contents().dom().contains(k) {
                    assert(!key_bit(k, depth));
                    assert(key_bit(k, depth));
                }
            }
            lemma_map_sum_disjoint_union(b.left.contents(), b.right.contents());
        },
        Node::Computed(c) => {
            assert(n.contents().dom().len() == 0);
        },
    }
}

} // verus!
