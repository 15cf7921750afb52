//! Merkle proof structures and verification.
//!
//! A proof carries the 256 sibling nodes along the path from a key's leaf to
//! the root, root-side first; a verifier consumes them in reverse, rebuilding
//! one branch per level from local data alone. Each sibling contributes its
//! hash and its sum, so the rebuilt root authenticates both the entry and the
//! tree's total sum. Rebuilding never wraps: a proof whose running sums
//! exceed 64 bits does not verify.

use crate::node::{
    bit_index, branch_hash, branch_hash_bytes, hashes_equal, key_bit, leaf_hash,
    lemma_sum_of_nonneg, ComputedNode, LeafData, LeafNode, Node, NodeHash,
};
use crate::tree::entry_sum;
use vstd::prelude::*;

verus! {

/// The hash and sum snapshots of the given sibling nodes.
pub open spec fn sibling_views(nodes: Seq<Node>) -> Seq<(Seq<u8>, int)> {
    nodes.map(|i: int, n: Node| (n.hash_of(), n.sum_of()))
}

/// The sums of the given sibling nodes.
pub open spec fn sibling_sums(nodes: Seq<Node>) -> Seq<int> {
    nodes.map(|i: int, n: Node| n.sum_of())
}

/// Folds a leaf's hash and sum up through sibling snapshots. Snapshot `j`
/// stands at depth `top + j`; the deepest sibling is combined first, and the
/// key's bit at each depth decides which side the climbing node takes.
/// `None` when a combined sum would exceed `u64::MAX`.
pub open spec fn reconstruct_upto(
    key: Seq<u8>,
    h: Seq<u8>,
    s: int,
    sibs: Seq<(Seq<u8>, int)>,
    top: int,
) -> Option<(Seq<u8>, int)>
    decreases sibs.len(),
{
    if sibs.len() == 0 {
        Some((h, s))
    } else {
        let j = sibs.len() - 1;
        let sib = sibs[j];
        if s + sib.1 > u64::MAX {
            None
        } else {
            let ns = s + sib.1;
            let nh = if key_bit(key, top + j) {
                branch_hash(sib.0, h, ns as u64)
            } else {
                branch_hash(h, sib.0, ns as u64)
            };
            reconstruct_upto(key, nh, ns, sibs.drop_last(), top)
        }
    }
}

/// The reconstruction of a full proof: sibling `i` stands at depth `i`.
pub open spec fn reconstruct(
    key: Seq<u8>,
    leaf_hash_v: Seq<u8>,
    leaf_sum: int,
    sibs: Seq<(Seq<u8>, int)>,
) -> Option<(Seq<u8>, int)> {
    reconstruct_upto(key, leaf_hash_v, leaf_sum, sibs, 0)
}

/// Whether the running sums of a reconstruction stay within 64 bits. The
/// outcome depends on the sums alone, never on a hash.
pub open spec fn sums_fit(s: int, sums: Seq<int>) -> bool
    decreases sums.len(),
{
    if sums.len() == 0 {
        true
    } else {
        s + sums.last() <= u64::MAX && sums_fit(s + sums.last(), sums.drop_last())
    }
}

/// A reconstruction yields a value exactly when its running sums fit.
pub proof fn lemma_reconstruct_is_some(
    key: Seq<u8>,
    h: Seq<u8>,
    s: int,
    sibs: Seq<(Seq<u8>, int)>,
    top: int,
)
    ensures
        (reconstruct_upto(key, h, s, sibs, top) is Some) == sums_fit(
            s,
            sibs.map(|i: int, p: (Seq<u8>, int)| p.1),
        ),
    decreases sibs.len(),
{
    let sums = sibs.map(|i: int, p: (Seq<u8>, int)| p.1);
    if sibs.len() == 0 {
    } else {
        let j = sibs.len() - 1;
        let sib = sibs[j];
        assert(sums.last() == sib.1);
        if s + sib.1 > u64::MAX {
        } else {
            let ns = s + sib.1;
            let nh = if key_bit(key, top + j) {
                branch_hash(sib.0, h, ns as u64)
            } else {
                branch_hash(h, sib.0, ns as u64)
            };
            lemma_reconstruct_is_some(key, nh, ns, sibs.drop_last(), top);
            assert(sibs.drop_last().map(|i: int, p: (Seq<u8>, int)| p.1) =~= sums.drop_last());
        }
    }
}

/// The hash of the leaf standing at `key` in a tree holding the entries `m`:
/// the entry's leaf hash when the key is present, the empty leaf's hash
/// otherwise.
pub open spec fn leaf_hash_at(m: Map<Seq<u8>, LeafData>, key: Seq<u8>) -> Seq<u8> {
    if m.dom().contains(key) {
        leaf_hash(key, m[key].value, m[key].sum)
    } else {
        crate::node::empty_leaf_hash()
    }
}

/// Proof soundness and proof of absence: a reconstruction that rebuilds a
/// root from the leaf standing at `key` in the entries `m` — the entry's
/// leaf when the key is present, the empty leaf when it is absent — is
/// exactly what verification recomputes from that leaf, so such a proof
/// verifies against that root hash.
pub proof fn lemma_proof_soundness(
    m: Map<Seq<u8>, LeafData>,
    key: Seq<u8>,
    leaf: LeafNode,
    sibs: Seq<(Seq<u8>, int)>,
    rh: Seq<u8>,
    ts: int,
)
    requires
        reconstruct(key, leaf_hash_at(m, key), entry_sum(m, key), sibs) == Some((rh, ts)),
        m.dom().contains(key) ==> leaf.key@ == key && leaf.value@ == m[key].value && leaf.sum
            == m[key].sum,
        !m.dom().contains(key) ==> leaf.key@ == crate::node::zero_key() && leaf.value@ == Seq::<
            u8,
        >::empty() && leaf.sum == 0,
    ensures
        reconstruct(key, leaf_hash(leaf.key@, leaf.value@, leaf.sum), leaf.sum as int, sibs)
            matches Some(p) && p.0 == rh,
{
    assert(leaf_hash(leaf.key@, leaf.value@, leaf.sum) == leaf_hash_at(m, key));
    assert(leaf.sum as int == entry_sum(m, key));
}

/// Prepending a shallower sibling folds last: reconstructing `[first] + rest`
/// first folds `rest` at the depths below, then combines `first` at `top`.
pub proof fn lemma_reconstruct_prepend(
    key: Seq<u8>,
    h: Seq<u8>,
    s: int,
    first: (Seq<u8>, int),
    rest: Seq<(Seq<u8>, int)>,
    top: int,
)
    ensures
        reconstruct_upto(key, h, s, seq![first] + rest, top) == match reconstruct_upto(
            key,
            h,
            s,
            rest,
            top + 1,
        ) {
            Some(p) => if p.1 + first.1 > u64::MAX {
                None::<(Seq<u8>, int)>
            } else {
                Some(
                    (
                        if key_bit(key, top) {
                            branch_hash(first.0, p.0, (p.1 + first.1) as u64)
                        } else {
                            branch_hash(p.0, first.0, (p.1 + first.1) as u64)
                        },
                        p.1 + first.1,
                    ),
                )
            },
            None => None::<(Seq<u8>, int)>,
        },
    decreases rest.len(),
{
    let all = seq![first] + rest;
    if rest.len() == 0 {
        assert(all.len() == 1);
        assert(all[0] == first);
        assert(all.drop_last() =~= Seq::<(Seq<u8>, int)>::empty());
        assert(reconstruct_upto(key, h, s, rest, top + 1) == Some((h, s)));
        if s + first.1 > u64::MAX {
            assert(reconstruct_upto(key, h, s, all, top) is None);
        } else {
            let ns = s + first.1;
            let nh = if key_bit(key, top) {
                branch_hash(first.0, h, ns as u64)
            } else {
                branch_hash(h, first.0, ns as u64)
            };
            assert(reconstruct_upto(key, nh, ns, all.drop_last(), top) == Some((nh, ns)));
            assert(reconstruct_upto(key, h, s, all, top) == Some((nh, ns)));
        }
    } else {
        let j = all.len() - 1;
        assert(all[j] == rest[rest.len() - 1]);
        assert(all.drop_last() =~= seq![first] + rest.drop_last());
        if s + all[j].1 > u64::MAX {
            assert(reconstruct_upto(key, h, s, all, top) is None);
            assert(reconstruct_upto(key, h, s, rest, top + 1) is None);
        } else {
            let ns = s + all[j].1;
            let nh = if key_bit(key, top + j) {
                branch_hash(all[j].0, h, ns as u64)
            } else {
                branch_hash(h, all[j].0, ns as u64)
            };
            assert(reconstruct_upto(key, h, s, all, top) == reconstruct_upto(
                key,
                nh,
                ns,
                seq![first] + rest.drop_last(),
                top,
            ));
            assert((top + 1) + (rest.len() - 1) == top + j);
            assert(reconstruct_upto(key, h, s, rest, top + 1) == reconstruct_upto(
                key,
                nh,
                ns,
                rest.drop_last(),
                top + 1,
            ));
            lemma_reconstruct_prepend(key, nh, ns, first, rest.drop_last(), top);
        }
    }
}

/// The empty-sibling chain rebuilds the empty hashes: from the empty subtree
/// hash at depth `b`, the siblings for depths `d..b` (each an empty subtree
/// one level deeper) fold to the empty subtree hash at depth `d`, sum zero.
pub proof fn lemma_reconstruct_empty_chain(key: Seq<u8>, d: int, b: int)
    requires
        0 <= d <= b <= 256,
    ensures
        reconstruct_upto(
            key,
            crate::node::empty_hash(b),
            0,
            Seq::new((b - d) as nat, |j: int| (crate::node::empty_hash(d + j + 1), 0int)),
            d,
        ) == Some((crate::node::empty_hash(d), 0int)),
    decreases b - d,
{
    let sibs = Seq::new((b - d) as nat, |j: int| (crate::node::empty_hash(d + j + 1), 0int));
    if d == b {
    } else {
        let j = b - d - 1;
        assert(sibs[j] == (crate::node::empty_hash(b), 0int));
        let nh = if key_bit(key, d + j) {
            branch_hash(sibs[j].0, crate::node::empty_hash(b), 0u64)
        } else {
            branch_hash(crate::node::empty_hash(b), sibs[j].0, 0u64)
        };
        assert(nh == crate::node::empty_hash(b - 1));
        assert(sibs.drop_last() =~= Seq::new(
            (b - 1 - d) as nat,
            |j: int| (crate::node::empty_hash(d + j + 1), 0int),
        ));
        lemma_reconstruct_empty_chain(key, d, b - 1);
    }
}

/// A Merkle proof: the sibling nodes along the path from a key's leaf to the
/// root, ordered root-side first (the depth-0 sibling comes first).
pub struct Proof {
    /// The sibling nodes, one per depth `0..=255`.
    pub nodes: Vec<Node>,
}

impl Proof {
    /// Every sibling node carries correct hash and sum caches.
    pub open spec fn wf(self) -> bool {
        forall|i: int| 0 <= i < self.nodes@.len() ==> (#[trigger] self.nodes@[i]).inv()
    }

    /// Creates a new proof from sibling nodes.
    pub fn new(nodes: Vec<Node>) -> (r: Proof)
        ensures
            r.nodes == nodes,
    {
        Proof { nodes }
    }

    /// Folds the given leaf hash and sum up through the siblings, returning
    /// the rebuilt root hash and sum, or `None` when the proof is not 256
    /// siblings long or a sum overflows 64 bits.
    fn fold_to_root(&self, key: &[u8; 32], leaf_hash_v: NodeHash, leaf_sum: u64) -> (r: Option<
        (NodeHash, u64),
    >)
        ensures
            self.nodes@.len() != 256 ==> r is None,
            self.wf() && self.nodes@.len() == 256 ==> match r {
                Some((h, s)) => reconstruct(
                    key@,
                    leaf_hash_v@,
                    leaf_sum as int,
                    sibling_views(self.nodes@),
                ) == Some((h@, s as int)),
                None => reconstruct(
                    key@,
                    leaf_hash_v@,
                    leaf_sum as int,
                    sibling_views(self.nodes@),
                ) is None,
            },
    {
        if self.nodes.len() != 256 {
            return None;
        }
        let ghost sibs = sibling_views(self.nodes@);
        proof {
            assert(sibs.take(256) =~= sibs);
        }
        let mut cur_h = leaf_hash_v;
        let mut cur_s = leaf_sum;
        let mut i: usize = 256;
        while i > 0
            invariant
                i <= 256,
                self.nodes@.len() == 256,
                sibs == sibling_views(self.nodes@),
                self.wf() ==> reconstruct_upto(key@, leaf_hash_v@, leaf_sum as int, sibs, 0)
                    == reconstruct_upto(key@, cur_h@, cur_s as int, sibs.take(i as int), 0),
            decreases i,
        {
            i = i - 1;
            let sib = &self.nodes[i];
            let sh = sib.node_hash();
            let ss = sib.node_sum();
            proof {
                lemma_sum_of_nonneg(self.nodes@[i as int]);
                assert(sibs.take(i + 1).drop_last() =~= sibs.take(i as int));
                assert(sibs.take(i + 1).last() == sibs[i as int]);
            }
            if cur_s > u64::MAX - ss {
                proof {
                    if self.wf() {
                        assert(self.nodes@[i as int].inv());
                        assert(ss as int == sibs[i as int].1);
                        assert(reconstruct_upto(
                            key@,
                            cur_h@,
                            cur_s as int,
                            sibs.take(i + 1),
                            0,
                        ) is None);
                    }
                }
                return None;
            }
            let ns = cur_s + ss;
            let bit = bit_index(i, key);
            let nh = if bit == 1 {
                branch_hash_bytes(&sh, &cur_h, ns)
            } else {
                branch_hash_bytes(&cur_h, &sh, ns)
            };
            proof {
                if self.wf() {
                    assert(self.nodes@[i as int].inv());
                    assert(sh@ == sibs[i as int].0);
                    assert(ss as int == sibs[i as int].1);
                    assert(reconstruct_upto(key@, cur_h@, cur_s as int, sibs.take(i + 1), 0)
                        == reconstruct_upto(key@, nh@, ns as int, sibs.take(i as int), 0));
                }
            }
            cur_h = nh;
            cur_s = ns;
        }
        proof {
            assert(sibs.take(0) =~= Seq::<(Seq<u8>, int)>::empty());
        }
        Some((cur_h, cur_s))
    }

    /// Computes the root node the proof yields for the given leaf standing
    /// at `key`: a computed node carrying the rebuilt hash and sum.
    pub fn root(&self, key: [u8; 32], leaf: &LeafNode) -> (r: Node)
        requires
            self.wf(),
            self.nodes@.len() == 256,
            Node::Leaf(*leaf).inv(),
            sums_fit(leaf.sum as int, sibling_sums(self.nodes@)),
        ensures
            r.inv(),
            Some((r.hash_of(), r.sum_of())) == reconstruct(
                key@,
                leaf_hash(leaf.key@, leaf.value@, leaf.sum),
                leaf.sum as int,
                sibling_views(self.nodes@),
            ),
    {
        proof {
            lemma_reconstruct_is_some(
                key@,
                leaf_hash(leaf.key@, leaf.value@, leaf.sum),
                leaf.sum as int,
                sibling_views(self.nodes@),
                0,
            );
            assert(sibling_views(self.nodes@).map(|i: int, p: (Seq<u8>, int)| p.1)
                =~= sibling_sums(self.nodes@));
        }
        match self.fold_to_root(&key, leaf.node_hash, leaf.sum) {
            Some((h, s)) => Node::Computed(ComputedNode::new(h, s)),
            None => {
                proof {
                    assert(false);
                }
                vstd::pervasive::unreached()
            },
        }
    }

    /// Verifies the proof against a given root hash: reconstructs the root
    /// from the leaf and the siblings and compares. A proof that is not
    /// exactly 256 siblings long, or whose sums overflow, never verifies.
    pub fn verify(&self, key: [u8; 32], leaf: &LeafNode, root_hash: NodeHash) -> (r: bool)
        ensures
            self.nodes@.len() != 256 ==> r == false,
            self.wf() && Node::Leaf(*leaf).inv() && self.nodes@.len() == 256 ==> r == (
            reconstruct(
                key@,
                leaf_hash(leaf.key@, leaf.value@, leaf.sum),
                leaf.sum as int,
                sibling_views(self.nodes@),
            ) matches Some(p) && p.0 == root_hash@),
    {
        if self.nodes.len() != 256 {
            return false;
        }
        match self.fold_to_root(&key, leaf.node_hash, leaf.sum) {
            Some((h, s)) => hashes_equal(&h, &root_hash),
            None => false,
        }
    }
}

} // verus!
