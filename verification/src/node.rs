//! Node model for the Merkle-Sum Sparse Merkle Tree.
//!
//! A tree node is either a leaf carrying a key, a value and a sum, a branch
//! over two child nodes, or a computed node standing for a subtree that is
//! known only by its hash and sum. Every node commits to a SHA-256 hash and
//! to the sum of all leaf sums below it; branches store both eagerly, so
//! reading them never recomputes a digest.
//!
//! The module also defines the precomputed table of empty-subtree hashes
//! ([`EmptyTree`]) and the key bit accessor ([`bit_index`]).

use crate::hash_utils::{be64, push_bytes, sha256, sha256_of, u64_be_bytes};
use vstd::prelude::*;

verus! {

/// Number of bytes in a node hash and in a key.
pub const HASH_SIZE: usize = 32;

/// Number of levels below the root: one per key bit.
pub const MAX_TREE_LEVELS: usize = 256;

/// The 32-byte hash identifying a node.
#[derive(Clone, Copy, Debug, PartialEq, Eq, Hash)]
pub struct NodeHash(pub [u8; 32]);

impl View for NodeHash {
    type V = Seq<u8>;

    open spec fn view(&self) -> Seq<u8> {
        self.0@
    }
}

impl NodeHash {
    /// Creates a new `NodeHash` from a byte array.
    pub fn new(bytes: [u8; 32]) -> (r: Self)
        ensures
            r@ == bytes@,
    {
        NodeHash(bytes)
    }

    /// Returns a `NodeHash` with all zeros.
    pub fn zero() -> (r: Self)
        ensures
            r@ == zero_key(),
    {
        let r = NodeHash([0u8; 32]);
        proof {
            assert(r@ =~= zero_key());
        }
        r
    }

    /// Returns the inner byte array.
    pub fn as_bytes(&self) -> (r: &[u8; 32])
        ensures
            r@ == self@,
    {
        &self.0
    }
}

/// Compares two hashes byte for byte.
pub(crate) fn hashes_equal(a: &NodeHash, b: &NodeHash) -> (r: bool)
    ensures
        r == (a@ == b@),
{
    let mut i: usize = 0;
    while i < 32
        invariant
            i <= 32,
            forall|j: int| 0 <= j < i ==> a@[j] == b@[j],
        decreases 32 - i,
    {
        if a.0[i] != b.0[i] {
            proof {
                assert(a@[i as int] != b@[i as int]);
            }
            return false;
        }
        i = i + 1;
    }
    proof {
        assert(a@ =~= b@);
    }
    true
}

/// The all-zero 32-byte sequence: the conventional key of the empty leaf.
pub open spec fn zero_key() -> Seq<u8> {
    Seq::new(32, |i: int| 0u8)
}

/// The bit of `key` at position `idx`, most-significant bit first: bit `idx`
/// selects the child at depth `idx` (false = left, true = right).
pub open spec fn key_bit(key: Seq<u8>, idx: int) -> bool {
    (key[idx / 8] >> ((7 - (idx % 8)) as u8)) & 1 == 1
}

/// Returns the bit at a given index in a 32-byte key.
///
/// The bits are indexed from 0 (most significant bit of the first byte) to
/// 255 (least significant bit of the last byte).
pub fn bit_index(idx: usize, key: &[u8; 32]) -> (r: u8)
    requires
        idx < 256,
    ensures
        r == 0 || r == 1,
        (r == 1) == key_bit(key@, idx as int),
{
    let byte_val = key[idx / 8];
    let shift = (7 - (idx % 8)) as u8;
    let r = (byte_val >> shift) & 1;
    proof {
        assert((byte_val >> shift) & 1 == 0 || (byte_val >> shift) & 1 == 1) by (bit_vector);
    }
    r
}

/// The two keys agree on every bit strictly below `upto`.
pub open spec fn keys_agree_below(k1: Seq<u8>, k2: Seq<u8>, upto: int) -> bool {
    forall|i: int| 0 <= i < upto ==> (#[trigger] key_bit(k1, i)) == key_bit(k2, i)
}

/// Compares two keys byte for byte.
pub(crate) fn keys_equal(a: &[u8; 32], b: &[u8; 32]) -> (r: bool)
    ensures
        r == (a@ == b@),
{
    let mut i: usize = 0;
    while i < 32
        invariant
            i <= 32,
            forall|j: int| 0 <= j < i ==> a@[j] == b@[j],
        decreases 32 - i,
    {
        if a[i] != b[i] {
            proof {
                assert(a@[i as int] != b@[i as int]);
            }
            return false;
        }
        i = i + 1;
    }
    proof {
        assert(a@ =~= b@);
    }
    true
}

/// The data a leaf associates with a key: the stored value bytes and the sum.
pub struct LeafData {
    pub value: Seq<u8>,
    pub sum: u64,
}

/// The hash framing of a leaf: `SHA256(key || value || be64(sum))`.
pub open spec fn leaf_hash(key: Seq<u8>, value: Seq<u8>, sum: u64) -> Seq<u8> {
    sha256_of(key + value + be64(sum))
}

/// The hash of the canonical empty leaf: all-zero key, empty value, zero sum.
pub open spec fn empty_leaf_hash() -> Seq<u8> {
    leaf_hash(zero_key(), Seq::empty(), 0)
}

/// The hash framing of a branch: `SHA256(left_hash || right_hash || be64(sum))`.
pub open spec fn branch_hash(left: Seq<u8>, right: Seq<u8>, sum: u64) -> Seq<u8> {
    sha256_of(left + right + be64(sum))
}

/// The hash of the empty subtree rooted at `depth`: the empty leaf at depth
/// 256, and at every level above, the branch of two empty subtrees with sum
/// zero.
pub open spec fn empty_hash(depth: int) -> Seq<u8>
    decreases 256 - depth,
    when depth <= 256
{
    if depth == 256 {
        empty_leaf_hash()
    } else {
        branch_hash(empty_hash(depth + 1), empty_hash(depth + 1), 0)
    }
}

/// A leaf node: a key, its value bytes, and its sum, with the leaf hash
/// computed once at construction.
pub struct LeafNode {
    /// The hash of the leaf under the leaf framing.
    pub node_hash: NodeHash,
    /// The 32-byte key; its bits spell the path from the root to the leaf.
    pub key: [u8; 32],
    /// The value bytes stored under the key.
    pub value: Vec<u8>,
    /// The sum carried by the leaf.
    pub sum: u64,
}

/// A branch node over two children, with the combined hash and sum computed
/// once at construction.
pub struct BranchNode {
    /// The hash of the branch under the branch framing.
    pub node_hash: NodeHash,
    /// The combined sum of the two children.
    pub sum: u64,
    /// The left child (key bit 0).
    pub left: Box<Node>,
    /// The right child (key bit 1).
    pub right: Box<Node>,
}

/// A node known only by its hash and sum, standing for a subtree that is not
/// materialized: an empty subtree inside a tree, or a proof sibling.
pub struct ComputedNode {
    /// The claimed hash of the subtree.
    pub hash: NodeHash,
    /// The claimed sum of the subtree.
    pub sum: u64,
}

/// A node of the Merkle-Sum Sparse Merkle Tree.
pub enum Node {
    /// A leaf entry (only ever at depth 256).
    Leaf(LeafNode),
    /// An interior node with two children.
    Branch(BranchNode),
    /// A subtree known by hash and sum alone.
    Computed(ComputedNode),
}

impl Node {
    /// The mathematical sum of a node: its leaf sums added up, or the declared
    /// sum of a computed node.
    pub open spec fn sum_of(self) -> int
        decreases self,
    {
        match self {
            Node::Leaf(l) => l.sum as int,
            Node::Branch(b) => b.left.sum_of() + b.right.sum_of(),
            Node::Computed(c) => c.sum as int,
        }
    }

    /// The hash a node commits to, recomputed from the framings.
    pub open spec fn hash_of(self) -> Seq<u8>
        decreases self,
    {
        match self {
            Node::Leaf(l) => leaf_hash(l.key@, l.value@, l.sum),
            Node::Branch(b) => branch_hash(
                b.left.hash_of(),
                b.right.hash_of(),
                (b.left.sum_of() + b.right.sum_of()) as u64,
            ),
            Node::Computed(c) => c.hash@,
        }
    }

    /// The key-value-sum entries a node represents. The canonical empty leaf
    /// and computed stand-ins represent no entries.
    pub open spec fn contents(self) -> Map<Seq<u8>, LeafData>
        decreases self,
    {
        match self {
            Node::Leaf(l) => if l.key@ == zero_key() && l.value@ == Seq::<u8>::empty() && l.sum
                == 0 {
                Map::empty()
            } else {
                Map::empty().insert(l.key@, LeafData { value: l.value@, sum: l.sum })
            },
            Node::Branch(b) => b.left.contents().union_prefer_right(b.right.contents()),
            Node::Computed(c) => Map::empty(),
        }
    }

    /// The cached hash and sum fields agree with the recomputed values, at
    /// every level of the node, and no branch sum overflows.
    pub open spec fn inv(self) -> bool
        decreases self,
    {
        match self {
            Node::Leaf(l) => l.node_hash@ == leaf_hash(l.key@, l.value@, l.sum),
            Node::Branch(b) => {
                &&& b.left.inv()
                &&& b.right.inv()
                &&& b.left.sum_of() + b.right.sum_of() <= u64::MAX
                &&& b.sum == b.left.sum_of() + b.right.sum_of()
                &&& b.node_hash@ == branch_hash(b.left.hash_of(), b.right.hash_of(), b.sum)
            },
            Node::Computed(c) => true,
        }
    }

    /// Structural well-formedness of a node standing at `depth`: leaves only
    /// at depth 256, every key below a branch following the branch's bit,
    /// branch sums in range, no branch over an entirely empty subtree, and
    /// computed stand-ins only for the empty subtree of their depth.
    pub open spec fn wf_at(self, depth: int) -> bool
        decreases self,
    {
        match self {
            Node::Leaf(l) => depth == 256,
            Node::Branch(b) => {
                &&& 0 <= depth < 256
                &&& b.left.wf_at(depth + 1)
                &&& b.right.wf_at(depth + 1)
                &&& forall|k: Seq<u8>| #[trigger]
                    b.left.contents().dom().contains(k) ==> !key_bit(k, depth)
                &&& forall|k: Seq<u8>| #[trigger]
                    b.right.contents().dom().contains(k) ==> key_bit(k, depth)
                &&& b.left.sum_of() + b.right.sum_of() <= u64::MAX
                &&& self.contents() != Map::<Seq<u8>, LeafData>::empty()
            },
            Node::Computed(c) => c.hash@ == empty_hash(depth) && c.sum == 0,
        }
    }

    /// Returns the hash of the node. For well-formed nodes this is the hash
    /// the node commits to under the framings of the tree.
    pub fn node_hash(&self) -> (r: NodeHash)
        ensures
            self.inv() ==> r@ == self.hash_of(),
    {
        match self {
            Node::Leaf(l) => l.node_hash,
            Node::Branch(b) => b.node_hash,
            Node::Computed(c) => c.hash,
        }
    }

    /// Returns the sum of the node.
    pub fn node_sum(&self) -> (r: u64)
        ensures
            self.inv() ==> r as int == self.sum_of(),
    {
        match self {
            Node::Leaf(l) => l.sum,
            Node::Branch(b) => b.sum,
            Node::Computed(c) => c.sum,
        }
    }
}

/// Computes the leaf framing hash for the given fields.
pub(crate) fn leaf_hash_bytes(key: &[u8; 32], value: &Vec<u8>, sum: u64) -> (h: NodeHash)
    ensures
        h@ == leaf_hash(key@, value@, sum),
{
    let mut buf: Vec<u8> = Vec::new();
    push_bytes(&mut buf, key.as_slice());
    push_bytes(&mut buf, value.as_slice());
    let sum_bytes = u64_be_bytes(sum);
    push_bytes(&mut buf, sum_bytes.as_slice());
    proof {
        assert(buf@ =~= key@ + value@ + be64(sum));
    }
    NodeHash(sha256(&buf))
}

/// Computes the branch framing hash for the given child hashes and sum.
pub(crate) fn branch_hash_bytes(left: &NodeHash, right: &NodeHash, sum: u64) -> (h: NodeHash)
    ensures
        h@ == branch_hash(left@, right@, sum),
{
    let mut buf: Vec<u8> = Vec::new();
    push_bytes(&mut buf, left.0.as_slice());
    push_bytes(&mut buf, right.0.as_slice());
    let sum_bytes = u64_be_bytes(sum);
    push_bytes(&mut buf, sum_bytes.as_slice());
    proof {
        assert(buf@ =~= left@ + right@ + be64(sum));
    }
    NodeHash(sha256(&buf))
}

impl LeafNode {
    /// Creates a new leaf node, computing its hash.
    pub fn new(key: [u8; 32], value: Vec<u8>, sum: u64) -> (r: LeafNode)
        ensures
            r.key == key,
            r.value@ == value@,
            r.sum == sum,
            Node::Leaf(r).inv(),
    {
        let node_hash = leaf_hash_bytes(&key, &value, sum);
        LeafNode { node_hash, key, value, sum }
    }

    /// The canonical empty leaf: all-zero key, empty value, zero sum.
    pub fn empty() -> (r: LeafNode)
        ensures
            r.key@ == zero_key(),
            r.value@ == Seq::<u8>::empty(),
            r.sum == 0,
            Node::Leaf(r).inv(),
    {
        let r = LeafNode::new([0u8; 32], Vec::new(), 0);
        proof {
            assert(r.key@ =~= zero_key());
            assert(r.value@ =~= Seq::<u8>::empty());
        }
        r
    }

    /// Checks whether the leaf carries no value and zero sum.
    pub fn is_empty(&self) -> (r: bool)
        ensures
            r == (self.value@.len() == 0 && self.sum == 0),
    {
        self.value.len() == 0 && self.sum == 0
    }

    /// Returns the value of the leaf node.
    pub fn value(&self) -> (r: &Vec<u8>)
        ensures
            r@ == self.value@,
    {
        &self.value
    }
}

impl BranchNode {
    /// Creates a new branch over the two children, computing the combined
    /// sum and hash.
    pub fn new(left: Node, right: Node) -> (r: BranchNode)
        requires
            left.inv(),
            right.inv(),
            left.sum_of() + right.sum_of() <= u64::MAX,
        ensures
            *r.left == left,
            *r.right == right,
            r.sum as int == left.sum_of() + right.sum_of(),
            Node::Branch(r).inv(),
    {
        let sum = left.node_sum() + right.node_sum();
        let node_hash = branch_hash_bytes(&left.node_hash(), &right.node_hash(), sum);
        BranchNode { node_hash, sum, left: Box::new(left), right: Box::new(right) }
    }
}

impl ComputedNode {
    /// Creates a new computed node from a known hash and sum.
    pub fn new(hash: NodeHash, sum: u64) -> (r: Self)
        ensures
            r.hash == hash,
            r.sum == sum,
    {
        ComputedNode { hash, sum }
    }
}

/// The second node is a faithful copy of the first: same variant, same hash,
/// sum and entries, equally well cached and equally well formed at every
/// depth; leaves agree on their fields and branches on their children's
/// hashes and sums.
pub open spec fn equiv(a: Node, b: Node) -> bool {
    &&& b.hash_of() == a.hash_of()
    &&& b.sum_of() == a.sum_of()
    &&& b.contents() == a.contents()
    &&& b.inv() == a.inv()
    &&& forall|d: int| a.wf_at(d) == #[trigger] b.wf_at(d)
    &&& match (a, b) {
        (Node::Leaf(x), Node::Leaf(y)) => x.key@ == y.key@ && x.value@ == y.value@ && x.sum
            == y.sum && x.node_hash@ == y.node_hash@,
        (Node::Branch(x), Node::Branch(y)) => {
            &&& x.sum == y.sum
            &&& x.node_hash@ == y.node_hash@
            &&& x.left.hash_of() == y.left.hash_of()
            &&& x.left.sum_of() == y.left.sum_of()
            &&& x.right.hash_of() == y.right.hash_of()
            &&& x.right.sum_of() == y.right.sum_of()
        },
        (Node::Computed(x), Node::Computed(y)) => x.hash@ == y.hash@ && x.sum == y.sum,
        _ => false,
    }
}

/// Copies a byte vector.
pub(crate) fn copy_vec(v: &Vec<u8>) -> (r: Vec<u8>)
    ensures
        r@ == v@,
{
    let mut r: Vec<u8> = Vec::new();
    let mut i: usize = 0;
    while i < v.len()
        invariant
            i <= v@.len(),
            r@ == v@.subrange(0, i as int),
        decreases v@.len() - i,
    {
        r.push(v[i]);
        i = i + 1;
        proof {
            assert(r@ =~= v@.subrange(0, i as int));
        }
    }
    proof {
        assert(v@.subrange(0, v@.len() as int) =~= v@);
    }
    r
}

impl Node {
    /// Creates a deep copy of the node.
    pub fn copy(&self) -> (r: Node)
        ensures
            equiv(*self, r),
        decreases *self,
    {
        match self {
            Node::Leaf(l) => Node::Leaf(l.copy()),
            Node::Branch(b) => Node::Branch(b.copy()),
            Node::Computed(c) => Node::Computed(ComputedNode { hash: c.hash, sum: c.sum }),
        }
    }
}

impl LeafNode {
    /// Creates a deep copy of the leaf node.
    pub fn copy(&self) -> (r: LeafNode)
        ensures
            r.key == self.key,
            r.value@ == self.value@,
            r.sum == self.sum,
            r.node_hash == self.node_hash,
            equiv(Node::Leaf(*self), Node::Leaf(r)),
    {
        let r = LeafNode {
            node_hash: self.node_hash,
            key: self.key,
            value: copy_vec(&self.value),
            sum: self.sum,
        };
        proof {
            assert forall|d: int|
                Node::Leaf(*self).wf_at(d) == #[trigger] Node::Leaf(r).wf_at(d) by {}
        }
        r
    }
}

impl BranchNode {
    /// Creates a deep copy of the branch node.
    pub fn copy(&self) -> (r: BranchNode)
        ensures
            equiv(Node::Branch(*self), Node::Branch(r)),
        decreases *self,
    {
        let left = self.left.copy();
        let right = self.right.copy();
        let r = BranchNode {
            node_hash: self.node_hash,
            sum: self.sum,
            left: Box::new(left),
            right: Box::new(right),
        };
        proof {
            assert forall|d: int|
                Node::Branch(*self).wf_at(d) == #[trigger] Node::Branch(r).wf_at(d) by {
                assert(self.left.wf_at(d + 1) == left.wf_at(d + 1));
                assert(self.right.wf_at(d + 1) == right.wf_at(d + 1));
            }
        }
        r
    }
}

/// The precomputed empty-subtree table: entry `d` holds the hash of the
/// empty subtree rooted at depth `d`. The sum of every empty subtree is zero.
pub struct EmptyTree {
    /// Hashes of the empty subtrees, indexed by depth `0..=256`.
    pub hashes: Vec<NodeHash>,
}

impl EmptyTree {
    /// The table holds all 257 empty-subtree hashes.
    pub open spec fn wf(self) -> bool {
        &&& self.hashes@.len() == 257
        &&& forall|d: int| 0 <= d <= 256 ==> #[trigger] self.hashes@[d]@ == empty_hash(d)
    }

    /// Builds the table, hashing from the empty leaf at depth 256 up to the
    /// root of the fully empty tree at depth 0.
    pub fn new() -> (r: EmptyTree)
        ensures
            r.wf(),
    {
        let empty_leaf = LeafNode::empty();
        // rev[i] holds the hash of the empty subtree at depth 256 - i.
        let mut rev: Vec<NodeHash> = Vec::new();
        rev.push(empty_leaf.node_hash);
        let mut i: usize = 1;
        while i <= 256
            invariant
                1 <= i <= 257,
                rev@.len() == i,
                forall|j: int| 0 <= j < i ==> #[trigger] rev@[j]@ == empty_hash(256 - j),
            decreases 257 - i,
        {
            let prev = rev[i - 1];
            let h = branch_hash_bytes(&prev, &prev, 0);
            rev.push(h);
            i = i + 1;
        }
        let mut hashes: Vec<NodeHash> = Vec::new();
        let mut d: usize = 0;
        while d <= 256
            invariant
                d <= 257,
                rev@.len() == 257,
                forall|j: int| 0 <= j < 257 ==> #[trigger] rev@[j]@ == empty_hash(256 - j),
                hashes@.len() == d,
                forall|j: int| 0 <= j < d ==> #[trigger] hashes@[j]@ == empty_hash(j),
            decreases 257 - d,
        {
            hashes.push(rev[256 - d]);
            d = d + 1;
        }
        EmptyTree { hashes }
    }

    /// The hash of the empty subtree at the given depth.
    pub fn hash_at(&self, depth: usize) -> (r: NodeHash)
        requires
            self.wf(),
            depth <= 256,
        ensures
            r@ == empty_hash(depth as int),
    {
        self.hashes[depth]
    }

    /// A computed node standing for the empty subtree at the given depth.
    pub fn node_at(&self, depth: usize) -> (r: Node)
        requires
            self.wf(),
            depth <= 256,
        ensures
            r.wf_at(depth as int),
            r.inv(),
            r.contents() == Map::<Seq<u8>, LeafData>::empty(),
            r.sum_of() == 0,
            r.hash_of() == empty_hash(depth as int),
    {
        Node::Computed(ComputedNode::new(self.hashes[depth], 0))
    }
}

/// Every key a node's contents contain is 32 bytes long.
pub proof fn lemma_contents_key_len(n: Node)
    ensures
        forall|k: Seq<u8>| #[trigger] n.contents().dom().contains(k) ==> k.len() == 32,
    decreases n,
{
    match n {
        Node::Leaf(l) => {
            assert(l.key@.len() == 32);
            assert forall|k: Seq<u8>| #[trigger] n.contents().dom().contains(k) implies k.len()
                == 32 by {
                if l.key@ == zero_key() && l.value@ == Seq::<u8>::empty() && l.sum == 0 {
                    assert(!n.contents().dom().contains(k));
                } else {
                    assert(n.contents() == Map::empty().insert(
                        l.key@,
                        LeafData { value: l.value@, sum: l.sum },
                    ));
                    assert(k == l.key@);
                }
            }
        },
        Node::Branch(b) => {
            lemma_contents_key_len(*b.left);
            lemma_contents_key_len(*b.right);
            assert forall|k: Seq<u8>| #[trigger] n.contents().dom().contains(k) implies k.len()
                == 32 by {
                assert(b.left.contents().dom().contains(k) || b.right.contents().dom().contains(
                    k,
                ));
            }
        },
        Node::Computed(c) => {},
    }
}

/// A node's sum is never negative.
pub proof fn lemma_sum_of_nonneg(n: Node)
    ensures
        n.sum_of() >= 0,
    decreases n,
{
    match n {
        Node::Leaf(l) => {},
        Node::Branch(b) => {
            lemma_sum_of_nonneg(*b.left);
            lemma_sum_of_nonneg(*b.right);
        },
        Node::Computed(c) => {},
    }
}

/// The sum of a cached node fits in 64 bits.
pub proof fn lemma_sum_of_bounded(n: Node)
    requires
        n.inv(),
    ensures
        0 <= n.sum_of() <= u64::MAX,
{
    lemma_sum_of_nonneg(n);
    match n {
        Node::Leaf(l) => {},
        Node::Branch(b) => {},
        Node::Computed(c) => {},
    }
}

/// Two bytes that agree on all eight bits are equal.
proof fn lemma_byte_bits(a: u8, b: u8)
    requires
        forall|j: u8| j < 8 ==> ((#[trigger] (a >> j)) & 1) == ((b >> j) & 1),
    ensures
        a == b,
{
    assert((a >> 0u8) & 1 == (b >> 0u8) & 1);
    assert((a >> 1u8) & 1 == (b >> 1u8) & 1);
    assert((a >> 2u8) & 1 == (b >> 2u8) & 1);
    assert((a >> 3u8) & 1 == (b >> 3u8) & 1);
    assert((a >> 4u8) & 1 == (b >> 4u8) & 1);
    assert((a >> 5u8) & 1 == (b >> 5u8) & 1);
    assert((a >> 6u8) & 1 == (b >> 6u8) & 1);
    assert((a >> 7u8) & 1 == (b >> 7u8) & 1);
    assert(a == b) by (bit_vector)
        requires
            (a >> 0u8) & 1 == (b >> 0u8) & 1,
            (a >> 1u8) & 1 == (b >> 1u8) & 1,
            (a >> 2u8) & 1 == (b >> 2u8) & 1,
            (a >> 3u8) & 1 == (b >> 3u8) & 1,
            (a >> 4u8) & 1 == (b >> 4u8) & 1,
            (a >> 5u8) & 1 == (b >> 5u8) & 1,
            (a >> 6u8) & 1 == (b >> 6u8) & 1,
            (a >> 7u8) & 1 == (b >> 7u8) & 1,
    ;
}

/// Two 32-byte keys that agree on all 256 bits are equal.
pub proof fn lemma_key_bits_determine(k1: Seq<u8>, k2: Seq<u8>)
    requires
        k1.len() == 32,
        k2.len() == 32,
        forall|i: int| 0 <= i < 256 ==> #[trigger] key_bit(k1, i) == key_bit(k2, i),
    ensures
        k1 == k2,
{
    assert forall|bi: int| 0 <= bi < 32 implies k1[bi] == k2[bi] by {
        let a = k1[bi];
        let b = k2[bi];
        assert forall|j: u8| j < 8 implies ((#[trigger] (a >> j)) & 1) == ((b >> j) & 1) by {
            let i = bi * 8 + 7 - (j as int);
            assert(0 <= i < 256) by (nonlinear_arith)
                requires
                    i == bi * 8 + 7 - (j as int),
                    0 <= bi < 32,
                    0 <= j < 8,
            ;
            assert(i / 8 == bi && i % 8 == 7 - (j as int)) by (nonlinear_arith)
                requires
                    i == bi * 8 + 7 - (j as int),
                    0 <= j < 8,
                    0 <= bi,
            ;
            assert(key_bit(k1, i) == key_bit(k2, i));
            assert((7 - (i % 8)) as u8 == j);
            assert(((a >> j) & 1 == 1) == ((b >> j) & 1 == 1));
            assert((a >> j) & 1 == 0 || (a >> j) & 1 == 1) by (bit_vector);
            assert((b >> j) & 1 == 0 || (b >> j) & 1 == 1) by (bit_vector);
        }
        lemma_byte_bits(a, b);
    }
    assert(k1 =~= k2);
}

} // verus!
