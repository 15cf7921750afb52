use mssmt::hash_utils::to_array;
use mssmt::{
    BranchNode, ComputedNode, DefaultStore, EmptyTree, FullTree, LeafNode, Node, NodeHash, Proof,
    TreeError, TreeStore,
};
use sha2::{Digest, Sha256};

fn key_of(s: &[u8]) -> [u8; 32] {
    to_array(&Sha256::digest(s))
}

fn root_hash<S: mssmt::TreeStore>(tree: &FullTree<S>) -> NodeHash {
    tree.root().unwrap().node_hash()
}

#[test]
fn round_trip_many_keys() {
    // P1: after inserting distinct keys, every key reads back its own value
    // and sum, and absent keys read back nothing.
    let mut tree = FullTree::new(DefaultStore::new());
    let names: [&[u8]; 6] = [b"alpha", b"beta", b"gamma", b"delta", b"epsilon", b"zeta"];
    for (i, name) in names.iter().enumerate() {
        tree.insert(key_of(name), name.to_vec(), (i as u64 + 1) * 7)
            .unwrap();
    }
    for (i, name) in names.iter().enumerate() {
        let (value, sum) = tree.get(key_of(name)).unwrap().expect("inserted key");
        assert_eq!(value, name.to_vec());
        assert_eq!(sum, (i as u64 + 1) * 7);
    }
    assert!(tree.get(key_of(b"eta")).unwrap().is_none());
    assert!(tree.get([0u8; 32]).unwrap().is_none());
}

#[test]
fn sum_conservation() {
    // P2: the root sum tracks the sum of the present entries after every
    // insert and delete.
    let mut tree = FullTree::new(DefaultStore::new());
    assert_eq!(tree.root().unwrap().node_sum(), 0);

    tree.insert(key_of(b"a"), b"a".to_vec(), 5).unwrap();
    assert_eq!(tree.root().unwrap().node_sum(), 5);

    tree.insert(key_of(b"b"), b"b".to_vec(), 11).unwrap();
    assert_eq!(tree.root().unwrap().node_sum(), 16);

    // Overwriting replaces the old sum instead of adding to it.
    tree.insert(key_of(b"a"), b"a2".to_vec(), 2).unwrap();
    assert_eq!(tree.root().unwrap().node_sum(), 13);

    tree.delete(key_of(b"b")).unwrap();
    assert_eq!(tree.root().unwrap().node_sum(), 2);

    // Deleting an absent key changes nothing.
    tree.delete(key_of(b"c")).unwrap();
    assert_eq!(tree.root().unwrap().node_sum(), 2);
}

#[test]
fn insert_then_delete_restores_empty_root() {
    // P3: inserting a key and deleting it again leaves the empty root.
    let table = EmptyTree::new();
    let mut tree = FullTree::new(DefaultStore::new());
    assert_eq!(root_hash(&tree), table.hash_at(0));

    tree.insert(key_of(b"solo"), b"value".to_vec(), 99).unwrap();
    assert_ne!(root_hash(&tree), table.hash_at(0));

    tree.delete(key_of(b"solo")).unwrap();
    assert_eq!(root_hash(&tree), table.hash_at(0));
    assert_eq!(tree.root().unwrap().node_sum(), 0);
}

#[test]
fn insert_and_delete_idempotent() {
    // P4: a second identical insert, or a second delete, does not move the
    // root.
    let mut tree = FullTree::new(DefaultStore::new());
    tree.insert(key_of(b"x"), b"one".to_vec(), 1).unwrap();
    tree.insert(key_of(b"y"), b"two".to_vec(), 2).unwrap();
    let after_once = root_hash(&tree);
    tree.insert(key_of(b"y"), b"two".to_vec(), 2).unwrap();
    assert_eq!(root_hash(&tree), after_once);

    tree.delete(key_of(b"y")).unwrap();
    let after_delete = root_hash(&tree);
    tree.delete(key_of(b"y")).unwrap();
    assert_eq!(root_hash(&tree), after_delete);
}

#[test]
fn insertion_order_does_not_matter() {
    // P5: any order of the same insertions commits to the same root.
    let names: [&[u8]; 4] = [b"north", b"east", b"south", b"west"];
    let orders: [[usize; 4]; 3] = [[0, 1, 2, 3], [3, 2, 1, 0], [2, 0, 3, 1]];
    let mut hashes = Vec::new();
    for order in orders.iter() {
        let mut tree = FullTree::new(DefaultStore::new());
        for &i in order.iter() {
            tree.insert(key_of(names[i]), names[i].to_vec(), i as u64 + 1)
                .unwrap();
        }
        hashes.push(root_hash(&tree));
    }
    assert_eq!(hashes[0], hashes[1]);
    assert_eq!(hashes[0], hashes[2]);
}

#[test]
fn proofs_verify_for_every_present_key() {
    // P6: the proof for each present key verifies with that key's leaf.
    let mut tree = FullTree::new(DefaultStore::new());
    let names: [&[u8]; 5] = [b"p", b"q", b"r", b"s", b"t"];
    for (i, name) in names.iter().enumerate() {
        tree.insert(key_of(name), name.to_vec(), i as u64 + 1).unwrap();
    }
    let root = root_hash(&tree);
    for (i, name) in names.iter().enumerate() {
        let key = key_of(name);
        let proof = tree.merkle_proof(key).unwrap();
        let leaf = LeafNode::new(key, name.to_vec(), i as u64 + 1);
        assert!(proof.verify(key, &leaf, root));
    }
}

#[test]
fn forged_leaves_do_not_verify() {
    // P7: a leaf differing in value or in sum does not verify, nor does a
    // proof with a tampered sibling.
    let mut tree = FullTree::new(DefaultStore::new());
    let key = key_of(b"target");
    tree.insert(key, b"honest".to_vec(), 42).unwrap();
    tree.insert(key_of(b"noise"), b"noise".to_vec(), 7).unwrap();

    let root = root_hash(&tree);
    let proof = tree.merkle_proof(key).unwrap();

    let genuine = LeafNode::new(key, b"honest".to_vec(), 42);
    assert!(proof.verify(key, &genuine, root));

    let wrong_value = LeafNode::new(key, b"forged".to_vec(), 42);
    assert!(!proof.verify(key, &wrong_value, root));

    let wrong_sum = LeafNode::new(key, b"honest".to_vec(), 43);
    assert!(!proof.verify(key, &wrong_sum, root));

    // Tamper with one sibling's sum.
    let mut nodes: Vec<Node> = Vec::new();
    for (i, n) in proof.nodes.iter().enumerate() {
        if i == 200 {
            nodes.push(Node::Computed(ComputedNode::new(n.node_hash(), n.node_sum() + 1)));
        } else {
            nodes.push(Node::Computed(ComputedNode::new(n.node_hash(), n.node_sum())));
        }
    }
    let tampered = Proof::new(nodes);
    assert!(!tampered.verify(key, &genuine, root));
}

#[test]
fn absent_keys_verify_with_the_empty_leaf() {
    // P8: for an absent key the proof verifies with the empty leaf, and with
    // nothing else.
    let mut tree = FullTree::new(DefaultStore::new());
    tree.insert(key_of(b"present"), b"here".to_vec(), 3).unwrap();

    let absent = key_of(b"absent");
    let root = root_hash(&tree);
    let proof = tree.merkle_proof(absent).unwrap();
    assert!(proof.verify(absent, &LeafNode::empty(), root));

    let phantom = LeafNode::new(absent, b"ghost".to_vec(), 1);
    assert!(!proof.verify(absent, &phantom, root));
}

#[test]
fn proofs_always_have_256_siblings() {
    // P9: every generated proof has exactly 256 siblings, and a proof of any
    // other length never verifies.
    let mut tree = FullTree::new(DefaultStore::new());
    assert_eq!(tree.merkle_proof(key_of(b"empty")).unwrap().nodes.len(), 256);

    tree.insert(key_of(b"one"), b"1".to_vec(), 1).unwrap();
    tree.insert(key_of(b"two"), b"2".to_vec(), 2).unwrap();
    let proof = tree.merkle_proof(key_of(b"one")).unwrap();
    assert_eq!(proof.nodes.len(), 256);

    let root = root_hash(&tree);
    let leaf = LeafNode::new(key_of(b"one"), b"1".to_vec(), 1);
    let mut short_nodes: Vec<Node> = Vec::new();
    for n in proof.nodes.iter().take(255) {
        short_nodes.push(Node::Computed(ComputedNode::new(n.node_hash(), n.node_sum())));
    }
    let short = Proof::new(short_nodes);
    assert!(!short.verify(key_of(b"one"), &leaf, root));
}

#[test]
fn sum_overflow_is_detected() {
    // P10: a second large sum overflows, the insert fails with SumOverflow,
    // and the committed tree is unchanged.
    let mut tree = FullTree::new(DefaultStore::new());
    let k1 = key_of(b"first");
    let k2 = key_of(b"second");
    tree.insert(k1, b"a".to_vec(), 1u64 << 63).unwrap();
    let before = root_hash(&tree);

    let result = tree.insert(k2, b"b".to_vec(), 1u64 << 63);
    assert_eq!(result, Err(TreeError::SumOverflow));
    assert_eq!(root_hash(&tree), before);
    assert_eq!(tree.root().unwrap().node_sum(), 1u64 << 63);
    assert!(tree.get(k2).unwrap().is_none());

    // The exact top of the range is still representable.
    tree.insert(k2, b"b".to_vec(), (1u64 << 63) - 1).unwrap();
    assert_eq!(tree.root().unwrap().node_sum(), u64::MAX);
}

#[test]
fn leaf_hash_framing_is_exact() {
    // A leaf hashes key || value || be64(sum).
    let key = key_of(b"frame");
    let value = b"payload".to_vec();
    let sum = 77u64;
    let leaf = LeafNode::new(key, value.clone(), sum);

    let mut hasher = Sha256::new();
    hasher.update(key);
    hasher.update(&value);
    hasher.update(sum.to_be_bytes());
    let expected = to_array(&hasher.finalize());
    assert_eq!(leaf.node_hash, NodeHash::new(expected));
}

#[test]
fn branch_hash_framing_is_exact() {
    // A branch hashes left_hash || right_hash || be64(left_sum + right_sum).
    let left = LeafNode::new(key_of(b"l"), b"lv".to_vec(), 3);
    let right = LeafNode::new(key_of(b"r"), b"rv".to_vec(), 4);
    let lh = left.node_hash;
    let rh = right.node_hash;
    let branch = BranchNode::new(Node::Leaf(left), Node::Leaf(right));

    let mut hasher = Sha256::new();
    hasher.update(lh.as_bytes());
    hasher.update(rh.as_bytes());
    hasher.update(7u64.to_be_bytes());
    let expected = to_array(&hasher.finalize());
    assert_eq!(branch.node_hash, NodeHash::new(expected));
    assert_eq!(branch.sum, 7);
}

#[test]
fn empty_table_matches_recomputed_chain() {
    // The empty leaf hashes zeros(32) || "" || be64(0), and each level above
    // hashes two copies of the level below with sum zero.
    let table = EmptyTree::new();

    let mut hasher = Sha256::new();
    hasher.update([0u8; 32]);
    hasher.update(0u64.to_be_bytes());
    let leaf_hash = to_array(&hasher.finalize());
    assert_eq!(table.hash_at(256), NodeHash::new(leaf_hash));

    let mut level = leaf_hash;
    for depth in (0..256).rev() {
        let mut hasher = Sha256::new();
        hasher.update(level);
        hasher.update(level);
        hasher.update(0u64.to_be_bytes());
        level = to_array(&hasher.finalize());
        assert_eq!(table.hash_at(depth), NodeHash::new(level));
    }
}

#[test]
fn bit_index_is_msb_first() {
    let mut key = [0u8; 32];
    key[0] = 0b1010_1010;
    key[31] = 0b0000_0001;
    assert_eq!(mssmt::node::bit_index(0, &key), 1);
    assert_eq!(mssmt::node::bit_index(1, &key), 0);
    assert_eq!(mssmt::node::bit_index(2, &key), 1);
    assert_eq!(mssmt::node::bit_index(7, &key), 0);
    assert_eq!(mssmt::node::bit_index(254, &key), 0);
    assert_eq!(mssmt::node::bit_index(255, &key), 1);
}

#[test]
fn to_array_takes_the_first_32_bytes() {
    let bytes: Vec<u8> = (0u8..40).collect();
    let array = to_array(&bytes);
    for i in 0..32 {
        assert_eq!(array[i], i as u8);
    }
    let exact = [9u8; 32];
    assert_eq!(to_array(&exact), exact);
}

#[test]
fn empty_value_with_zero_sum_is_a_real_entry() {
    // An empty value and a zero sum under a non-zero key is an ordinary
    // entry, distinct from absence.
    let mut tree = FullTree::new(DefaultStore::new());
    let key = key_of(b"hollow");
    tree.insert(key, Vec::new(), 0).unwrap();
    let (value, sum) = tree.get(key).unwrap().expect("entry should be present");
    assert!(value.is_empty());
    assert_eq!(sum, 0);

    let table = EmptyTree::new();
    assert_ne!(root_hash(&tree), table.hash_at(0));
}

#[test]
fn writing_the_canonical_empty_entry_clears_the_slot() {
    // The all-zero key with an empty value and zero sum is the empty leaf
    // itself: writing it is the same as clearing the slot.
    let mut tree = FullTree::new(DefaultStore::new());
    let table = EmptyTree::new();
    tree.insert([0u8; 32], Vec::new(), 0).unwrap();
    assert!(tree.get([0u8; 32]).unwrap().is_none());
    assert_eq!(root_hash(&tree), table.hash_at(0));
}

#[test]
fn default_store_round_trips_nodes() {
    let mut store = DefaultStore::new();
    let leaf = LeafNode::new(key_of(b"stored"), b"v".to_vec(), 12);
    let leaf_hash = leaf.node_hash;
    store.insert_leaf(leaf).unwrap();
    let fetched = store
        .get_leaf(&leaf_hash)
        .unwrap()
        .expect("leaf should be stored");
    assert_eq!(fetched.value(), &b"v".to_vec());
    assert_eq!(fetched.sum, 12);

    let branch = BranchNode::new(
        Node::Leaf(LeafNode::new(key_of(b"bl"), b"x".to_vec(), 1)),
        Node::Leaf(LeafNode::new(key_of(b"br"), b"y".to_vec(), 2)),
    );
    let branch_hash = branch.node_hash;
    store.insert_branch(branch).unwrap();
    assert!(store.get_branch(&branch_hash).unwrap().is_some());

    store.delete_leaf(&leaf_hash).unwrap();
    assert!(store.get_leaf(&leaf_hash).unwrap().is_none());
    store.delete_branch(&branch_hash).unwrap();
    assert!(store.get_branch(&branch_hash).unwrap().is_none());

    // Deleting an absent hash still succeeds.
    store.delete_branch(&branch_hash).unwrap();
}

#[test]
fn fresh_store_reports_the_empty_root() {
    // A store whose root pointer was never set reports the precomputed
    // empty-tree root, not an absence.
    let store = DefaultStore::new();
    let root = store.root_node().unwrap();
    let table = EmptyTree::new();
    assert_eq!(root.node_hash(), table.hash_at(0));
    assert_eq!(root.node_sum(), 0);
}

#[test]
fn compacted_tree_exposes_the_stored_root() {
    let tree = mssmt::CompactedTree::new(DefaultStore::new());
    let table = EmptyTree::new();
    assert_eq!(tree.root().unwrap().node_hash(), table.hash_at(0));
}

#[test]
fn a_proof_is_bound_to_its_key() {
    // Siblings collected for one key do not verify a different key's leaf.
    let mut tree = FullTree::new(DefaultStore::new());
    let k1 = key_of(b"first");
    let k2 = key_of(b"second");
    tree.insert(k1, b"v1".to_vec(), 4).unwrap();
    tree.insert(k2, b"v2".to_vec(), 6).unwrap();

    let root = root_hash(&tree);
    let proof1 = tree.merkle_proof(k1).unwrap();
    let leaf2 = LeafNode::new(k2, b"v2".to_vec(), 6);
    assert!(!proof1.verify(k2, &leaf2, root));
}

#[test]
fn node_hash_accessors() {
    assert_eq!(NodeHash::zero(), NodeHash::new([0u8; 32]));
    let bytes = [7u8; 32];
    let hash = NodeHash::new(bytes);
    assert_eq!(hash.as_bytes(), &bytes);
    assert_eq!(mssmt::node::HASH_SIZE, 32);
    assert_eq!(mssmt::node::MAX_TREE_LEVELS, 256);
}

#[test]
fn proof_root_matches_tree_root() {
    let mut tree = FullTree::new(DefaultStore::new());
    let key = key_of(b"rooted");
    tree.insert(key, b"value".to_vec(), 21).unwrap();
    tree.insert(key_of(b"other"), b"value".to_vec(), 9).unwrap();

    let proof = tree.merkle_proof(key).unwrap();
    let leaf = LeafNode::new(key, b"value".to_vec(), 21);
    let rebuilt = proof.root(key, &leaf);
    let root = tree.root().unwrap();
    assert_eq!(rebuilt.node_hash(), root.node_hash());
    assert_eq!(rebuilt.node_sum(), root.node_sum());
    assert_eq!(rebuilt.node_sum(), 30);
}
