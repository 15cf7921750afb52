use mssmt::hash_utils::to_array;
use mssmt::{DefaultStore, EmptyTree, FullTree, LeafNode, TreeError};
use sha2::{Digest, Sha256};

#[test]
fn test_full_tree_operations() -> Result<(), TreeError> {
    // Step 1: Initialize a new FullTree with DefaultStore
    println!("Initializing a new Merkle-Sum Sparse Merkle Tree...");
    let store = DefaultStore::new();
    let mut tree = FullTree::new(store);

    // Step 2: Insert some key-value pairs into the tree
    println!("\nInserting key-value pairs into the tree...");

    // Generate keys by hashing strings
    let key1 = to_array(&Sha256::digest(b"key1"));
    let value1 = b"value1".to_vec();
    let sum1 = 10;

    // Insert the key-value-sum into the tree
    tree.insert(key1, value1.clone(), sum1)?;
    println!("Inserted key1 with value1 and sum1");

    let key2 = to_array(&Sha256::digest(b"key2"));
    let value2 = b"value2".to_vec();
    let sum2 = 20;

    tree.insert(key2, value2.clone(), sum2)?;
    println!("Inserted key2 with value2 and sum2");

    let key3 = to_array(&Sha256::digest(b"key3"));
    let value3 = b"value3".to_vec();
    let sum3 = 30;

    tree.insert(key3, value3.clone(), sum3)?;
    println!("Inserted key3 with value3 and sum3");

    // Step 3: Fetch values and log the results
    println!("\nFetching values from the tree...");

    // Retrieve value and sum for key1
    if let Some((value, sum)) = tree.get(key1)? {
        println!("Retrieved key1 with value {:?} and sum {}", value, sum);
        assert_eq!(value, value1);
        assert_eq!(sum, sum1);
    } else {
        println!("key1 not found");
        panic!("key1 should be found");
    }

    // Retrieve value and sum for key2
    if let Some((value, sum)) = tree.get(key2)? {
        println!("Retrieved key2 with value {:?} and sum {}", value, sum);
        assert_eq!(value, value2);
        assert_eq!(sum, sum2);
    } else {
        println!("key2 not found");
        panic!("key2 should be found");
    }

    // Retrieve value and sum for key3
    if let Some((value, sum)) = tree.get(key3)? {
        println!("Retrieved key3 with value {:?} and sum {}", value, sum);
        assert_eq!(value, value3);
        assert_eq!(sum, sum3);
    } else {
        println!("key3 not found");
        panic!("key3 should be found");
    }

    // Step 4: Generate Merkle proofs for keys
    println!("\nGenerating Merkle proofs for keys...");

    let proof1 = tree.merkle_proof(key1)?;
    println!("Generated proof for key1");

    // Step 5: Verify proofs
    println!("\nVerifying proofs...");

    let root_node = tree.root()?;
    let root_hash = root_node.node_hash();

    // Create a leaf node for key1 to use in verification
    let leaf_node1 = LeafNode::new(key1, value1.clone(), sum1);

    // Verify the proof for key1
    let is_valid = proof1.verify(key1, &leaf_node1, root_hash);
    println!("Proof verification for key1: {}", is_valid);
    assert!(is_valid);

    // Step 6: Delete keys and log steps
    println!("\nDeleting key2 from the tree...");
    tree.delete(key2)?;
    println!("Deleted key2");

    // Step 7: Check the tree after deletions
    if let Some((_value, _sum)) = tree.get(key2)? {
        panic!("key2 should have been deleted");
    } else {
        println!("key2 not found after deletion");
    }

    // Step 8: Generate and verify proof after deletion
    let proof1_after = tree.merkle_proof(key1)?;
    println!("Generated proof for key1 after deletion");

    let root_node_after = tree.root()?;
    let root_hash_after = root_node_after.node_hash();

    let is_valid_after = proof1_after.verify(key1, &leaf_node1, root_hash_after);
    println!(
        "Proof verification for key1 after deletion: {}",
        is_valid_after
    );
    assert!(is_valid_after);

    Ok(())
}

fn key_of(s: &[u8]) -> [u8; 32] {
    to_array(&Sha256::digest(s))
}

#[test]
fn scenario_empty_tree() {
    // The root of a freshly built tree is the precomputed empty root.
    let tree = FullTree::new(DefaultStore::new());
    let root = tree.root().unwrap();
    let table = EmptyTree::new();
    assert_eq!(root.node_hash(), table.hash_at(0));
    assert_eq!(root.node_sum(), 0);
}

#[test]
fn scenario_single_insert() {
    let mut tree = FullTree::new(DefaultStore::new());
    let key = key_of(b"key1");
    let value = b"value1".to_vec();
    tree.insert(key, value.clone(), 10).unwrap();

    let (got_value, got_sum) = tree.get(key).unwrap().expect("key1 should be found");
    assert_eq!(got_value, value);
    assert_eq!(got_sum, 10);

    let root = tree.root().unwrap();
    assert_eq!(root.node_sum(), 10);

    let proof = tree.merkle_proof(key).unwrap();
    assert_eq!(proof.nodes.len(), 256);
    let leaf = LeafNode::new(key, value, 10);
    assert!(proof.verify(key, &leaf, root.node_hash()));
}

#[test]
fn scenario_three_inserts() {
    let mut tree = FullTree::new(DefaultStore::new());
    let keys = [key_of(b"key1"), key_of(b"key2"), key_of(b"key3")];
    let values: [&[u8]; 3] = [b"value1", b"value2", b"value3"];
    let sums = [10u64, 20, 30];
    for i in 0..3 {
        tree.insert(keys[i], values[i].to_vec(), sums[i]).unwrap();
    }

    let root = tree.root().unwrap();
    assert_eq!(root.node_sum(), 60);

    for i in 0..3 {
        let proof = tree.merkle_proof(keys[i]).unwrap();
        let leaf = LeafNode::new(keys[i], values[i].to_vec(), sums[i]);
        assert!(proof.verify(keys[i], &leaf, root.node_hash()));
    }

    let absent = key_of(b"key4");
    assert!(tree.get(absent).unwrap().is_none());

    // Proof of absence: the empty leaf verifies for a key that is not there.
    let proof4 = tree.merkle_proof(absent).unwrap();
    assert!(proof4.verify(absent, &LeafNode::empty(), root.node_hash()));
}

#[test]
fn scenario_delete_one_of_three() {
    let mut tree = FullTree::new(DefaultStore::new());
    let keys = [key_of(b"key1"), key_of(b"key2"), key_of(b"key3")];
    let values: [&[u8]; 3] = [b"value1", b"value2", b"value3"];
    let sums = [10u64, 20, 30];
    for i in 0..3 {
        tree.insert(keys[i], values[i].to_vec(), sums[i]).unwrap();
    }

    tree.delete(keys[1]).unwrap();

    let root = tree.root().unwrap();
    assert_eq!(root.node_sum(), 40);
    assert!(tree.get(keys[1]).unwrap().is_none());

    for i in [0usize, 2] {
        let proof = tree.merkle_proof(keys[i]).unwrap();
        let leaf = LeafNode::new(keys[i], values[i].to_vec(), sums[i]);
        assert!(proof.verify(keys[i], &leaf, root.node_hash()));
    }
}

#[test]
fn scenario_delete_all() {
    let mut tree = FullTree::new(DefaultStore::new());
    let keys = [key_of(b"key1"), key_of(b"key2"), key_of(b"key3")];
    let values: [&[u8]; 3] = [b"value1", b"value2", b"value3"];
    let sums = [10u64, 20, 30];
    for i in 0..3 {
        tree.insert(keys[i], values[i].to_vec(), sums[i]).unwrap();
    }
    for i in 0..3 {
        tree.delete(keys[i]).unwrap();
    }

    let root = tree.root().unwrap();
    let table = EmptyTree::new();
    assert_eq!(root.node_hash(), table.hash_at(0));
    assert_eq!(root.node_sum(), 0);
}

#[test]
fn scenario_overwrite() {
    let mut tree = FullTree::new(DefaultStore::new());
    let key = key_of(b"key1");
    tree.insert(key, b"value1".to_vec(), 10).unwrap();
    tree.insert(key, b"other".to_vec(), 25).unwrap();

    let (value, sum) = tree.get(key).unwrap().expect("key should be found");
    assert_eq!(value, b"other".to_vec());
    assert_eq!(sum, 25);

    let root = tree.root().unwrap();
    assert_eq!(root.node_sum(), 25);
}
