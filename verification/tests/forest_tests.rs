use utreexo::{hash_intermediate, hash_leaf, MemoryForest};

#[test]
fn check_memory_forest_ops() {
    let mut forest = MemoryForest::new();

    forest.insert(&[0; 32]);
    forest.insert(&[1; 32]);
    forest.insert(&[2; 32]);
    forest.insert(&[3; 32]);
    forest.insert(&[4; 32]);
    forest.insert(&[5; 32]);
    forest.insert(&[6; 32]);
    forest.insert(&[7; 32]);
    forest.insert(&[8; 32]);
    forest.insert(&[9; 32]);

    // Checking distribution of trees in merkle forest
    assert_eq!(4, forest.trees().len());
    assert!(forest.trees()[0].is_none());
    assert!(forest.trees()[1].is_some());
    assert!(forest.trees()[2].is_none());
    assert!(forest.trees()[3].is_some());

    // Delete a leaf
    let proof = forest.prove(&[0; 32]);
    assert!(proof.is_some());
    assert!(forest.delete(&proof.unwrap()));

    // Checking distribution of trees in merkle forest
    assert_eq!(4, forest.trees().len());
    assert!(forest.trees()[0].is_some());
    assert!(forest.trees()[1].is_none());
    assert!(forest.trees()[2].is_none());
    assert!(forest.trees()[3].is_some());

    // Delete a leaf
    let proof = forest.prove(&[1; 32]);
    assert!(proof.is_some());
    assert!(forest.delete(&proof.unwrap()));

    // Checking distribution of trees in merkle forest
    assert_eq!(4, forest.trees().len());
    assert!(forest.trees()[0].is_none());
    assert!(forest.trees()[1].is_none());
    assert!(forest.trees()[2].is_none());
    assert!(forest.trees()[3].is_some());

    // Delete a leaf
    let proof = forest.prove(&[2; 32]);
    assert!(proof.is_some());
    assert!(forest.delete(&proof.unwrap()));

    // Checking distribution of trees in merkle forest
    assert_eq!(4, forest.trees().len());
    assert!(forest.trees()[0].is_some());
    assert!(forest.trees()[1].is_some());
    assert!(forest.trees()[2].is_some());
    assert!(forest.trees()[3].is_none());

    // Delete a leaf
    let proof = forest.prove(&[3; 32]);
    assert!(proof.is_some());
    assert!(forest.delete(&proof.unwrap()));

    // Checking distribution of trees in merkle forest
    assert_eq!(4, forest.trees().len());
    assert!(forest.trees()[0].is_none());
    assert!(forest.trees()[1].is_some());
    assert!(forest.trees()[2].is_some());
    assert!(forest.trees()[3].is_none());

    // Add a leaf
    forest.insert(&[0; 32]);

    // Checking distribution of trees in merkle forest
    assert_eq!(4, forest.trees().len());
    assert!(forest.trees()[0].is_some());
    assert!(forest.trees()[1].is_some());
    assert!(forest.trees()[2].is_some());
    assert!(forest.trees()[3].is_none());

    // Check proof of a value not present in the set
    assert!(forest.prove(&[1; 32]).is_none());
}

#[test]
fn check_empty_forest() {
    let forest = MemoryForest::new();

    assert!(forest.trees().is_empty());
    assert!(forest.prove(b"anything").is_none());

    let other = {
        let mut f = MemoryForest::new();
        f.insert(b"present");
        f
    };
    let proof = other.prove(b"present").unwrap();
    assert!(!forest.verify(&proof));
}

#[test]
fn check_single_leaf_forest() {
    let mut forest = MemoryForest::new();
    forest.insert(b"v0");

    assert_eq!(1, forest.trees().len());
    let tree = forest.trees()[0].as_ref().unwrap();
    assert_eq!(0, tree.height());
    assert_eq!(hash_leaf(b"v0"), *tree.root_hash());

    let proof = forest.prove(b"v0").unwrap();
    assert_eq!(0, proof.path.height());
    assert!(proof.sibling_hashes.is_empty());
    assert!(forest.verify(&proof));
}

#[test]
fn check_four_leaf_root_formula() {
    let mut forest = MemoryForest::new();
    forest.insert(b"v0");
    forest.insert(b"v1");
    forest.insert(b"v2");
    forest.insert(b"v3");

    // Only slot 2 is occupied, holding all four leaves.
    assert_eq!(3, forest.trees().len());
    assert!(forest.trees()[0].is_none());
    assert!(forest.trees()[1].is_none());
    assert!(forest.trees()[2].is_some());

    let expected = hash_intermediate(
        &hash_intermediate(&hash_leaf(b"v0"), &hash_leaf(b"v1")),
        &hash_intermediate(&hash_leaf(b"v2"), &hash_leaf(b"v3")),
    );
    let tree = forest.trees()[2].as_ref().unwrap();
    assert_eq!(expected, *tree.root_hash());
    assert_eq!(2, tree.height());
    assert_eq!(4, tree.num_leaves());
}

#[test]
fn check_seven_leaf_distribution() {
    let values: Vec<Vec<u8>> = (0u8..8).map(|i| vec![b'h', i]).collect();

    let mut forest7 = MemoryForest::new();
    for v in values.iter().take(7) {
        forest7.insert(v);
    }

    // Slots 0, 1 and 2 are occupied: h0..h3 at height 2, h4 and h5 at
    // height 1, h6 at height 0.
    assert_eq!(3, forest7.trees().len());
    let slot0 = forest7.trees()[0].as_ref().unwrap();
    let slot1 = forest7.trees()[1].as_ref().unwrap();
    let slot2 = forest7.trees()[2].as_ref().unwrap();
    assert!(slot0.contains(&hash_leaf(&values[6])));
    assert!(slot1.contains(&hash_leaf(&values[4])));
    assert!(slot1.contains(&hash_leaf(&values[5])));
    for v in values.iter().take(4) {
        assert!(slot2.contains(&hash_leaf(v)));
    }

    // Deleting the eighth leaf from an eight-leaf forest leaves exactly the
    // seven-leaf shape, slot for slot.
    let mut forest8 = MemoryForest::new();
    for v in values.iter() {
        forest8.insert(v);
    }
    let proof = forest8.prove(&values[7]).unwrap();
    assert!(forest8.delete(&proof));

    assert_eq!(4, forest8.trees().len());
    assert!(forest8.trees()[3].is_none());
    for h in 0..3 {
        let rebuilt = forest8.trees()[h].as_ref().unwrap();
        let fresh = forest7.trees()[h].as_ref().unwrap();
        assert_eq!(fresh.root_hash(), rebuilt.root_hash());
    }
}

#[test]
fn check_prove_delete_reprove() {
    let mut forest = MemoryForest::new();
    for i in 0u8..6 {
        forest.insert(&[i; 4]);
    }

    let proof = forest.prove(&[2; 4]).unwrap();
    assert!(forest.delete(&proof));

    assert!(forest.prove(&[2; 4]).is_none());
    assert!(!forest.verify(&proof));
    assert!(!forest.delete(&proof));
}

#[test]
fn check_failed_delete_changes_nothing() {
    let mut forest = MemoryForest::new();
    for i in 0u8..5 {
        forest.insert(&[i; 8]);
    }
    let snapshot = forest.clone();

    // Tamper with a sibling hash: the proof no longer verifies.
    let mut proof = forest.prove(&[3; 8]).unwrap();
    proof.sibling_hashes[0] = [0xaa; 32].into();

    assert!(!forest.delete(&proof));
    assert_eq!(snapshot, forest);
}

#[test]
fn check_duplicate_insert_is_noop() {
    let mut forest = MemoryForest::new();
    forest.insert(b"a");
    forest.insert(b"b");
    forest.insert(b"c");
    let snapshot = forest.clone();

    forest.insert(b"b");

    assert_eq!(snapshot, forest);
}

#[test]
fn check_replay_determinism() {
    let build = || {
        let mut forest = MemoryForest::new();
        for i in 0u8..9 {
            forest.insert(&[i; 3]);
        }
        let proof = forest.prove(&[4; 3]).unwrap();
        assert!(forest.delete(&proof));
        forest
    };

    assert_eq!(build(), build());
}
