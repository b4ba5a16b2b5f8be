use utreexo::{MemoryAccumulator, MemoryForest, Path, Proof};

#[test]
fn check_accumulator_ops() {
    let mut accumulator = MemoryAccumulator::new();
    let mut forest = MemoryForest::new();

    forest.insert(&[0; 32]);
    forest.insert(&[1; 32]);
    forest.insert(&[2; 32]);
    forest.insert(&[3; 32]);
    forest.insert(&[4; 32]);
    forest.insert(&[5; 32]);
    forest.insert(&[6; 32]);
    forest.insert(&[7; 32]);
    forest.insert(&[8; 32]);
    forest.insert(&[9; 32]);

    accumulator.insert(&[0; 32]);
    accumulator.insert(&[1; 32]);
    accumulator.insert(&[2; 32]);
    accumulator.insert(&[3; 32]);
    accumulator.insert(&[4; 32]);
    accumulator.insert(&[5; 32]);
    accumulator.insert(&[6; 32]);
    accumulator.insert(&[7; 32]);
    accumulator.insert(&[8; 32]);
    accumulator.insert(&[9; 32]);

    // Checking distribution of trees in merkle forest
    assert_eq!(4, accumulator.root_hashes().len());
    assert!(accumulator.root_hashes()[0].is_none());
    assert!(accumulator.root_hashes()[1].is_some());
    assert!(accumulator.root_hashes()[2].is_none());
    assert!(accumulator.root_hashes()[3].is_some());

    // Delete a leaf
    let proof = forest.prove(&[0; 32]);
    assert!(proof.is_some());
    let proof = proof.unwrap();
    assert!(forest.delete(&proof));
    assert!(accumulator.delete(&proof));

    // Checking distribution of trees in merkle forest
    assert_eq!(4, accumulator.root_hashes().len());
    assert!(accumulator.root_hashes()[0].is_some());
    assert!(accumulator.root_hashes()[1].is_none());
    assert!(accumulator.root_hashes()[2].is_none());
    assert!(accumulator.root_hashes()[3].is_some());

    // Delete a leaf
    let proof = forest.prove(&[1; 32]);
    assert!(proof.is_some());
    let proof = proof.unwrap();
    assert!(forest.delete(&proof));
    assert!(accumulator.delete(&proof));

    // Checking distribution of trees in merkle forest
    assert_eq!(4, accumulator.root_hashes().len());
    assert!(accumulator.root_hashes()[0].is_none());
    assert!(accumulator.root_hashes()[1].is_none());
    assert!(accumulator.root_hashes()[2].is_none());
    assert!(accumulator.root_hashes()[3].is_some());

    // Delete a leaf
    let proof = forest.prove(&[2; 32]);
    assert!(proof.is_some());
    let proof = proof.unwrap();
    assert!(forest.delete(&proof));
    assert!(accumulator.delete(&proof));

    // Checking distribution of trees in merkle forest
    assert_eq!(4, accumulator.root_hashes().len());
    assert!(accumulator.root_hashes()[0].is_some());
    assert!(accumulator.root_hashes()[1].is_some());
    assert!(accumulator.root_hashes()[2].is_some());
    assert!(accumulator.root_hashes()[3].is_none());

    // Delete a leaf
    let proof = forest.prove(&[3; 32]);
    assert!(proof.is_some());
    let proof = proof.unwrap();
    assert!(forest.delete(&proof));
    assert!(accumulator.delete(&proof));

    // Checking distribution of trees in merkle forest
    assert_eq!(4, accumulator.root_hashes().len());
    assert!(accumulator.root_hashes()[0].is_none());
    assert!(accumulator.root_hashes()[1].is_some());
    assert!(accumulator.root_hashes()[2].is_some());
    assert!(accumulator.root_hashes()[3].is_none());

    // Add a leaf
    forest.insert(&[0; 32]);
    accumulator.insert(&[0; 32]);

    // Checking distribution of trees in merkle forest
    assert_eq!(4, accumulator.root_hashes().len());
    assert!(accumulator.root_hashes()[0].is_some());
    assert!(accumulator.root_hashes()[1].is_some());
    assert!(accumulator.root_hashes()[2].is_some());
    assert!(accumulator.root_hashes()[3].is_none());

    // Delete a leaf
    let proof = forest.prove(&[0; 32]);
    assert!(proof.is_some());
    let proof = proof.unwrap();
    assert!(forest.delete(&proof));
    assert!(accumulator.delete(&proof));

    // Checking distribution of trees in merkle forest
    assert_eq!(4, accumulator.root_hashes().len());
    assert!(accumulator.root_hashes()[0].is_none());
    assert!(accumulator.root_hashes()[1].is_some());
    assert!(accumulator.root_hashes()[2].is_some());
    assert!(accumulator.root_hashes()[3].is_none());

    // Checking all the root hashes of trees in merkle forest and accumulator
    for (hash, tree) in accumulator.root_hashes().iter().zip(forest.trees().iter()) {
        match hash {
            None => assert!(tree.is_none()),
            Some(ref hash) => {
                assert!(tree.is_some());
                let tree_hash = tree.as_ref().unwrap().root_hash();
                assert_eq!(hash, tree_hash);
            }
        }
    }
}

fn roots_agree(accumulator: &MemoryAccumulator, forest: &MemoryForest) -> bool {
    let roots = accumulator.root_hashes();
    let trees = forest.trees();
    roots.len() == trees.len()
        && roots.iter().zip(trees.iter()).all(|(r, t)| match (r, t) {
            (None, None) => true,
            (Some(r), Some(t)) => r == t.root_hash(),
            _ => false,
        })
}

#[test]
fn check_cross_structure_agreement() {
    // Drive a forest and a separate accumulator with the same insert and
    // delete sequence; at every step the roots agree slot for slot.
    let mut accumulator = MemoryAccumulator::new();
    let mut forest = MemoryForest::new();

    let values: Vec<Vec<u8>> = (0u32..40)
        .map(|i| i.wrapping_mul(2654435761).to_le_bytes().to_vec())
        .collect();

    for v in values.iter() {
        forest.insert(v);
        accumulator.insert(v);
        assert!(roots_agree(&accumulator, &forest));
    }

    for v in values.iter().step_by(3) {
        let proof = forest.prove(v).unwrap();
        assert!(accumulator.verify(&proof));
        assert!(forest.delete(&proof));
        assert!(accumulator.delete(&proof));
        assert!(roots_agree(&accumulator, &forest));
    }
}

#[test]
fn check_empty_accumulator() {
    let accumulator = MemoryAccumulator::new();
    assert!(accumulator.root_hashes().is_empty());

    let proof = Proof {
        path: Path::for_height_and_num(0, 0),
        leaf_hash: [3; 32].into(),
        sibling_hashes: Vec::new(),
    };
    assert!(!accumulator.verify(&proof));

    let mut accumulator = accumulator;
    assert!(!accumulator.delete(&proof));
    assert!(accumulator.root_hashes().is_empty());
}

#[test]
fn check_failed_accumulator_delete_changes_nothing() {
    let mut accumulator = MemoryAccumulator::new();
    let mut forest = MemoryForest::new();
    for i in 0u8..5 {
        accumulator.insert(&[i; 2]);
        forest.insert(&[i; 2]);
    }
    let snapshot = accumulator.clone();

    let mut proof = forest.prove(&[1; 2]).unwrap();
    proof.leaf_hash = [0x55; 32].into();

    assert!(!accumulator.delete(&proof));
    assert_eq!(snapshot, accumulator);
}

fn insert_all<T: utreexo::Utreexo>(state: &mut T, values: &[Vec<u8>]) {
    for v in values {
        state.insert(v);
    }
}

#[test]
fn check_generic_surface() {
    // The forest and the accumulator share the Utreexo surface, so one
    // generic driver can feed both.
    let values: Vec<Vec<u8>> = (0u8..12).map(|i| vec![i, i, i]).collect();

    let mut forest = MemoryForest::new();
    let mut accumulator = MemoryAccumulator::new();
    insert_all(&mut forest, &values);
    insert_all(&mut accumulator, &values);

    assert!(roots_agree(&accumulator, &forest));

    let proof = utreexo::Prover::prove(&forest, &values[5]).unwrap();
    assert!(utreexo::Utreexo::delete(&mut forest, &proof));
    assert!(utreexo::Utreexo::delete(&mut accumulator, &proof));
    assert!(roots_agree(&accumulator, &forest));
}
