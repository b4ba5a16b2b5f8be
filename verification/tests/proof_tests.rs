use utreexo::{hash_intermediate, hash_leaf, Path, Proof};

#[test]
fn check_proof_verify() {
    let path = Path::for_height_and_num(3, 5);
    let sibling_hashes: Vec<utreexo::hash::Hash> =
        vec![[0; 32].into(), [1; 32].into(), [2; 32].into()];
    let leaf_hash: utreexo::hash::Hash = [0; 32].into();

    let intermediate_hash_1 = hash_intermediate(&sibling_hashes[0], &leaf_hash);
    let intermediate_hash_2 = hash_intermediate(&intermediate_hash_1, &sibling_hashes[1]);
    let root_hash = hash_intermediate(&sibling_hashes[2], &intermediate_hash_2);

    let proof = Proof {
        path,
        leaf_hash,
        sibling_hashes,
    };

    assert!(proof.verify(root_hash));
    assert!(!proof.verify(intermediate_hash_2));
}

#[test]
fn check_empty_path_proof() {
    // An empty-path proof verifies exactly against its own leaf hash.
    let leaf_hash = hash_leaf(b"lone leaf");
    let proof = Proof {
        path: Path::for_height_and_num(0, 0),
        leaf_hash,
        sibling_hashes: Vec::new(),
    };

    assert!(proof.verify(leaf_hash));
    assert!(!proof.verify(hash_leaf(b"another leaf")));
}

#[test]
fn check_malformed_proof_rejected() {
    // Sibling count differing from the path height fails without hashing.
    let leaf_hash = hash_leaf(b"leaf");
    let proof = Proof {
        path: Path::for_height_and_num(2, 0),
        leaf_hash,
        sibling_hashes: vec![[7; 32].into()],
    };

    assert!(!proof.verify(leaf_hash));
}
