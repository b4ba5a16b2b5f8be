use utreexo::{hash_intermediate, hash_leaf};

#[test]
fn check_hash_leaf_matches_reference() {
    // hash_leaf(v) is the BLAKE3 digest of the value prefixed with a zero
    // byte, computed here directly against the hash crate.
    let value = b"domain separation";
    let mut prefixed = vec![0u8];
    prefixed.extend_from_slice(value);
    let expected = blake3::hash(&prefixed);

    assert_eq!(expected.as_bytes(), hash_leaf(value).as_bytes());
}

#[test]
fn check_hash_intermediate_matches_reference() {
    let left = hash_leaf(b"left");
    let right = hash_leaf(b"right");

    let mut prefixed = vec![1u8];
    prefixed.extend_from_slice(left.as_bytes());
    prefixed.extend_from_slice(right.as_bytes());
    let expected = blake3::hash(&prefixed);

    assert_eq!(expected.as_bytes(), hash_intermediate(&left, &right).as_bytes());
}

#[test]
fn check_domain_separation() {
    // The same 64 bytes hashed as a leaf and as an intermediate node give
    // different digests: the prefix byte keeps the domains apart.
    let a = hash_leaf(b"a");
    let b = hash_leaf(b"b");
    let mut joined = Vec::new();
    joined.extend_from_slice(a.as_bytes());
    joined.extend_from_slice(b.as_bytes());

    assert_ne!(hash_leaf(&joined), hash_intermediate(&a, &b));
}

#[test]
fn check_hash_accessors() {
    let h: utreexo::hash::Hash = [9; 32].into();
    assert_eq!(&[9u8; 32], h.as_bytes());
    assert_eq!(h, [9; 32].into());
}
