use playfair::hash::create_hash_bytes;

#[test]
fn sha256_known_answers() {
    let h = create_hash_bytes(&[1]);
    assert_eq!(
        hex::encode(h),
        "4bf5122f344554c53bde2ebb8cd2b7e3d1600ad631c385a5d7cce23c7785459a"
    );
    let empty = create_hash_bytes(&[]);
    assert_eq!(
        hex::encode(empty),
        "e3b0c44298fc1c149afbf4c8996fb92427ae41e4649b934ca495991b7852b855"
    );
}

#[test]
fn sha256_of_equal_inputs_agrees() {
    let h1 = create_hash_bytes(&[1]);
    let h2 = create_hash_bytes(&[1]);
    assert_eq!(h1, h2);
    assert_ne!(create_hash_bytes(b"a"), create_hash_bytes(b"b"));
}
