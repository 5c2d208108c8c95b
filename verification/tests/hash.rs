use foldback::hash::hash_bytes;

#[test]
fn known_vectors() {
    assert_eq!(hash_bytes(b""), 0x2d06_8005_38d3_94c2);
    assert_eq!(hash_bytes(b"foldback"), 0x0a7d_36d7_5a45_942d);
}

#[test]
fn same_input_same_hash() {
    let data = vec![1u8, 2, 3, 4, 5, 6, 7, 8, 9, 10];
    assert_eq!(hash_bytes(&data), hash_bytes(&data));
}

#[test]
fn different_input_different_hash() {
    assert_ne!(hash_bytes(b"a"), hash_bytes(b"b"));
}
