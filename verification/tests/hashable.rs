//! Field bytes are the little-endian bytes of the value. Floating-point
//! fields are hashed through their bit patterns (`to_bits()`), whose
//! little-endian bytes are exactly the float's own.

use foldback::hashable::FieldBytes;

#[test]
fn primitive_field_bytes_match_to_le_bytes() {
    assert_eq!(1.5f32.to_bits().field_bytes(), 1.5f32.to_le_bytes().to_vec());
    assert_eq!(42u64.field_bytes(), 42u64.to_le_bytes().to_vec());
    assert_eq!(true.field_bytes(), vec![1u8]);
    assert_eq!(false.field_bytes(), vec![0u8]);
}

#[test]
fn fixed_array_field_bytes_concatenates_each_element() {
    let v: [f32; 3] = [1.0, 2.0, 3.0];
    let bits: [u32; 3] = [v[0].to_bits(), v[1].to_bits(), v[2].to_bits()];
    let mut expected = Vec::new();
    for x in v {
        expected.extend_from_slice(&x.to_le_bytes());
    }
    assert_eq!(bits.field_bytes(), expected);
}

#[test]
fn every_integer_width_is_little_endian() {
    assert_eq!(0x12u8.field_bytes(), vec![0x12]);
    assert_eq!((-2i8).field_bytes(), (-2i8).to_le_bytes().to_vec());
    assert_eq!(0x1234u16.field_bytes(), 0x1234u16.to_le_bytes().to_vec());
    assert_eq!((-3i16).field_bytes(), (-3i16).to_le_bytes().to_vec());
    assert_eq!(0xdead_beefu32.field_bytes(), 0xdead_beefu32.to_le_bytes().to_vec());
    assert_eq!((-4i32).field_bytes(), (-4i32).to_le_bytes().to_vec());
    assert_eq!((-5i64).field_bytes(), (-5i64).to_le_bytes().to_vec());
    let big = 0x0102_0304_0506_0708_090a_0b0c_0d0e_0f10u128;
    assert_eq!(big.field_bytes(), big.to_le_bytes().to_vec());
    assert_eq!((-6i128).field_bytes(), (-6i128).to_le_bytes().to_vec());
}

#[test]
fn nested_arrays_concatenate_in_order() {
    let v: [[u16; 2]; 2] = [[1, 2], [3, 4]];
    let mut expected = Vec::new();
    for row in v {
        for x in row {
            expected.extend_from_slice(&x.to_le_bytes());
        }
    }
    assert_eq!(v.field_bytes(), expected);
    let empty: [u64; 0] = [];
    assert!(empty.field_bytes().is_empty());
}
