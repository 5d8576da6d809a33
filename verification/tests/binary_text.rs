use playfair::binary::{binary_from_bytes, binary_u8, hex_from_string_slice};

#[test]
fn binary_of_single_bytes() {
    assert_eq!(binary_u8(0), "00000000");
    assert_eq!(binary_u8(5), "00000101");
    assert_eq!(binary_u8(200), "11001000");
    assert_eq!(binary_u8(255), "11111111");
}

#[test]
fn binary_of_byte_slices() {
    let result = binary_from_bytes(b"AB");
    assert_eq!(result, vec!["01000001".to_string(), "01000010".to_string()]);
    let msg = "Yes please!".as_bytes();
    let result = binary_from_bytes(msg);
    assert_eq!(result.len(), 11);
    assert_eq!(result[0], "01011001");
}

#[test]
fn hex_of_string_slices() {
    assert_eq!(hex_from_string_slice("Yes please!"), "59657320706c6561736521");
    assert_eq!(hex_from_string_slice(""), "");
    assert_eq!(hex_from_string_slice("\u{0}\u{f}"), "000f");
}
