use book_catalog::encoding::encode_bytes_as_base64;

#[test]
fn encodes_known_bytes() {
    let bytes: Vec<u8> = b"hello".to_vec();
    assert_eq!(encode_bytes_as_base64(&bytes), "aGVsbG8=");
}

#[test]
fn encodes_empty_input_to_empty_text() {
    let bytes: Vec<u8> = Vec::new();
    assert_eq!(encode_bytes_as_base64(&bytes), "");
}

#[test]
fn encodes_binary_bytes_with_padding() {
    let bytes: Vec<u8> = vec![0xff, 0x00, 0xab, 0x10];
    assert_eq!(encode_bytes_as_base64(&bytes), "/wCrEA==");
    // four output characters for every begun three input bytes
    assert_eq!(encode_bytes_as_base64(&bytes).len(), 8);
}

#[test]
fn agrees_with_the_base64_crate() {
    let bytes: Vec<u8> = (0u8..=255).collect();
    let expected = base64::Engine::encode(&base64::engine::general_purpose::STANDARD, &bytes);
    assert_eq!(encode_bytes_as_base64(&bytes), expected);
}
