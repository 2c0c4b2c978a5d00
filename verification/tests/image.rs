use feishu2everywhere::image::{image_cache_entry, to_hex};

#[test]
fn hex_rendering_pads_each_byte() {
    assert_eq!(to_hex(&vec![]), Vec::<char>::new());
    assert_eq!(to_hex(&vec![0x00, 0xff]), vec!['0', '0', 'f', 'f']);
    assert_eq!(to_hex(&vec![0x2c, 0xf2, 0x4d]), vec!['2', 'c', 'f', '2', '4', 'd']);
}

#[test]
fn cache_entry_decodes_and_names_by_digest() {
    // "aGVsbG8=" decodes to "hello", whose SHA-256 digest begins
    // 2cf24dba5fb0a30e.
    let (bytes, path) = image_cache_entry("one", "aGVsbG8=").unwrap();
    assert_eq!(bytes, b"hello".to_vec());
    assert_eq!(path, "image_cache/one/2cf24dba5fb0a30e.png");
}

#[test]
fn cache_entry_of_empty_input() {
    // The empty string decodes to no bytes; SHA-256 of the empty input
    // begins e3b0c44298fc1c14.
    let (bytes, path) = image_cache_entry("ctx", "").unwrap();
    assert!(bytes.is_empty());
    assert_eq!(path, "image_cache/ctx/e3b0c44298fc1c14.png");
}

#[test]
fn cache_entry_rejects_invalid_base64() {
    assert!(image_cache_entry("one", "!!! not base64 !!!").is_none());
}
