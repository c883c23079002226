use concatener::decode::decode_with_encoding_detection;

fn decode(bytes: &[u8]) -> String {
    decode_with_encoding_detection(&bytes.to_vec())
}

#[test]
fn test_utf16le_bom_decodes_stripped() {
    // FF FE, then "Hello, UTF-16LE!" as UTF-16 little-endian code units
    let bytes = vec![
        0xFF, 0xFE, // BOM
        0x48, 0x00, 0x65, 0x00, 0x6c, 0x00, 0x6c, 0x00, 0x6f, 0x00, // "Hello"
        0x2c, 0x00, 0x20, 0x00, 0x55, 0x00, 0x54, 0x00, 0x46, 0x00, // ", UTF"
        0x2d, 0x00, 0x31, 0x00, 0x36, 0x00, 0x4c, 0x00, 0x45, 0x00, // "-16LE"
        0x21, 0x00,
    ];
    assert_eq!(decode(&bytes), "Hello, UTF-16LE!");
}

#[test]
fn test_utf16be_bom_decodes_stripped() {
    let bytes = vec![0xFE, 0xFF, 0x00, 0x48, 0x00, 0x69, 0x00, 0x21];
    assert_eq!(decode(&bytes), "Hi!");
}

#[test]
fn test_utf8_bom_stripped() {
    let content = "\u{FEFF}Hello, 世界!";
    assert_eq!(decode(content.as_bytes()), "Hello, 世界!");
}

#[test]
fn test_plain_utf8_unchanged() {
    let content = "Hello, 世界!";
    assert_eq!(decode(content.as_bytes()), "Hello, 世界!");
}

#[test]
fn test_windows1252_fallback() {
    // invalid as UTF-8 and as UTF-16 of either byte order (odd length),
    // error-free under Windows-1252: 0x80 is the euro sign
    let bytes = vec![0x48, 0x65, 0x6c, 0x6c, 0x6f, 0x2c, 0x20, 0x80, 0x21, 0x21, 0x21];
    let text = decode(&bytes);
    assert!(text.starts_with("Hello, "));
    assert!(text.contains('\u{20AC}'));
}

#[test]
fn test_lossy_fallback_after_utf8_bom() {
    // a UTF-8 byte-order mark followed by an invalid byte: the strict UTF-8
    // read fails, every legacy decode sniffs the mark and fails on the rest,
    // and the lossy decode keeps the mark and substitutes the bad byte
    let bytes = vec![0xEF, 0xBB, 0xBF, 0xFF];
    assert_eq!(decode(&bytes), "\u{FEFF}\u{FFFD}");
}
