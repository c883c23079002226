use concatener::concat::concatenate_contents;
use concatener::concat::trim_end_text;
use concatener::sorting::lex_le_bytes;
use concatener::sorting::sort_paths;

fn concat(contents: Vec<&[u8]>) -> String {
    let owned: Vec<Vec<u8>> = contents.into_iter().map(|c| c.to_vec()).collect();
    concatenate_contents(&owned)
}

#[test]
fn test_concatenate_files() {
    let result = concat(vec![b"Hello", b"World"]);
    assert_eq!(result, "Hello\nWorld");
}

#[test]
fn test_concatenate_single_file() {
    let result = concat(vec![b"Single content"]);
    assert_eq!(result, "Single content");
}

#[test]
fn test_concatenate_trims_trailing_newlines() {
    // each file's own trailing whitespace goes; exactly one newline joins
    let result = concat(vec![b"first\n\n", b"second   \n", b"third"]);
    assert_eq!(result, "first\nsecond\nthird");
}

#[test]
fn test_concatenate_nothing() {
    let result = concat(vec![]);
    assert_eq!(result, "");
}

#[test]
fn test_encoding_detection() {
    let utf8_bom = "\u{FEFF}Hello, 世界!".as_bytes().to_vec();
    let utf8 = "Hello, 世界!".as_bytes().to_vec();
    let latin1 = vec![0x48, 0x65, 0x6c, 0x6c, 0x6f, 0x2c, 0x20, 0xe9, 0x20, 0x21];
    let win1252 = vec![0x48, 0x65, 0x6c, 0x6c, 0x6f, 0x2c, 0x20, 0x80, 0x81, 0x82, 0x21];
    let utf16le = vec![
        0xFF, 0xFE, 0x48, 0x00, 0x65, 0x00, 0x6c, 0x00, 0x6c, 0x00, 0x6f, 0x00, 0x2c, 0x00,
        0x20, 0x00, 0x55, 0x00, 0x54, 0x00, 0x46, 0x00, 0x2d, 0x00, 0x31, 0x00, 0x36, 0x00,
        0x4c, 0x00, 0x45, 0x00, 0x21, 0x00,
    ];
    let result = concatenate_contents(&vec![utf8_bom, utf8, latin1, win1252, utf16le]);
    assert!(result.contains("Hello, 世界!"));
    assert!(result.contains("Hello,"));
    assert!(result.contains("UTF-16LE"));
}

#[test]
fn test_trim_end_whitespace_kinds() {
    assert_eq!(trim_end_text("abc \t\r\n"), "abc");
    assert_eq!(trim_end_text("abc\u{a0}\u{2028}"), "abc");
    assert_eq!(trim_end_text("  abc"), "  abc");
    assert_eq!(trim_end_text(""), "");
    assert_eq!(trim_end_text(" \n "), "");
}

#[test]
fn test_sort_paths_lexicographic() {
    let mut files: Vec<Vec<u8>> = vec![
        b"b/two.txt".to_vec(),
        b"a/one.txt".to_vec(),
        b"a/one.txt".to_vec(),
        b"a".to_vec(),
        b"c.txt".to_vec(),
    ];
    sort_paths(&mut files);
    assert_eq!(
        files,
        vec![
            b"a".to_vec(),
            b"a/one.txt".to_vec(),
            b"a/one.txt".to_vec(),
            b"b/two.txt".to_vec(),
            b"c.txt".to_vec(),
        ]
    );
}

#[test]
fn test_sort_is_order_independent() {
    let mut one: Vec<Vec<u8>> = vec![b"z".to_vec(), b"m".to_vec(), b"a".to_vec()];
    let mut two: Vec<Vec<u8>> = vec![b"m".to_vec(), b"a".to_vec(), b"z".to_vec()];
    sort_paths(&mut one);
    sort_paths(&mut two);
    assert_eq!(one, two);
}

#[test]
fn test_lex_le_bytes_order() {
    assert!(lex_le_bytes(&b"a".to_vec(), &b"b".to_vec()));
    assert!(lex_le_bytes(&b"a".to_vec(), &b"a".to_vec()));
    assert!(lex_le_bytes(&b"a".to_vec(), &b"ab".to_vec()));
    assert!(!lex_le_bytes(&b"ab".to_vec(), &b"a".to_vec()));
    assert!(!lex_le_bytes(&b"b".to_vec(), &b"ab".to_vec()));
    assert!(lex_le_bytes(&b"".to_vec(), &b"a".to_vec()));
}
