use concatener::pattern::matches_pattern;

#[test]
fn test_pattern_matching() {
    assert!(matches_pattern("test.txt", "*.txt"));
    assert!(matches_pattern("test.txt", "test*"));
    assert!(matches_pattern("test.txt", "*txt"));
    assert!(matches_pattern("test.txt", "*test*"));
    assert!(matches_pattern("test.txt", "test.txt"));
    assert!(matches_pattern("test.txt", "*"));

    assert!(!matches_pattern("test.txt", "*.log"));
    assert!(!matches_pattern("test.txt", "other*"));
    assert!(!matches_pattern("test.txt", "*other"));
    assert!(!matches_pattern("test.txt", "other.txt"));
}

#[test]
fn test_match_all_star() {
    assert!(matches_pattern("", "*"));
    assert!(matches_pattern("a", "*"));
    assert!(matches_pattern("anything.at.all", "*"));
}

#[test]
fn test_pattern_shapes() {
    // containment
    assert!(matches_pattern("abcde", "*cd*"));
    assert!(!matches_pattern("abcde", "*xy*"));
    // suffix
    assert!(matches_pattern("archive.tar.gz", "*.gz"));
    assert!(!matches_pattern("archive.tar.gz", "*.tar"));
    // prefix
    assert!(matches_pattern("report-2024", "report*"));
    assert!(!matches_pattern("summary-2024", "report*"));
    // exact
    assert!(matches_pattern("notes", "notes"));
    assert!(!matches_pattern("notes2", "notes"));
}

#[test]
fn test_degenerate_patterns() {
    // a double star means "contains the empty string": always true
    assert!(matches_pattern("x", "**"));
    assert!(matches_pattern("", "**"));
    // an empty pattern matches only the empty name
    assert!(matches_pattern("", ""));
    assert!(!matches_pattern("x", ""));
}
