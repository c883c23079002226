use concatener::fstree::Entry;
use concatener::fstree::FsNode;
use concatener::resolve::collect_files_in_directory;
use concatener::resolve::collect_files_in_directory_with_pattern;
use concatener::resolve::collect_files_recursive;
use concatener::resolve::collect_files_recursive_with_pattern;
use concatener::resolve::collect_files_with_wildcard;
use concatener::resolve::collect_files_with_wildcard_recursive;
use concatener::resolve::ResolveError;

fn file(name: &str) -> Entry {
    Entry { name: name.as_bytes().to_vec(), node: FsNode::File }
}

fn dir(name: &str, entries: Vec<Entry>) -> Entry {
    Entry { name: name.as_bytes().to_vec(), node: FsNode::Dir(entries) }
}

fn strings(paths: Vec<Vec<u8>>) -> Vec<String> {
    paths.into_iter().map(|p| String::from_utf8(p).unwrap()).collect()
}

#[test]
fn test_collect_files_in_directory() {
    let entries = vec![file("a.txt"), dir("sub", vec![file("inner.txt")]), file("b.log")];
    let base = b"top".to_vec();
    let files = strings(collect_files_in_directory(&entries, &base));
    assert_eq!(files, vec!["top/a.txt".to_string(), "top/b.log".to_string()]);
}

#[test]
fn test_collect_files_in_directory_with_pattern() {
    let entries = vec![file("a.txt"), file("b.log"), file("c.txt")];
    let base = b"top".to_vec();
    let pattern = b"*.txt".to_vec();
    let files = strings(collect_files_in_directory_with_pattern(&entries, &base, &pattern));
    assert_eq!(files, vec!["top/a.txt".to_string(), "top/c.txt".to_string()]);
}

#[test]
fn test_collect_files_recursive() {
    let entries = vec![file("a.txt"), dir("sub", vec![file("inner.txt")])];
    let base = b"top".to_vec();
    let files = strings(collect_files_recursive(&entries, &base).unwrap());
    assert_eq!(
        files,
        vec!["top/a.txt".to_string(), "top/sub/inner.txt".to_string()]
    );
}

#[test]
fn test_collect_files_recursive_with_pattern() {
    let entries = vec![
        file("a.txt"),
        file("skip.log"),
        dir("sub", vec![file("inner.txt"), file("inner.log")]),
    ];
    let base = b"top".to_vec();
    let pattern = b"*.txt".to_vec();
    let mut files: Vec<Vec<u8>> = Vec::new();
    collect_files_recursive_with_pattern(&entries, &base, &pattern, &mut files).unwrap();
    assert_eq!(
        strings(files),
        vec!["top/a.txt".to_string(), "top/sub/inner.txt".to_string()]
    );
}

#[test]
fn test_collect_files_recursive_reports_unreadable() {
    let entries = vec![
        file("a.txt"),
        Entry { name: b"locked".to_vec(), node: FsNode::Unreadable },
    ];
    let base = b"top".to_vec();
    let result = collect_files_recursive(&entries, &base);
    match result {
        Err(ResolveError::DirectoryReadError(p)) => assert_eq!(p, b"top/locked".to_vec()),
        _ => panic!("expected a directory read error"),
    }
}

#[test]
fn test_collect_files_with_wildcard() {
    let root = vec![
        file("one.md"),
        file("two.md"),
        dir("notes", vec![file("three.md")]),
    ];
    let cwd = b"/work".to_vec();
    let pattern = b"*.md".to_vec();
    let files = strings(collect_files_with_wildcard(&pattern, &root, &cwd).unwrap());
    assert_eq!(files, vec!["/work/one.md".to_string(), "/work/two.md".to_string()]);

    let with_path = b"notes/*.md".to_vec();
    let files = strings(collect_files_with_wildcard(&with_path, &root, &cwd).unwrap());
    assert_eq!(files, vec!["notes/three.md".to_string()]);
}

#[test]
fn test_collect_files_with_wildcard_recursive() {
    let root = vec![
        file("one.md"),
        dir("notes", vec![file("three.md"), file("readme.txt")]),
    ];
    let pattern = b"*.md".to_vec();
    let files = strings(collect_files_with_wildcard_recursive(&pattern, &root).unwrap());
    assert_eq!(
        files,
        vec!["./one.md".to_string(), "./notes/three.md".to_string()]
    );

    let with_path = b"notes/*.md".to_vec();
    let files = strings(collect_files_with_wildcard_recursive(&with_path, &root).unwrap());
    assert_eq!(files, vec!["notes/three.md".to_string()]);
}
