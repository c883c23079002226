use concatener::fstree::Entry;
use concatener::fstree::FsNode;
use concatener::resolve::resolve_input_files;
use concatener::resolve::expand_home;
use concatener::resolve::ResolveError;

fn file(name: &str) -> Entry {
    Entry { name: name.as_bytes().to_vec(), node: FsNode::File }
}

fn dir(name: &str, entries: Vec<Entry>) -> Entry {
    Entry { name: name.as_bytes().to_vec(), node: FsNode::Dir(entries) }
}

fn unreadable(name: &str) -> Entry {
    Entry { name: name.as_bytes().to_vec(), node: FsNode::Unreadable }
}

fn resolve(input: &str, recursive: bool, root: &Vec<Entry>, cwd: &str) -> Result<Vec<String>, ResolveError> {
    let token = input.as_bytes().to_vec();
    let cwd = cwd.as_bytes().to_vec();
    resolve_input_files(&token, recursive, root, &cwd)
        .map(|paths| paths.into_iter().map(|p| String::from_utf8(p).unwrap()).collect())
}

#[test]
fn test_resolve_single_file() {
    let root = vec![file("test.txt")];
    let files = resolve("test.txt", false, &root, ".").unwrap();
    assert_eq!(files.len(), 1);
    assert_eq!(files[0], "test.txt");
}

#[test]
fn test_resolve_directory() {
    let root = vec![dir(
        "work",
        vec![
            file("file1.txt"),
            file("file2.txt"),
            file("file3.txt"),
            dir("subdir", vec![]),
        ],
    )];
    let files = resolve("work", false, &root, ".").unwrap();
    assert_eq!(files.len(), 3);
    assert!(files.contains(&"work/file1.txt".to_string()));
    assert!(files.contains(&"work/file2.txt".to_string()));
    assert!(files.contains(&"work/file3.txt".to_string()));
}

#[test]
fn test_resolve_wildcard() {
    // the snapshot root stands for the working directory
    let root = vec![file("test1.txt"), file("test2.txt"), file("other.log")];
    let files = resolve("*.txt", false, &root, "/cwd").unwrap();
    assert_eq!(files.len(), 2);
    assert!(files.contains(&"/cwd/test1.txt".to_string()));
    assert!(files.contains(&"/cwd/test2.txt".to_string()));
}

#[test]
fn test_nonexistent_file() {
    let root: Vec<Entry> = vec![];
    let result = resolve("/nonexistent/file.txt", false, &root, ".");
    assert!(result.is_err());
    assert!(matches!(result, Err(ResolveError::InputNotFound)));
}

#[test]
fn test_empty_directory() {
    let root = vec![dir("empty", vec![])];
    let files = resolve("empty", false, &root, ".").unwrap();
    assert_eq!(files.len(), 0);
}

#[test]
fn test_recursive_directory() {
    let root = vec![dir(
        "tree",
        vec![
            file("root1.txt"),
            file("root2.txt"),
            dir(
                "subdir1",
                vec![
                    file("sub1.txt"),
                    file("sub2.txt"),
                    dir("nested", vec![file("nested.txt")]),
                ],
            ),
            dir("subdir2", vec![file("sub3.txt")]),
        ],
    )];
    let files = resolve("tree", true, &root, ".").unwrap();
    assert_eq!(files.len(), 6);
    assert!(files.contains(&"tree/root1.txt".to_string()));
    assert!(files.contains(&"tree/root2.txt".to_string()));
    assert!(files.contains(&"tree/subdir1/sub1.txt".to_string()));
    assert!(files.contains(&"tree/subdir1/sub2.txt".to_string()));
    assert!(files.contains(&"tree/subdir1/nested/nested.txt".to_string()));
    assert!(files.contains(&"tree/subdir2/sub3.txt".to_string()));
}

#[test]
fn test_non_recursive_directory() {
    let root = vec![dir(
        "tree",
        vec![file("root1.txt"), dir("subdir1", vec![file("sub1.txt")])],
    )];
    let files = resolve("tree", false, &root, ".").unwrap();
    assert_eq!(files.len(), 1);
    assert!(files.contains(&"tree/root1.txt".to_string()));
    assert!(!files.iter().any(|f| f.contains("sub1.txt")));
}

#[test]
fn test_recursive_wildcard() {
    // a bare pattern searched recursively walks the whole snapshot under `.`
    let root = vec![
        file("root1.txt"),
        file("root2.log"),
        dir(
            "subdir1",
            vec![
                file("sub1.txt"),
                file("sub2.log"),
                dir("nested", vec![file("nested.txt")]),
            ],
        ),
    ];
    let files = resolve("*.txt", true, &root, "/cwd").unwrap();
    assert_eq!(files.len(), 3);
    let log_files = resolve("*.log", true, &root, "/cwd").unwrap();
    assert_eq!(log_files.len(), 2);
    let non_recursive_files = resolve("*.txt", false, &root, "/cwd").unwrap();
    assert_eq!(non_recursive_files.len(), 1);
}

#[test]
fn test_recursive_wildcard_with_path() {
    let root = vec![
        dir(
            "src",
            vec![
                file("main.rs"),
                file("utils.rs"),
                dir("subdir", vec![file("module.rs")]),
            ],
        ),
        dir("docs", vec![file("readme.md")]),
    ];
    let files = resolve("src/*.rs", true, &root, ".").unwrap();
    assert_eq!(files.len(), 3);
    assert!(files.contains(&"src/main.rs".to_string()));
    assert!(files.contains(&"src/utils.rs".to_string()));
    assert!(files.contains(&"src/subdir/module.rs".to_string()));
}

#[test]
fn test_bare_wildcard_ignores_subdirectories() {
    // a bare pattern without recursion must not see files inside
    // subdirectories, even ones whose names match
    let root = vec![
        file("top.txt"),
        dir("sub", vec![file("inner.txt"), file("deep.txt")]),
    ];
    let files = resolve("*.txt", false, &root, "/cwd").unwrap();
    assert_eq!(files, vec!["/cwd/top.txt".to_string()]);
}

#[test]
fn test_directory_wildcard_non_recursive() {
    let root = vec![dir(
        "data",
        vec![
            file("a.json"),
            file("b.json"),
            file("c.txt"),
            dir("more", vec![file("d.json")]),
        ],
    )];
    let files = resolve("data/*.json", false, &root, ".").unwrap();
    assert_eq!(files.len(), 2);
    assert!(files.contains(&"data/a.json".to_string()));
    assert!(files.contains(&"data/b.json".to_string()));
}

#[test]
fn test_wildcard_missing_directory_is_empty() {
    let root = vec![file("a.txt")];
    let files = resolve("missing/*.txt", false, &root, ".").unwrap();
    assert_eq!(files.len(), 0);
    let files = resolve("missing/*.txt", true, &root, ".").unwrap();
    assert_eq!(files.len(), 0);
}

#[test]
fn test_unreadable_directory_errors() {
    let root = vec![unreadable("locked")];
    let result = resolve("locked", false, &root, ".");
    match result {
        Err(ResolveError::DirectoryReadError(p)) => {
            assert_eq!(p, b"locked".to_vec());
        }
        other => panic!("expected a directory read error, got {:?}", other.is_ok()),
    }
}

#[test]
fn test_unreadable_subdirectory_aborts_walk() {
    let root = vec![dir(
        "tree",
        vec![file("ok.txt"), unreadable("locked")],
    )];
    let result = resolve("tree", true, &root, ".");
    match result {
        Err(ResolveError::DirectoryReadError(p)) => {
            assert_eq!(p, b"tree/locked".to_vec());
        }
        other => panic!("expected a directory read error, got {:?}", other.is_ok()),
    }
    // without recursion the unlistable subdirectory is never opened
    let shallow = resolve("tree", false, &root, ".").unwrap();
    assert_eq!(shallow, vec!["tree/ok.txt".to_string()]);
}

#[test]
fn test_expand_home() {
    let home = b"/home/someone".to_vec();
    let token = b"~/notes.txt".to_vec();
    let expanded = expand_home(&token, Some(&home));
    assert_eq!(expanded, b"/home/someone/notes.txt".to_vec());
    // no home known: unchanged
    let unchanged = expand_home(&token, None);
    assert_eq!(unchanged, token);
    // no shorthand: unchanged
    let plain = b"plain.txt".to_vec();
    assert_eq!(expand_home(&plain, Some(&home)), plain);
}
