use concatener::fstree::join_path;
use concatener::fstree::locate;
use concatener::fstree::Entry;
use concatener::fstree::FsNode;
use concatener::fstree::LocatedRef;

fn file(name: &str) -> Entry {
    Entry { name: name.as_bytes().to_vec(), node: FsNode::File }
}

fn dir(name: &str, entries: Vec<Entry>) -> Entry {
    Entry { name: name.as_bytes().to_vec(), node: FsNode::Dir(entries) }
}

#[test]
fn test_join_path_separators() {
    assert_eq!(join_path(&b"top".to_vec(), &b"a.txt".to_vec()), b"top/a.txt".to_vec());
    assert_eq!(join_path(&b"top/".to_vec(), &b"a.txt".to_vec()), b"top/a.txt".to_vec());
    assert_eq!(join_path(&b"".to_vec(), &b"a.txt".to_vec()), b"a.txt".to_vec());
    assert_eq!(join_path(&b".".to_vec(), &b"a.txt".to_vec()), b"./a.txt".to_vec());
}

#[test]
fn test_locate_paths() {
    let root = vec![
        file("a.txt"),
        dir("sub", vec![file("inner.txt"), dir("deep", vec![])]),
    ];
    assert!(matches!(locate(&root, &b"a.txt".to_vec()), LocatedRef::File));
    assert!(matches!(locate(&root, &b"sub".to_vec()), LocatedRef::Dir(_)));
    assert!(matches!(locate(&root, &b"sub/inner.txt".to_vec()), LocatedRef::File));
    assert!(matches!(locate(&root, &b"sub/deep".to_vec()), LocatedRef::Dir(_)));
    assert!(matches!(locate(&root, &b"missing".to_vec()), LocatedRef::Missing));
    assert!(matches!(locate(&root, &b"a.txt/no".to_vec()), LocatedRef::Missing));
}

#[test]
fn test_locate_normalizes_segments() {
    let root = vec![dir("sub", vec![file("inner.txt")])];
    // separators collapse, `.` segments vanish, a trailing slash is ignored
    assert!(matches!(locate(&root, &b"./sub//inner.txt".to_vec()), LocatedRef::File));
    assert!(matches!(locate(&root, &b"sub/".to_vec()), LocatedRef::Dir(_)));
    assert!(matches!(locate(&root, &b"".to_vec()), LocatedRef::Dir(_)));
    assert!(matches!(locate(&root, &b"/sub/inner.txt".to_vec()), LocatedRef::File));
}

#[test]
fn test_locate_unreadable() {
    let root = vec![
        Entry { name: b"locked".to_vec(), node: FsNode::Unreadable },
    ];
    assert!(matches!(locate(&root, &b"locked".to_vec()), LocatedRef::Unreadable));
    // nothing can be seen through an unlistable directory
    assert!(matches!(locate(&root, &b"locked/x".to_vec()), LocatedRef::Missing));
}
