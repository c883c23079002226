//! A snapshot of a directory tree.
//!
//! Resolution works over a snapshot taken by the caller, not over the live
//! file system: a node is a regular file, a directory with its entries, or a
//! directory whose entries could not be listed. Paths are byte strings; path
//! lookup splits on `/`, skipping empty and `.` segments, so `a//b`, `./a/b`
//! and `a/b/` name what `a/b` names.

use vstd::prelude::*;

verus! {

/// The byte of the path separator `/`.
pub const SLASH: u8 = 47;

/// The byte of the current-directory segment `.`.
pub const DOT: u8 = 46;

/// A named entry of a directory.
pub struct Entry {
    pub name: Vec<u8>,
    pub node: FsNode,
}

/// One node of the snapshot.
pub enum FsNode {
    /// A regular file.
    File,
    /// A directory and its entries.
    Dir(Vec<Entry>),
    /// A directory whose entries could not be listed.
    Unreadable,
}

/// What a path names within a snapshot, at the specification level.
pub enum Located {
    /// A readable directory with these entries.
    Dir(Seq<Entry>),
    /// A regular file.
    File,
    /// A directory that cannot be listed.
    Unreadable,
    /// Nothing of that name.
    Missing,
}

/// What a path names within a snapshot: a readable directory, borrowed.
pub enum LocatedRef<'a> {
    Dir(&'a Vec<Entry>),
    File,
    Unreadable,
    Missing,
}

impl<'a> LocatedRef<'a> {
    /// The specification value this reference stands for.
    pub open spec fn view(self) -> Located {
        match self {
            LocatedRef::Dir(entries) => Located::Dir(entries@),
            LocatedRef::File => Located::File,
            LocatedRef::Unreadable => Located::Unreadable,
            LocatedRef::Missing => Located::Missing,
        }
    }
}

/// The first node among `entries` named `name`, if any.
pub open spec fn spec_find(entries: Seq<Entry>, name: Seq<u8>) -> Option<FsNode>
    decreases entries.len(),
{
    if entries.len() == 0 {
        None
    } else if entries[0].name@ == name {
        Some(entries[0].node)
    } else {
        spec_find(entries.drop_first(), name)
    }
}

/// The least index of `SLASH` in `s`, or `s.len()` if there is none.
pub open spec fn first_slash_at(s: Seq<u8>) -> int
    decreases s.len(),
{
    if s.len() == 0 {
        0
    } else if s[0] == SLASH {
        0
    } else {
        1 + first_slash_at(s.drop_first())
    }
}

/// `first_slash_at` is the least index of a slash, within bounds.
pub proof fn lemma_first_slash_at(s: Seq<u8>)
    ensures
        0 <= first_slash_at(s) <= s.len(),
        first_slash_at(s) < s.len() ==> s[first_slash_at(s)] == SLASH,
        forall|j: int| 0 <= j < first_slash_at(s) ==> s[j] != SLASH,
    decreases s.len(),
{
    if s.len() == 0 {
    } else if s[0] == SLASH {
    } else {
        lemma_first_slash_at(s.drop_first());
        assert(forall|j: int| 1 <= j < s.len() ==> s[j] == s.drop_first()[j - 1]);
    }
}

/// The greatest index of `SLASH` in `s`, or `None` if there is none.
pub open spec fn last_slash_at(s: Seq<u8>) -> Option<int>
    decreases s.len(),
{
    if s.len() == 0 {
        None
    } else if s.last() == SLASH {
        Some(s.len() - 1)
    } else {
        last_slash_at(s.drop_last())
    }
}

/// `last_slash_at` is the greatest index of a slash, within bounds.
pub proof fn lemma_last_slash_at(s: Seq<u8>)
    ensures
        match last_slash_at(s) {
            Some(i) => 0 <= i < s.len() && s[i] == SLASH && forall|j: int|
                i < j < s.len() ==> s[j] != SLASH,
            None => forall|j: int| 0 <= j < s.len() ==> s[j] != SLASH,
        },
    decreases s.len(),
{
    if s.len() == 0 {
    } else if s.last() == SLASH {
    } else {
        lemma_last_slash_at(s.drop_last());
        assert(forall|j: int| 0 <= j < s.len() - 1 ==> s[j] == s.drop_last()[j]);
    }
}

/// The path `base` extended by the child name `name`, with one separator
/// between them, none doubled, and a bare name when `base` is empty.
pub open spec fn spec_join(base: Seq<u8>, name: Seq<u8>) -> Seq<u8> {
    if base.len() == 0 {
        name
    } else if base.last() == SLASH {
        base + name
    } else {
        base + seq![SLASH] + name
    }
}

/// What `path` names when resolved among `entries`. An empty path (after
/// skipping separators and `.` segments) names the directory that `entries`
/// list. A path that leads through a file, through an unlistable directory,
/// or through a name that no entry bears, names nothing.
pub open spec fn spec_locate(entries: Seq<Entry>, path: Seq<u8>) -> Located
    decreases path.len(),
    via spec_locate_decreases
{
    if path.len() == 0 {
        Located::Dir(entries)
    } else if path[0] == SLASH {
        spec_locate(entries, path.drop_first())
    } else if path[0] == DOT && (path.len() == 1 || path[1] == SLASH) {
        spec_locate(entries, path.drop_first())
    } else {
        let i = first_slash_at(path);
        let seg = path.subrange(0, i);
        match spec_find(entries, seg) {
            None => Located::Missing,
            Some(node) => if i == path.len() {
                match node {
                    FsNode::Dir(sub) => Located::Dir(sub@),
                    FsNode::File => Located::File,
                    FsNode::Unreadable => Located::Unreadable,
                }
            } else {
                match node {
                    FsNode::Dir(sub) => spec_locate(sub@, path.subrange(i + 1, path.len() as int)),
                    _ => Located::Missing,
                }
            },
        }
    }
}

#[via_fn]
proof fn spec_locate_decreases(entries: Seq<Entry>, path: Seq<u8>) {
    lemma_first_slash_at(path);
}

/// The first entry named `name`, if any.
pub fn find_entry<'a>(entries: &'a Vec<Entry>, name: &Vec<u8>) -> (r: Option<&'a FsNode>)
    ensures
        match r {
            Some(n) => spec_find(entries@, name@) == Some(*n),
            None => spec_find(entries@, name@) is None,
        },
{
    proof {
        assert(entries@.skip(0) =~= entries@);
    }
    let mut i: usize = 0;
    while i < entries.len()
        invariant
            i <= entries@.len(),
            spec_find(entries@, name@) == spec_find(entries@.skip(i as int), name@),
        decreases entries@.len() - i,
    {
        if crate::pattern::eq_bytes(&entries[i].name, name) {
            proof {
                assert(entries@.skip(i as int)[0] == entries@[i as int]);
            }
            return Some(&entries[i].node);
        }
        proof {
            assert(entries@.skip(i as int)[0] == entries@[i as int]);
            assert(entries@.skip(i as int).drop_first() =~= entries@.skip(i + 1));
        }
        i = i + 1;
    }
    proof {
        assert(entries@.skip(i as int) =~= Seq::<Entry>::empty());
    }
    None
}

/// The least index of a slash at or after `from`, or the path's length.
pub fn find_slash(path: &Vec<u8>, from: usize) -> (r: usize)
    requires
        from <= path@.len(),
    ensures
        r - from == first_slash_at(path@.skip(from as int)),
        from <= r <= path@.len(),
{
    let mut j = from;
    while j < path.len()
        invariant
            from <= j <= path@.len(),
            forall|k: int| from <= k < j ==> path@[k] != SLASH,
        decreases path@.len() - j,
    {
        if path[j] == SLASH {
            proof {
                lemma_first_slash_at(path@.skip(from as int));
                assert(path@.skip(from as int)[j - from] == SLASH);
            }
            return j;
        }
        j = j + 1;
    }
    proof {
        lemma_first_slash_at(path@.skip(from as int));
    }
    j
}

/// The greatest index of a slash in the path, or `None`.
pub fn rfind_slash(path: &Vec<u8>) -> (r: Option<usize>)
    ensures
        match r {
            Some(i) => last_slash_at(path@) == Some(i as int),
            None => last_slash_at(path@) is None,
        },
{
    let mut j = path.len();
    while j > 0
        invariant
            j <= path@.len(),
            forall|k: int| j <= k < path@.len() ==> path@[k] != SLASH,
        decreases j,
    {
        j = j - 1;
        if path[j] == SLASH {
            proof {
                lemma_last_slash_at(path@);
                match last_slash_at(path@) {
                    None => {
                        assert(path@[j as int] == SLASH);
                    },
                    Some(i) => {
                        assert(path@[i] == SLASH);
                        assert(path@[j as int] == SLASH);
                    },
                }
            }
            return Some(j);
        }
    }
    proof {
        lemma_last_slash_at(path@);
        match last_slash_at(path@) {
            None => {},
            Some(i) => {
                assert(path@[i] == SLASH);
            },
        }
    }
    None
}

/// The byte `b` occurs in the path.
pub fn contains_byte(path: &Vec<u8>, b: u8) -> (r: bool)
    ensures
        r == path@.contains(b),
{
    let mut i: usize = 0;
    while i < path.len()
        invariant
            i <= path@.len(),
            forall|k: int| 0 <= k < i ==> path@[k] != b,
        decreases path@.len() - i,
    {
        if path[i] == b {
            return true;
        }
        i = i + 1;
    }
    false
}

/// Joins a directory path and a child name into the child's path.
pub fn join_path(base: &Vec<u8>, name: &Vec<u8>) -> (r: Vec<u8>)
    ensures
        r@ == spec_join(base@, name@),
{
    if base.len() == 0 {
        let mut r: Vec<u8> = Vec::new();
        r.extend_from_slice(name.as_slice());
        proof {
            assert(r@ =~= name@);
        }
        return r;
    }
    let mut r: Vec<u8> = Vec::new();
    r.extend_from_slice(base.as_slice());
    if base[base.len() - 1] != SLASH {
        r.push(SLASH);
    }
    r.extend_from_slice(name.as_slice());
    proof {
        if base@.last() == SLASH {
            assert(r@ =~= base@ + name@);
        } else {
            assert(r@ =~= base@ + seq![SLASH] + name@);
        }
    }
    r
}

/// What `path` names when resolved among `entries`.
pub fn locate<'a>(entries: &'a Vec<Entry>, path: &Vec<u8>) -> (r: LocatedRef<'a>)
    ensures
        r.view() == spec_locate(entries@, path@),
{
    proof {
        assert(path@.skip(0) =~= path@);
    }
    let mut cur: &'a Vec<Entry> = entries;
    let mut pos: usize = 0;
    loop
        invariant
            pos <= path@.len(),
            spec_locate(entries@, path@) == spec_locate(cur@, path@.skip(pos as int)),
        decreases path@.len() - pos,
    {
        proof {
            if pos < path@.len() {
                assert(path@.skip(pos as int)[0] == path@[pos as int]);
                assert(path@.skip(pos as int).drop_first() =~= path@.skip(pos + 1));
            }
        }
        if pos == path.len() {
            proof {
                assert(path@.skip(pos as int) =~= Seq::<u8>::empty());
            }
            return LocatedRef::Dir(cur);
        }
        if path[pos] == SLASH {
            pos = pos + 1;
        } else if path[pos] == DOT && (pos + 1 == path.len() || path[pos + 1] == SLASH) {
            proof {
                if pos + 1 < path@.len() {
                    assert(path@.skip(pos as int)[1] == path@[pos + 1]);
                }
            }
            pos = pos + 1;
        } else {
            let j = find_slash(path, pos);
            let seg = crate::pattern::copy_range(path, pos, j);
            proof {
                assert(path@.skip(pos as int).subrange(0, j - pos) =~= path@.subrange(
                    pos as int,
                    j as int,
                ));
                if pos + 1 < path@.len() && path@[pos as int] == DOT {
                    assert(path@.skip(pos as int)[1] == path@[pos + 1]);
                }
            }
            match find_entry(cur, &seg) {
                None => {
                    return LocatedRef::Missing;
                },
                Some(node) => {
                    if j == path.len() {
                        match node {
                            FsNode::Dir(sub) => {
                                return LocatedRef::Dir(sub);
                            },
                            FsNode::File => {
                                return LocatedRef::File;
                            },
                            FsNode::Unreadable => {
                                return LocatedRef::Unreadable;
                            },
                        }
                    } else {
                        match node {
                            FsNode::Dir(sub) => {
                                proof {
                                    assert(path@.skip(pos as int).subrange(
                                        j - pos + 1,
                                        path@.skip(pos as int).len() as int,
                                    ) =~= path@.skip(j + 1));
                                }
                                cur = sub;
                                pos = j + 1;
                            },
                            FsNode::File => {
                                return LocatedRef::Missing;
                            },
                            FsNode::Unreadable => {
                                return LocatedRef::Missing;
                            },
                        }
                    }
                },
            }
        }
    }
}

} // verus!
