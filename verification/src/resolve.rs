//! Resolution of input tokens into lists of file paths.
//!
//! A token is classified in a fixed priority order: a directory part joined
//! with a wildcard pattern; an existing directory; a bare wildcard pattern;
//! an existing regular file; otherwise nothing, which is an error. Collection
//! is shallow or depth-first according to the `recursive` flag, and works
//! over a snapshot of the directory tree.

use vstd::prelude::*;

use crate::fstree::Entry;
use crate::fstree::FsNode;
use crate::fstree::Located;
use crate::fstree::LocatedRef;
use crate::fstree::DOT;
use crate::fstree::SLASH;
use crate::fstree::contains_byte;
use crate::fstree::last_slash_at;
use crate::fstree::spec_join;
use crate::fstree::spec_locate;
use crate::pattern::STAR;
use crate::pattern::spec_matches;

verus! {

/// Why a token failed to resolve, at the specification level.
pub enum SpecResolveError {
    /// The token names nothing: no file, no directory, no match context.
    InputNotFound,
    /// The named directory's entries could not be listed.
    DirectoryReadError(Seq<u8>),
}

/// Why a token failed to resolve.
#[derive(Debug)]
pub enum ResolveError {
    /// The token names nothing: no file, no directory, no match context.
    InputNotFound,
    /// The named directory's entries could not be listed.
    DirectoryReadError(Vec<u8>),
}

impl View for ResolveError {
    type V = SpecResolveError;

    open spec fn view(&self) -> SpecResolveError {
        match self {
            ResolveError::InputNotFound => SpecResolveError::InputNotFound,
            ResolveError::DirectoryReadError(p) => SpecResolveError::DirectoryReadError(p@),
        }
    }
}

/// The name passes the filter: either there is none, or it matches.
pub open spec fn spec_opt_matches(filter: Option<Seq<u8>>, name: Seq<u8>) -> bool {
    match filter {
        None => true,
        Some(pat) => spec_matches(name, pat),
    }
}

/// The filter as a specification value.
pub open spec fn filter_view(filter: Option<&Vec<u8>>) -> Option<Seq<u8>> {
    match filter {
        None => None,
        Some(pat) => Some(pat@),
    }
}

/// Paths of the regular files among `entries[i..]` that pass the filter,
/// in entry order, each joined under `base`. Direct children only.
pub open spec fn spec_shallow_from(
    entries: Seq<Entry>,
    base: Seq<u8>,
    filter: Option<Seq<u8>>,
    i: int,
) -> Seq<Seq<u8>>
    decreases entries.len() - i,
{
    if i < 0 || i >= entries.len() {
        seq![]
    } else {
        let e = entries[i];
        let rest = spec_shallow_from(entries, base, filter, i + 1);
        if e.node is File && spec_opt_matches(filter, e.name@) {
            seq![spec_join(base, e.name@)] + rest
        } else {
            rest
        }
    }
}

/// Paths of the regular files among `entries` that pass the filter.
pub open spec fn spec_shallow(entries: Seq<Entry>, base: Seq<u8>, filter: Option<Seq<u8>>) -> Seq<
    Seq<u8>,
> {
    spec_shallow_from(entries, base, filter, 0)
}

/// Paths of the regular files reachable from `entries[i..]` by depth-first
/// descent, in visit order, that pass the filter; or the first unlistable
/// directory met on the way.
pub open spec fn spec_walk_from(
    entries: Seq<Entry>,
    base: Seq<u8>,
    filter: Option<Seq<u8>>,
    i: int,
) -> Result<Seq<Seq<u8>>, SpecResolveError>
    decreases entries, entries.len() - i,
{
    if i < 0 || i >= entries.len() {
        Ok(seq![])
    } else {
        let e = entries[i];
        let p = spec_join(base, e.name@);
        let head = match e.node {
            FsNode::File => if spec_opt_matches(filter, e.name@) {
                Ok(seq![p])
            } else {
                Ok(seq![])
            },
            FsNode::Dir(sub) => spec_walk_from(sub@, p, filter, 0),
            FsNode::Unreadable => Err(SpecResolveError::DirectoryReadError(p)),
        };
        match head {
            Err(er) => Err(er),
            Ok(h) => match spec_walk_from(entries, base, filter, i + 1) {
                Err(er) => Err(er),
                Ok(t) => Ok(h + t),
            },
        }
    }
}

/// Depth-first collection over a whole directory.
pub open spec fn spec_walk(entries: Seq<Entry>, base: Seq<u8>, filter: Option<Seq<u8>>) -> Result<
    Seq<Seq<u8>>,
    SpecResolveError,
> {
    spec_walk_from(entries, base, filter, 0)
}

/// Collection over the directory `base` with entries `entries`: depth-first
/// when `recursive`, direct children only otherwise.
pub open spec fn spec_collect(
    entries: Seq<Entry>,
    base: Seq<u8>,
    filter: Option<Seq<u8>>,
    recursive: bool,
) -> Result<Seq<Seq<u8>>, SpecResolveError> {
    if recursive {
        spec_walk(entries, base, filter)
    } else {
        Ok(spec_shallow(entries, base, filter))
    }
}

/// The path names a directory in the snapshot, listable or not.
pub open spec fn spec_is_dir(root: Seq<Entry>, path: Seq<u8>) -> bool {
    spec_locate(root, path) is Dir || spec_locate(root, path) is Unreadable
}

/// Generic wildcard resolution. A pattern with a separator is split at the
/// last separator into a directory part and a name pattern; the directory is
/// searched if it exists, and the result is empty if it does not. A bare
/// pattern searches the snapshot root: all of it when `recursive`, with
/// found paths under `.`; only the root's own files otherwise, with found
/// paths under `cwd`.
pub open spec fn spec_wildcard(
    input: Seq<u8>,
    recursive: bool,
    root: Seq<Entry>,
    cwd: Seq<u8>,
) -> Result<Seq<Seq<u8>>, SpecResolveError> {
    if input.contains(SLASH) {
        let i = last_slash_at(input).unwrap();
        let dir = input.subrange(0, i);
        let pat = input.subrange(i + 1, input.len() as int);
        match spec_locate(root, dir) {
            Located::Dir(entries) => spec_collect(entries, dir, Some(pat), recursive),
            Located::Unreadable => Err(SpecResolveError::DirectoryReadError(dir)),
            _ => Ok(seq![]),
        }
    } else if recursive {
        spec_walk(root, seq![DOT], Some(input))
    } else {
        Ok(spec_shallow(root, cwd, Some(input)))
    }
}

/// Resolution of one token, in priority order: a directory part with a
/// wildcard pattern; an existing directory; a bare wildcard; an existing
/// file; otherwise `InputNotFound`.
pub open spec fn spec_resolve(
    input: Seq<u8>,
    recursive: bool,
    root: Seq<Entry>,
    cwd: Seq<u8>,
) -> Result<Seq<Seq<u8>>, SpecResolveError> {
    if input.contains(STAR) && input.contains(SLASH) {
        let i = last_slash_at(input).unwrap();
        let dir = input.subrange(0, i);
        let pat = input.subrange(i + 1, input.len() as int);
        match spec_locate(root, dir) {
            Located::Dir(entries) => spec_collect(entries, dir, Some(pat), recursive),
            Located::Unreadable => Err(SpecResolveError::DirectoryReadError(dir)),
            _ => spec_wildcard(input, recursive, root, cwd),
        }
    } else if spec_is_dir(root, input) {
        match spec_locate(root, input) {
            Located::Dir(entries) => spec_collect(entries, input, None, recursive),
            _ => Err(SpecResolveError::DirectoryReadError(input)),
        }
    } else if input.contains(STAR) {
        spec_wildcard(input, recursive, root, cwd)
    } else if spec_locate(root, input) is File {
        Ok(seq![input])
    } else {
        Err(SpecResolveError::InputNotFound)
    }
}

/// A path `p` names a regular file reachable from `entries` under `base`:
/// a chain of directory entries leads from `entries` down to a file whose
/// joined path is `p`.
pub open spec fn reachable_file(entries: Seq<Entry>, base: Seq<u8>, p: Seq<u8>) -> bool
    decreases entries,
{
    exists|k: int|
        #![trigger entries[k]]
        0 <= k < entries.len() && (match entries[k].node {
            FsNode::File => p == spec_join(base, entries[k].name@),
            FsNode::Dir(sub) => reachable_file(sub@, spec_join(base, entries[k].name@), p),
            FsNode::Unreadable => false,
        })
}

/// Membership in a concatenation is membership in either part.
proof fn lemma_contains_add<A>(a: Seq<A>, b: Seq<A>, x: A)
    ensures
        (a + b).contains(x) <==> a.contains(x) || b.contains(x),
{
    if (a + b).contains(x) {
        let i = choose|i: int| 0 <= i < (a + b).len() && (a + b)[i] == x;
        if i < a.len() {
            assert(a[i] == x);
        } else {
            assert(b[i - a.len()] == x);
        }
    }
    if a.contains(x) {
        let i = choose|i: int| 0 <= i < a.len() && a[i] == x;
        assert((a + b)[i] == x);
    }
    if b.contains(x) {
        let i = choose|i: int| 0 <= i < b.len() && b[i] == x;
        assert((a + b)[a.len() + i] == x);
    }
}

/// Law: shallow collection draws only from the directory's own entries:
/// a path is in the result exactly when it is a direct file child whose
/// name passes the filter, joined under `base`. In particular, no path of
/// a file inside a subdirectory ever appears.
pub proof fn lemma_shallow_members(
    entries: Seq<Entry>,
    base: Seq<u8>,
    f: Option<Seq<u8>>,
    p: Seq<u8>,
)
    ensures
        spec_shallow(entries, base, f).contains(p) <==> exists|k: int|
            #![trigger entries[k]]
            0 <= k < entries.len() && entries[k].node is File && spec_opt_matches(
                f,
                entries[k].name@,
            ) && p == spec_join(base, entries[k].name@),
{
    lemma_shallow_members_from(entries, base, f, 0, p);
}

proof fn lemma_shallow_members_from(
    entries: Seq<Entry>,
    base: Seq<u8>,
    f: Option<Seq<u8>>,
    i: int,
    p: Seq<u8>,
)
    requires
        0 <= i <= entries.len(),
    ensures
        spec_shallow_from(entries, base, f, i).contains(p) <==> exists|k: int|
            #![trigger entries[k]]
            i <= k < entries.len() && entries[k].node is File && spec_opt_matches(
                f,
                entries[k].name@,
            ) && p == spec_join(base, entries[k].name@),
    decreases entries.len() - i,
{
    if i == entries.len() {
    } else {
        lemma_shallow_members_from(entries, base, f, i + 1, p);
        let rest = spec_shallow_from(entries, base, f, i + 1);
        let e = entries[i];
        if e.node is File && spec_opt_matches(f, e.name@) {
            let h = seq![spec_join(base, e.name@)];
            lemma_contains_add(h, rest, p);
            assert(h[0] == spec_join(base, e.name@));
            if h.contains(p) {
                assert(p == spec_join(base, e.name@));
            }
            if spec_shallow_from(entries, base, f, i).contains(p) {
                if h.contains(p) {
                    assert(entries[i].node is File && spec_opt_matches(f, entries[i].name@) && p
                        == spec_join(base, entries[i].name@));
                }
            }
            if exists|k: int|
                i <= k < entries.len() && entries[k].node is File && spec_opt_matches(
                    f,
                    entries[k].name@,
                ) && p == spec_join(base, entries[k].name@) {
                let k = choose|k: int|
                    i <= k < entries.len() && entries[k].node is File && spec_opt_matches(
                        f,
                        entries[k].name@,
                    ) && p == spec_join(base, entries[k].name@);
                if k == i {
                    assert(h.contains(p));
                }
            }
        } else {
            if exists|k: int|
                i <= k < entries.len() && entries[k].node is File && spec_opt_matches(
                    f,
                    entries[k].name@,
                ) && p == spec_join(base, entries[k].name@) {
                let k = choose|k: int|
                    i <= k < entries.len() && entries[k].node is File && spec_opt_matches(
                        f,
                        entries[k].name@,
                    ) && p == spec_join(base, entries[k].name@);
                assert(k > i);
            }
        }
    }
}

/// Law: a directory with only regular-file children resolves, without
/// recursion and without a filter, to exactly those children's paths, one
/// per entry, in entry order. Together with `sorting::lemma_sort_deterministic`,
/// the sorted outcome does not depend on the order the entries were listed in.
pub proof fn lemma_shallow_all_files(entries: Seq<Entry>, base: Seq<u8>)
    requires
        forall|k: int| 0 <= k < entries.len() ==> entries[k].node is File,
    ensures
        spec_shallow(entries, base, None) == entries.map_values(
            |e: Entry| spec_join(base, e.name@),
        ),
{
    lemma_shallow_all_files_from(entries, base, 0);
    assert(entries.skip(0) =~= entries);
}

proof fn lemma_shallow_all_files_from(entries: Seq<Entry>, base: Seq<u8>, i: int)
    requires
        0 <= i <= entries.len(),
        forall|k: int| 0 <= k < entries.len() ==> entries[k].node is File,
    ensures
        spec_shallow_from(entries, base, None, i) == entries.skip(i).map_values(
            |e: Entry| spec_join(base, e.name@),
        ),
    decreases entries.len() - i,
{
    let g = |e: Entry| spec_join(base, e.name@);
    if i == entries.len() {
        assert(spec_shallow_from(entries, base, None, i) =~= entries.skip(i).map_values(g));
    } else {
        lemma_shallow_all_files_from(entries, base, i + 1);
        assert(spec_shallow_from(entries, base, None, i) =~= entries.skip(i).map_values(g)) by {
            assert(entries.skip(i)[0] == entries[i]);
            assert(forall|j: int|
                0 <= j < entries.len() - i - 1 ==> #[trigger] entries.skip(i + 1)[j]
                    == entries.skip(i)[j + 1]);
        }
    }
}

/// Law: a bare wildcard pattern resolved without recursion draws only on
/// the working directory's own entries: a path is in the result exactly
/// when it is a direct file child of the snapshot root whose name matches
/// the pattern, joined under the working directory's path. A file inside a
/// subdirectory never appears, matching name or not.
pub proof fn lemma_bare_wildcard_stays_shallow(
    input: Seq<u8>,
    root: Seq<Entry>,
    cwd: Seq<u8>,
    p: Seq<u8>,
)
    requires
        !input.contains(SLASH),
    ensures
        spec_wildcard(input, false, root, cwd) matches Ok(files) && files.contains(p)
            <==> exists|k: int|
            #![trigger root[k]]
            0 <= k < root.len() && root[k].node is File && spec_matches(root[k].name@, input) && p
                == spec_join(cwd, root[k].name@),
{
    lemma_shallow_members(root, cwd, Some(input), p);
}

/// Law: a token without a wildcard that names an existing directory whose
/// children are all regular files resolves, without recursion, to exactly
/// those children's paths, one per entry.
pub proof fn lemma_resolve_plain_dir(input: Seq<u8>, root: Seq<Entry>, cwd: Seq<u8>)
    requires
        !input.contains(STAR),
        spec_locate(root, input) is Dir,
        forall|k: int|
            0 <= k < spec_locate(root, input)->Dir_0.len() ==> (#[trigger] spec_locate(
                root,
                input,
            )->Dir_0[k]).node is File,
    ensures
        spec_resolve(input, false, root, cwd) == Ok::<Seq<Seq<u8>>, SpecResolveError>(
            spec_locate(root, input)->Dir_0.map_values(|e: Entry| spec_join(input, e.name@)),
        ),
{
    lemma_shallow_all_files(spec_locate(root, input)->Dir_0, input);
}

/// Law: recursive resolution of a directory, started from an existing
/// directory token, yields the full set of regular files reachable by
/// depth-first descent: when the walk succeeds, a path is in its result
/// exactly when a chain of directory entries leads to a file of that path.
pub proof fn lemma_walk_reachable(entries: Seq<Entry>, base: Seq<u8>, p: Seq<u8>)
    requires
        spec_walk(entries, base, None) is Ok,
    ensures
        spec_walk(entries, base, None)->Ok_0.contains(p) <==> reachable_file(entries, base, p),
{
    lemma_walk_reachable_from(entries, base, 0, p);
    assert(spec_walk(entries, base, None)->Ok_0.contains(p) <==> exists|k: int|
        #![trigger entries[k]]
        0 <= k < entries.len() && (match entries[k].node {
            FsNode::File => p == spec_join(base, entries[k].name@),
            FsNode::Dir(sub) => reachable_file(sub@, spec_join(base, entries[k].name@), p),
            FsNode::Unreadable => false,
        }));
}

proof fn lemma_walk_reachable_from(entries: Seq<Entry>, base: Seq<u8>, i: int, p: Seq<u8>)
    requires
        0 <= i <= entries.len(),
        spec_walk_from(entries, base, None, i) is Ok,
    ensures
        spec_walk_from(entries, base, None, i)->Ok_0.contains(p) <==> exists|k: int|
            #![trigger entries[k]]
            i <= k < entries.len() && (match entries[k].node {
                FsNode::File => p == spec_join(base, entries[k].name@),
                FsNode::Dir(sub) => reachable_file(sub@, spec_join(base, entries[k].name@), p),
                FsNode::Unreadable => false,
            }),
    decreases entries, entries.len() - i,
{
    if i == entries.len() {
    } else {
        let e = entries[i];
        let q = spec_join(base, e.name@);
        let rest = spec_walk_from(entries, base, None, i + 1);
        assert(rest is Ok);
        lemma_walk_reachable_from(entries, base, i + 1, p);
        let cond = |k: int|
            i <= k < entries.len() && (match entries[k].node {
                FsNode::File => p == spec_join(base, entries[k].name@),
                FsNode::Dir(sub) => reachable_file(sub@, spec_join(base, entries[k].name@), p),
                FsNode::Unreadable => false,
            });
        match e.node {
            FsNode::File => {
                let h = seq![q];
                lemma_contains_add(h, rest->Ok_0, p);
                assert(h[0] == q);
                if h.contains(p) {
                    assert(p == q);
                    assert(cond(i));
                }
                if exists|k: int| #[trigger] cond(k) {
                    let k = choose|k: int| #[trigger] cond(k);
                    if k == i {
                        assert(h.contains(p));
                    }
                }
            },
            FsNode::Dir(sub) => {
                assert(decreases_to!(entries => entries[i]));
                assert(decreases_to!(entries[i] => entries[i].node));
                assert(decreases_to!(entries[i].node => sub@));
                let h = spec_walk_from(sub@, q, None, 0);
                assert(h is Ok);
                lemma_walk_reachable_from(sub@, q, 0, p);
                lemma_contains_add(h->Ok_0, rest->Ok_0, p);
                if h->Ok_0.contains(p) {
                    assert(cond(i));
                }
                if exists|k: int| #[trigger] cond(k) {
                    let k = choose|k: int| #[trigger] cond(k);
                    if k == i {
                        assert(reachable_file(sub@, q, p));
                        assert(h->Ok_0.contains(p));
                    }
                }
            },
            FsNode::Unreadable => {
                assert(false);
            },
        }
    }
}

/// The byte of the home shorthand `~`.
pub const TILDE: u8 = 126;

/// A token of the form `~/rest` with a known home directory expands to the
/// home directory followed by `/rest`; any other token, or an unknown home,
/// leaves the token unchanged.
pub open spec fn spec_expand_home(token: Seq<u8>, home: Option<Seq<u8>>) -> Seq<u8> {
    if token.len() >= 2 && token[0] == TILDE && token[1] == SLASH && home is Some {
        home.unwrap() + token.skip(1)
    } else {
        token
    }
}

/// Expands a leading `~/` to the home directory, when one is known.
pub fn expand_home(token: &Vec<u8>, home: Option<&Vec<u8>>) -> (r: Vec<u8>)
    ensures
        r@ == spec_expand_home(token@, filter_view(home)),
{
    if token.len() >= 2 && token[0] == TILDE && token[1] == SLASH {
        match home {
            Some(h) => {
                let mut r: Vec<u8> = Vec::new();
                r.extend_from_slice(h.as_slice());
                let rest = crate::pattern::copy_range(token, 1, token.len());
                r.extend_from_slice(rest.as_slice());
                proof {
                    assert(r@ =~= h@ + token@.skip(1));
                }
                r
            },
            None => crate::pattern::copy_range(token, 0, token.len()),
        }
    } else {
        let r = crate::pattern::copy_range(token, 0, token.len());
        proof {
            assert(r@ =~= token@);
        }
        r
    }
}

/// An exec resolution result as a specification value.
pub open spec fn res_view(r: Result<Vec<Vec<u8>>, ResolveError>) -> Result<
    Seq<Seq<u8>>,
    SpecResolveError,
> {
    match r {
        Ok(v) => Ok(v.deep_view()),
        Err(e) => Err(e@),
    }
}

/// Whether the name passes the filter.
fn opt_matches(filter: Option<&Vec<u8>>, name: &Vec<u8>) -> (r: bool)
    ensures
        r == spec_opt_matches(filter_view(filter), name@),
{
    match filter {
        None => true,
        Some(pat) => crate::pattern::matches_bytes(name, pat),
    }
}

/// Appends the paths of the direct file children of `dir` that pass the
/// filter, joined under `base`.
fn shallow_entries(dir: &Vec<Entry>, base: &Vec<u8>, filter: Option<&Vec<u8>>, out: &mut Vec<
    Vec<u8>,
>)
    ensures
        final(out).deep_view() == old(out).deep_view() + spec_shallow(
            dir@,
            base@,
            filter_view(filter),
        ),
{
    let ghost out0 = old(out).deep_view();
    let ghost f = filter_view(filter);
    let mut i: usize = 0;
    while i < dir.len()
        invariant
            i <= dir@.len(),
            out.deep_view() + spec_shallow_from(dir@, base@, f, i as int) == out0 + spec_shallow(
                dir@,
                base@,
                f,
            ),
            f == filter_view(filter),
        decreases dir@.len() - i,
    {
        let ghost prev = out.deep_view();
        let ghost rest = spec_shallow_from(dir@, base@, f, i + 1);
        let e = &dir[i];
        match e.node {
            FsNode::File => {
                if opt_matches(filter, &e.name) {
                    let p = crate::fstree::join_path(base, &e.name);
                    out.push(p);
                    proof {
                        assert(out.deep_view() =~~= prev.push(
                            spec_join(base@, dir@[i as int].name@),
                        ));
                        assert(out.deep_view() + rest =~= prev + (seq![
                            spec_join(base@, dir@[i as int].name@),
                        ] + rest));
                    }
                }
            },
            _ => {},
        }
        i = i + 1;
    }
    proof {
        assert(out.deep_view() + spec_shallow_from(dir@, base@, f, i as int) =~= out.deep_view());
    }
}

/// Appends the paths of the regular files reachable from `dir` by
/// depth-first descent that pass the filter, joined under `base`; stops at
/// the first unlistable directory and reports it.
fn walk_entries(dir: &Vec<Entry>, base: &Vec<u8>, filter: Option<&Vec<u8>>, out: &mut Vec<
    Vec<u8>,
>) -> (r: Result<(), ResolveError>)
    ensures
        match spec_walk(dir@, base@, filter_view(filter)) {
            Ok(files) => r is Ok && final(out).deep_view() == old(out).deep_view() + files,
            Err(e) => (r matches Err(ae) && ae@ == e),
        },
    decreases dir@,
{
    let ghost out0 = old(out).deep_view();
    let ghost f = filter_view(filter);
    let mut i: usize = 0;
    while i < dir.len()
        invariant
            i <= dir@.len(),
            match spec_walk_from(dir@, base@, f, i as int) {
                Ok(rest) => spec_walk(dir@, base@, f) matches Ok(all) && out.deep_view() + rest
                    == out0 + all,
                Err(e) => spec_walk(dir@, base@, f) == Err::<Seq<Seq<u8>>, SpecResolveError>(e),
            },
            f == filter_view(filter),
        decreases dir@.len() - i,
    {
        let ghost prev = out.deep_view();
        // What this entry contributes when it is not an error.
        let ghost mut h: Seq<Seq<u8>> = Seq::empty();
        let e = &dir[i];
        let p = crate::fstree::join_path(base, &e.name);
        let ghost sp = spec_join(base@, dir@[i as int].name@);
        match &e.node {
            FsNode::File => {
                if opt_matches(filter, &e.name) {
                    out.push(p);
                    proof {
                        h = seq![sp];
                        assert(out.deep_view() =~~= prev.push(sp));
                        assert(out.deep_view() =~= prev + h);
                    }
                } else {
                    proof {
                        assert(out.deep_view() =~= prev + h);
                    }
                }
            },
            FsNode::Dir(sub) => {
                proof {
                    assert(decreases_to!(dir@ => dir@[i as int]));
                    assert(decreases_to!(dir@[i as int] => dir@[i as int].node));
                    assert(decreases_to!(dir@[i as int].node => sub@));
                }
                let res = walk_entries(sub, &p, filter, out);
                match res {
                    Ok(()) => {
                        proof {
                            h = spec_walk(sub@, sp, f)->Ok_0;
                            assert(out.deep_view() == prev + h);
                        }
                    },
                    Err(ae) => {
                        proof {
                            let e_spec = spec_walk(sub@, sp, f)->Err_0;
                            assert(spec_walk_from(dir@, base@, f, i as int) == Err::<
                                Seq<Seq<u8>>,
                                SpecResolveError,
                            >(e_spec));
                        }
                        return Err(ae);
                    },
                }
            },
            FsNode::Unreadable => {
                proof {
                    assert(spec_walk_from(dir@, base@, f, i as int) == Err::<
                        Seq<Seq<u8>>,
                        SpecResolveError,
                    >(SpecResolveError::DirectoryReadError(sp)));
                }
                return Err(ResolveError::DirectoryReadError(p));
            },
        }
        proof {
            // The entry was not an error: its contribution is `h`, and the
            // collection from `i` is that plus the collection from `i + 1`.
            match spec_walk_from(dir@, base@, f, i + 1) {
                Ok(t) => {
                    assert(spec_walk_from(dir@, base@, f, i as int) == Ok::<
                        Seq<Seq<u8>>,
                        SpecResolveError,
                    >(h + t));
                    assert(out.deep_view() + t =~= prev + (h + t));
                },
                Err(er) => {
                    assert(spec_walk_from(dir@, base@, f, i as int) == Err::<
                        Seq<Seq<u8>>,
                        SpecResolveError,
                    >(er));
                },
            }
        }
        i = i + 1;
    }
    proof {
        assert(spec_walk_from(dir@, base@, f, i as int) == Ok::<Seq<Seq<u8>>, SpecResolveError>(
            Seq::<Seq<u8>>::empty(),
        ));
        assert(out.deep_view() + Seq::<Seq<u8>>::empty() =~= out.deep_view());
    }
    Ok(())
}

/// Collection over one directory: depth-first when `recursive`, direct
/// children only otherwise.
pub fn collect_dir(dir: &Vec<Entry>, base: &Vec<u8>, filter: Option<&Vec<u8>>, recursive: bool) -> (r:
    Result<Vec<Vec<u8>>, ResolveError>)
    ensures
        res_view(r) == spec_collect(dir@, base@, filter_view(filter), recursive),
{
    let mut out: Vec<Vec<u8>> = Vec::new();
    proof {
        assert(out.deep_view() =~= Seq::<Seq<u8>>::empty());
    }
    if recursive {
        match walk_entries(dir, base, filter, &mut out) {
            Ok(()) => {
                proof {
                    let files = spec_walk(dir@, base@, filter_view(filter))->Ok_0;
                    assert(Seq::<Seq<u8>>::empty() + files =~= files);
                }
                Ok(out)
            },
            Err(e) => Err(e),
        }
    } else {
        shallow_entries(dir, base, filter, &mut out);
        proof {
            let files = spec_shallow(dir@, base@, filter_view(filter));
            assert(Seq::<Seq<u8>>::empty() + files =~= files);
        }
        Ok(out)
    }
}

/// Paths of all direct file children of the directory at `base` with
/// entries `dir`.
pub fn collect_files_in_directory(dir: &Vec<Entry>, base: &Vec<u8>) -> (r: Vec<Vec<u8>>)
    ensures
        r.deep_view() == spec_shallow(dir@, base@, None),
{
    let mut out: Vec<Vec<u8>> = Vec::new();
    proof {
        assert(out.deep_view() =~= Seq::<Seq<u8>>::empty());
    }
    shallow_entries(dir, base, None, &mut out);
    proof {
        let files = spec_shallow(dir@, base@, None);
        assert(Seq::<Seq<u8>>::empty() + files =~= files);
    }
    out
}

/// Paths of the direct file children of the directory at `base` whose
/// names match the pattern.
pub fn collect_files_in_directory_with_pattern(dir: &Vec<Entry>, base: &Vec<u8>, pattern: &Vec<
    u8,
>) -> (r: Vec<Vec<u8>>)
    ensures
        r.deep_view() == spec_shallow(dir@, base@, Some(pattern@)),
{
    let mut out: Vec<Vec<u8>> = Vec::new();
    proof {
        assert(out.deep_view() =~= Seq::<Seq<u8>>::empty());
    }
    shallow_entries(dir, base, Some(pattern), &mut out);
    proof {
        let files = spec_shallow(dir@, base@, Some(pattern@));
        assert(Seq::<Seq<u8>>::empty() + files =~= files);
    }
    out
}

/// Paths of every regular file reachable from the directory at `base` by
/// depth-first descent, or the first unlistable directory met.
pub fn collect_files_recursive(dir: &Vec<Entry>, base: &Vec<u8>) -> (r: Result<
    Vec<Vec<u8>>,
    ResolveError,
>)
    ensures
        res_view(r) == spec_walk(dir@, base@, None),
{
    collect_dir(dir, base, None, true)
}

/// Appends the paths of every reachable regular file whose name matches the
/// pattern, by depth-first descent from the directory at `base`; stops at
/// the first unlistable directory and reports it, leaving `files` partial.
pub fn collect_files_recursive_with_pattern(dir: &Vec<Entry>, base: &Vec<u8>, pattern: &Vec<
    u8,
>, files: &mut Vec<Vec<u8>>) -> (r: Result<(), ResolveError>)
    ensures
        match spec_walk(dir@, base@, Some(pattern@)) {
            Ok(fs) => r is Ok && final(files).deep_view() == old(files).deep_view() + fs,
            Err(e) => (r matches Err(ae) && ae@ == e),
        },
{
    walk_entries(dir, base, Some(pattern), files)
}

/// Generic wildcard resolution, shallow or depth-first per `recursive`.
fn wildcard_resolve(input: &Vec<u8>, recursive: bool, root: &Vec<Entry>, cwd: &Vec<u8>) -> (r:
    Result<Vec<Vec<u8>>, ResolveError>)
    ensures
        res_view(r) == spec_wildcard(input@, recursive, root@, cwd@),
{
    match crate::fstree::rfind_slash(input) {
        Some(i) => {
            proof {
                crate::fstree::lemma_last_slash_at(input@);
                assert(match last_slash_at(input@) {
                    Some(k) => 0 <= k < input@.len(),
                    None => true,
                });
                assert((i as int) < input@.len());
                assert(input@.contains(SLASH)) by {
                    assert(input@[i as int] == SLASH);
                }
            }
            let n = input.len();
            let dir = crate::pattern::copy_range(input, 0, i);
            let pat = crate::pattern::copy_range(input, i + 1, n);
            match crate::fstree::locate(root, &dir) {
                LocatedRef::Dir(es) => collect_dir(es, &dir, Some(&pat), recursive),
                LocatedRef::Unreadable => Err(ResolveError::DirectoryReadError(dir)),
                _ => {
                    let out: Vec<Vec<u8>> = Vec::new();
                    proof {
                        assert(out.deep_view() =~= Seq::<Seq<u8>>::empty());
                    }
                    Ok(out)
                },
            }
        },
        None => {
            proof {
                crate::fstree::lemma_last_slash_at(input@);
                assert(!input@.contains(SLASH)) by {
                    if input@.contains(SLASH) {
                        let k = choose|k: int| 0 <= k < input@.len() && input@[k] == SLASH;
                        assert(input@[k] == SLASH);
                    }
                }
            }
            if recursive {
                let mut dot: Vec<u8> = Vec::new();
                dot.push(DOT);
                proof {
                    assert(dot@ =~= seq![DOT]);
                }
                collect_dir(root, &dot, Some(input), true)
            } else {
                collect_dir(root, cwd, Some(input), false)
            }
        },
    }
}

/// Files matching a wildcard pattern, searching only the named directory,
/// or only the snapshot root (standing for the working directory, whose
/// path is `cwd`) when the pattern has no separator. Never descends.
pub fn collect_files_with_wildcard(pattern: &Vec<u8>, root: &Vec<Entry>, cwd: &Vec<u8>) -> (r:
    Result<Vec<Vec<u8>>, ResolveError>)
    ensures
        res_view(r) == spec_wildcard(pattern@, false, root@, cwd@),
{
    wildcard_resolve(pattern, false, root, cwd)
}

/// Files matching a wildcard pattern, searching the directory named before
/// the last separator, or the whole snapshot under `.` when the pattern has
/// no separator, by depth-first descent.
pub fn collect_files_with_wildcard_recursive(pattern: &Vec<u8>, root: &Vec<Entry>) -> (r: Result<
    Vec<Vec<u8>>,
    ResolveError,
>)
    ensures
        res_view(r) == spec_wildcard(pattern@, true, root@, Seq::empty()),
{
    let cwd: Vec<u8> = Vec::new();
    proof {
        assert(cwd@ =~= Seq::<u8>::empty());
    }
    wildcard_resolve(pattern, true, root, &cwd)
}

/// Resolves one input token against the snapshot `root`, in priority order:
/// a directory part with a wildcard pattern; an existing directory; a bare
/// wildcard; an existing regular file; otherwise `InputNotFound`.
pub fn resolve_input_files(input: &Vec<u8>, recursive: bool, root: &Vec<Entry>, cwd: &Vec<u8>) -> (r:
    Result<Vec<Vec<u8>>, ResolveError>)
    ensures
        res_view(r) == spec_resolve(input@, recursive, root@, cwd@),
{
    let has_star = contains_byte(input, STAR);
    let has_slash = contains_byte(input, SLASH);
    if has_star && has_slash {
        match crate::fstree::rfind_slash(input) {
            Some(i) => {
                proof {
                    crate::fstree::lemma_last_slash_at(input@);
                    assert(match last_slash_at(input@) {
                        Some(k) => 0 <= k < input@.len(),
                        None => true,
                    });
                    assert((i as int) < input@.len());
                }
                let n = input.len();
                let dir = crate::pattern::copy_range(input, 0, i);
                let pat = crate::pattern::copy_range(input, i + 1, n);
                match crate::fstree::locate(root, &dir) {
                    LocatedRef::Dir(es) => collect_dir(es, &dir, Some(&pat), recursive),
                    LocatedRef::Unreadable => Err(ResolveError::DirectoryReadError(dir)),
                    _ => wildcard_resolve(input, recursive, root, cwd),
                }
            },
            None => {
                proof {
                    crate::fstree::lemma_last_slash_at(input@);
                    let k = choose|k: int| 0 <= k < input@.len() && input@[k] == SLASH;
                    assert(input@[k] == SLASH);
                    assert(false);
                }
                Err(ResolveError::InputNotFound)
            },
        }
    } else {
        match crate::fstree::locate(root, input) {
            LocatedRef::Dir(es) => collect_dir(es, input, None, recursive),
            LocatedRef::Unreadable => {
                let p = crate::pattern::copy_range(input, 0, input.len());
                proof {
                    assert(p@ =~= input@);
                }
                Err(ResolveError::DirectoryReadError(p))
            },
            LocatedRef::File => {
                if has_star {
                    wildcard_resolve(input, recursive, root, cwd)
                } else {
                    let p = crate::pattern::copy_range(input, 0, input.len());
                    let r = vec![p];
                    proof {
                        assert(r.deep_view() =~~= seq![input@]);
                    }
                    Ok(r)
                }
            },
            LocatedRef::Missing => {
                if has_star {
                    wildcard_resolve(input, recursive, root, cwd)
                } else {
                    Err(ResolveError::InputNotFound)
                }
            },
        }
    }
}

} // verus!
