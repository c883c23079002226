//! Simple wildcard patterns over file names.
//!
//! A pattern uses at most one `*` marker at the start, the end, or both.
//! The five shapes are: `*` alone (matches everything), `*x*` (the name
//! contains `x`), `*x` (the name ends with `x`), `x*` (the name starts with
//! `x`), and `x` (the name equals `x`). Names and patterns are treated as
//! byte strings, as Rust's own `str` comparisons do on UTF-8 text.

use vstd::prelude::*;
use vstd::string::StrSliceExecFns;
use vstd::string::StringSliceAdditionalSpecFns;

verus! {

/// The byte of the wildcard marker `*`.
pub const STAR: u8 = 42;

/// `p` is a prefix of `s`.
pub open spec fn is_prefix_of(p: Seq<u8>, s: Seq<u8>) -> bool {
    p.len() <= s.len() && s.subrange(0, p.len() as int) == p
}

/// `p` is a suffix of `s`.
pub open spec fn is_suffix_of(p: Seq<u8>, s: Seq<u8>) -> bool {
    p.len() <= s.len() && s.subrange(s.len() - p.len(), s.len() as int) == p
}

/// `sub` occurs in `s` at position `i`.
pub open spec fn is_substring_at(s: Seq<u8>, sub: Seq<u8>, i: int) -> bool {
    0 <= i && i + sub.len() <= s.len() && s.subrange(i, i + sub.len()) == sub
}

/// `sub` occurs somewhere in `s`.
pub open spec fn has_substring(s: Seq<u8>, sub: Seq<u8>) -> bool {
    exists|i: int| is_substring_at(s, sub, i)
}

/// The shape of a parsed pattern, at the specification level.
pub enum SpecPattern {
    MatchAll,
    Contains(Seq<u8>),
    Suffix(Seq<u8>),
    Prefix(Seq<u8>),
    Exact(Seq<u8>),
}

/// A parsed wildcard pattern. Each variant holds the literal part of the
/// pattern, with the `*` markers stripped.
pub enum Pattern {
    MatchAll,
    Contains(Vec<u8>),
    Suffix(Vec<u8>),
    Prefix(Vec<u8>),
    Exact(Vec<u8>),
}

impl View for Pattern {
    type V = SpecPattern;

    open spec fn view(&self) -> SpecPattern {
        match self {
            Pattern::MatchAll => SpecPattern::MatchAll,
            Pattern::Contains(m) => SpecPattern::Contains(m@),
            Pattern::Suffix(s) => SpecPattern::Suffix(s@),
            Pattern::Prefix(p) => SpecPattern::Prefix(p@),
            Pattern::Exact(e) => SpecPattern::Exact(e@),
        }
    }
}

/// How a pattern's text parses into a shape. The rules apply in order:
/// a lone `*`; a leading and a trailing `*`; a leading `*`; a trailing `*`;
/// no `*` anywhere that counts, so the name must match exactly.
pub open spec fn spec_parse_pattern(p: Seq<u8>) -> SpecPattern {
    if p.len() == 1 && p[0] == STAR {
        SpecPattern::MatchAll
    } else if p.len() > 1 && p.first() == STAR && p.last() == STAR {
        SpecPattern::Contains(p.subrange(1, p.len() - 1))
    } else if p.len() >= 1 && p.first() == STAR {
        SpecPattern::Suffix(p.subrange(1, p.len() as int))
    } else if p.len() >= 1 && p.last() == STAR {
        SpecPattern::Prefix(p.subrange(0, p.len() - 1))
    } else {
        SpecPattern::Exact(p)
    }
}

/// What it means for a name to satisfy a parsed pattern.
pub open spec fn spec_shape_matches(pat: SpecPattern, name: Seq<u8>) -> bool {
    match pat {
        SpecPattern::MatchAll => true,
        SpecPattern::Contains(m) => has_substring(name, m),
        SpecPattern::Suffix(s) => is_suffix_of(s, name),
        SpecPattern::Prefix(p) => is_prefix_of(p, name),
        SpecPattern::Exact(e) => name == e,
    }
}

/// What it means for a name to satisfy a pattern's text.
pub open spec fn spec_matches(name: Seq<u8>, pattern: Seq<u8>) -> bool {
    spec_shape_matches(spec_parse_pattern(pattern), name)
}

/// Copies `v[from..to]` into a fresh vector.
pub fn copy_range(v: &Vec<u8>, from: usize, to: usize) -> (r: Vec<u8>)
    requires
        from <= to <= v@.len(),
    ensures
        r@ == v@.subrange(from as int, to as int),
{
    let mut r: Vec<u8> = Vec::new();
    let mut i: usize = from;
    while i < to
        invariant
            from <= i <= to <= v@.len(),
            r@ == v@.subrange(from as int, i as int),
        decreases to - i,
    {
        r.push(v[i]);
        proof {
            assert(r@ =~= v@.subrange(from as int, i + 1 as int));
        }
        i = i + 1;
    }
    r
}

/// Parses a pattern's text into its shape.
pub fn parse_pattern(p: &Vec<u8>) -> (r: Pattern)
    ensures
        r@ == spec_parse_pattern(p@),
{
    let n = p.len();
    if n == 1 && p[0] == STAR {
        Pattern::MatchAll
    } else if n > 1 && p[0] == STAR && p[n - 1] == STAR {
        Pattern::Contains(copy_range(p, 1, n - 1))
    } else if n >= 1 && p[0] == STAR {
        Pattern::Suffix(copy_range(p, 1, n))
    } else if n >= 1 && p[n - 1] == STAR {
        Pattern::Prefix(copy_range(p, 0, n - 1))
    } else {
        let e = copy_range(p, 0, n);
        proof {
            assert(p@.subrange(0, p@.len() as int) =~= p@);
        }
        Pattern::Exact(e)
    }
}

/// `prefix` is a prefix of `name`.
pub fn starts_with_bytes(name: &Vec<u8>, prefix: &Vec<u8>) -> (r: bool)
    ensures
        r == is_prefix_of(prefix@, name@),
{
    if prefix.len() > name.len() {
        return false;
    }
    let mut i: usize = 0;
    while i < prefix.len()
        invariant
            i <= prefix@.len() <= name@.len(),
            forall|j: int| 0 <= j < i ==> name@[j] == prefix@[j],
        decreases prefix@.len() - i,
    {
        if name[i] != prefix[i] {
            proof {
                assert(!is_prefix_of(prefix@, name@)) by {
                    if is_prefix_of(prefix@, name@) {
                        assert(name@.subrange(0, prefix@.len() as int)[i as int] == name@[i as int]);
                    }
                }
            }
            return false;
        }
        i = i + 1;
    }
    proof {
        assert(name@.subrange(0, prefix@.len() as int) =~= prefix@);
    }
    true
}

/// `suffix` is a suffix of `name`.
pub fn ends_with_bytes(name: &Vec<u8>, suffix: &Vec<u8>) -> (r: bool)
    ensures
        r == is_suffix_of(suffix@, name@),
{
    if suffix.len() > name.len() {
        return false;
    }
    let off = name.len() - suffix.len();
    let mut i: usize = 0;
    while i < suffix.len()
        invariant
            i <= suffix@.len() <= name@.len(),
            name@.len() <= usize::MAX,
            off == name@.len() - suffix@.len(),
            forall|j: int| 0 <= j < i ==> name@[off + j] == suffix@[j],
        decreases suffix@.len() - i,
    {
        if name[off + i] != suffix[i] {
            proof {
                assert(!is_suffix_of(suffix@, name@)) by {
                    if is_suffix_of(suffix@, name@) {
                        assert(name@.subrange(
                            name@.len() - suffix@.len(),
                            name@.len() as int,
                        )[i as int] == name@[off + i]);
                    }
                }
            }
            return false;
        }
        i = i + 1;
    }
    proof {
        assert(name@.subrange(name@.len() - suffix@.len(), name@.len() as int) =~= suffix@);
    }
    true
}

/// The two byte strings are equal.
pub fn eq_bytes(a: &Vec<u8>, b: &Vec<u8>) -> (r: bool)
    ensures
        r == (a@ == b@),
{
    if a.len() != b.len() {
        proof {
            assert(a@ != b@) by {
                if a@ == b@ {
                    assert(a@.len() == b@.len());
                }
            }
        }
        return false;
    }
    let r = starts_with_bytes(a, b);
    proof {
        if is_prefix_of(b@, a@) {
            assert(a@.subrange(0, b@.len() as int) =~= a@);
        }
        if a@ == b@ {
            assert(a@.subrange(0, b@.len() as int) =~= b@);
        }
    }
    r
}

/// `sub` occurs in `name` at position `at`.
fn matches_at(name: &Vec<u8>, sub: &Vec<u8>, at: usize) -> (r: bool)
    requires
        at + sub@.len() <= name@.len(),
    ensures
        r == is_substring_at(name@, sub@, at as int),
{
    let nlen = name.len();
    let mut i: usize = 0;
    while i < sub.len()
        invariant
            i <= sub@.len(),
            at + sub@.len() <= name@.len(),
            nlen == name@.len(),
            forall|j: int| 0 <= j < i ==> name@[at + j] == sub@[j],
        decreases sub@.len() - i,
    {
        if name[at + i] != sub[i] {
            proof {
                assert(!is_substring_at(name@, sub@, at as int)) by {
                    if is_substring_at(name@, sub@, at as int) {
                        assert(name@.subrange(at as int, at + sub@.len())[i as int]
                            == name@[at + i]);
                    }
                }
            }
            return false;
        }
        i = i + 1;
    }
    proof {
        assert(name@.subrange(at as int, at + sub@.len()) =~= sub@);
    }
    true
}

/// `sub` occurs somewhere in `name`.
pub fn contains_bytes(name: &Vec<u8>, sub: &Vec<u8>) -> (r: bool)
    ensures
        r == has_substring(name@, sub@),
{
    if sub.len() > name.len() {
        proof {
            assert(!has_substring(name@, sub@)) by {
                if has_substring(name@, sub@) {
                    let i = choose|i: int| is_substring_at(name@, sub@, i);
                }
            }
        }
        return false;
    }
    if sub.len() == 0 {
        proof {
            assert(is_substring_at(name@, sub@, 0)) by {
                assert(name@.subrange(0, 0) =~= sub@);
            }
        }
        return true;
    }
    let nlen = name.len();
    let bound = nlen - sub.len();
    let mut start: usize = 0;
    while start <= bound
        invariant
            nlen == name@.len(),
            bound == name@.len() - sub@.len(),
            1 <= sub@.len() <= name@.len(),
            bound < nlen,
            start <= bound + 1,
            forall|k: int| 0 <= k < start ==> !is_substring_at(name@, sub@, k),
        decreases bound + 1 - start,
    {
        if matches_at(name, sub, start) {
            proof {
                assert(has_substring(name@, sub@)) by {
                    assert(is_substring_at(name@, sub@, start as int));
                }
            }
            return true;
        }
        start = start + 1;
    }
    proof {
        assert(!has_substring(name@, sub@)) by {
            if has_substring(name@, sub@) {
                let i = choose|i: int| is_substring_at(name@, sub@, i);
                assert(i <= bound);
            }
        }
    }
    false
}

impl Pattern {
    /// The name satisfies this pattern.
    pub fn matches(&self, name: &Vec<u8>) -> (r: bool)
        ensures
            r == spec_shape_matches(self@, name@),
    {
        match self {
            Pattern::MatchAll => true,
            Pattern::Contains(m) => contains_bytes(name, m),
            Pattern::Suffix(s) => ends_with_bytes(name, s),
            Pattern::Prefix(p) => starts_with_bytes(name, p),
            Pattern::Exact(e) => eq_bytes(name, e),
        }
    }
}

/// The name satisfies the pattern's text.
pub fn matches_bytes(name: &Vec<u8>, pattern: &Vec<u8>) -> (r: bool)
    ensures
        r == spec_matches(name@, pattern@),
{
    let pat = parse_pattern(pattern);
    pat.matches(name)
}

/// The file name satisfies the wildcard pattern, both given as text.
/// The comparison is over the UTF-8 bytes of the two strings.
pub fn matches_pattern(filename: &str, pattern: &str) -> (r: bool)
    ensures
        r == spec_matches(filename.spec_bytes(), pattern.spec_bytes()),
{
    let name = filename.as_bytes_vec();
    let pat = pattern.as_bytes_vec();
    matches_bytes(&name, &pat)
}

/// Law: the lone `*` pattern matches every name.
pub proof fn lemma_match_all(name: Seq<u8>)
    ensures
        spec_matches(name, seq![STAR]),
{
    assert(seq![STAR][0] == STAR);
}

/// Law: the four shapes with a literal part mean containment, suffix, prefix
/// and exact equality of that part. The literal part must not begin or end
/// with the `*` marker, else it would parse as another shape.
pub proof fn lemma_pattern_shapes(name: Seq<u8>, x: Seq<u8>)
    requires
        x.len() > 0,
        x.first() != STAR,
        x.last() != STAR,
    ensures
        spec_matches(name, seq![STAR] + x + seq![STAR]) == has_substring(name, x),
        spec_matches(name, seq![STAR] + x) == is_suffix_of(x, name),
        spec_matches(name, x + seq![STAR]) == is_prefix_of(x, name),
        spec_matches(name, x) == (name == x),
{
    let c = seq![STAR] + x + seq![STAR];
    assert(c.first() == STAR && c.last() == STAR && c.len() > 1);
    assert(c.subrange(1, c.len() - 1) =~= x);
    let s = seq![STAR] + x;
    assert(s.first() == STAR && s.last() == x.last() && s.len() > 1);
    assert(s.subrange(1, s.len() as int) =~= x);
    let p = x + seq![STAR];
    assert(p.first() == x.first() && p.last() == STAR && p.len() > 1);
    assert(p.subrange(0, p.len() - 1) =~= x);
    assert(x.first() != STAR && x.last() != STAR);
}

} // verus!
