//! Joining decoded file contents into one output text.
//!
//! Each file's decoded text loses its trailing whitespace, and the texts
//! are joined with exactly one newline between neighbours: no blank line
//! from a file's own trailing newlines, and no newline after the last file.

use vstd::prelude::*;
use vstd::string::StrSliceExecFns;
use vstd::string::StringExecFns;

use crate::decode::spec_decode;

verus! {

/// The character has the Unicode White_Space property, the set that Rust's
/// own trimming of whitespace goes by.
pub open spec fn is_space_char(c: char) -> bool {
    let u = c as u32;
    u == 0x09 || u == 0x0a || u == 0x0b || u == 0x0c || u == 0x0d || u == 0x20 || u == 0x85 || u
        == 0xa0 || u == 0x1680 || (0x2000 <= u && u <= 0x200a) || u == 0x2028 || u == 0x2029 || u
        == 0x202f || u == 0x205f || u == 0x3000
}

/// The text with every trailing whitespace character removed.
pub open spec fn spec_trim_end(s: Seq<char>) -> Seq<char>
    decreases s.len(),
{
    if s.len() > 0 && is_space_char(s.last()) {
        spec_trim_end(s.drop_last())
    } else {
        s
    }
}

/// The texts joined with one newline between neighbours.
pub open spec fn spec_join_texts(texts: Seq<Seq<char>>) -> Seq<char>
    decreases texts.len(),
{
    if texts.len() == 0 {
        Seq::empty()
    } else if texts.len() == 1 {
        texts[0]
    } else {
        texts[0] + seq!['\n'] + spec_join_texts(texts.drop_first())
    }
}

/// The whole output text for a list of files' raw contents: each decoded
/// through the cascade, trimmed of trailing whitespace, and joined with one
/// newline between neighbours.
pub open spec fn spec_concat_output(contents: Seq<Seq<u8>>) -> Seq<char> {
    spec_join_texts(contents.map_values(|b: Seq<u8>| spec_trim_end(spec_decode(b))))
}

/// Law: joining one more text appends a newline and that text, except that
/// the first text arrives bare.
pub proof fn lemma_join_push(ts: Seq<Seq<char>>, t: Seq<char>)
    ensures
        ts.len() == 0 ==> spec_join_texts(ts.push(t)) == t,
        ts.len() >= 1 ==> spec_join_texts(ts.push(t)) == spec_join_texts(ts) + seq!['\n'] + t,
    decreases ts.len(),
{
    if ts.len() == 0 {
        assert(ts.push(t).len() == 1);
        assert(ts.push(t)[0] == t);
    } else if ts.len() == 1 {
        assert(ts.push(t).len() == 2);
        assert(ts.push(t)[0] == ts[0]);
        assert(ts.push(t).drop_first() =~= seq![t]);
        assert(spec_join_texts(seq![t]) == t);
    } else {
        lemma_join_push(ts.drop_first(), t);
        assert(ts.push(t).drop_first() =~= ts.drop_first().push(t));
        assert(ts.push(t)[0] == ts[0]);
        assert(ts[0] + seq!['\n'] + (spec_join_texts(ts.drop_first()) + seq!['\n'] + t) =~= (ts[0]
            + seq!['\n'] + spec_join_texts(ts.drop_first())) + seq!['\n'] + t);
    }
}

/// The character has the Unicode White_Space property.
pub fn is_trailing_space(c: char) -> (r: bool)
    ensures
        r == is_space_char(c),
{
    let u = c as u32;
    u == 0x09 || u == 0x0a || u == 0x0b || u == 0x0c || u == 0x0d || u == 0x20 || u == 0x85 || u
        == 0xa0 || u == 0x1680 || (0x2000 <= u && u <= 0x200a) || u == 0x2028 || u == 0x2029 || u
        == 0x202f || u == 0x205f || u == 0x3000
}

/// The text with every trailing whitespace character removed.
pub fn trim_end_text(s: &str) -> (r: String)
    ensures
        r@ == spec_trim_end(s@),
{
    let n = s.unicode_len();
    let mut k = n;
    proof {
        assert(s@.take(n as int) =~= s@);
    }
    loop
        invariant
            k <= n,
            n == s@.len(),
            spec_trim_end(s@) == spec_trim_end(s@.take(k as int)),
        ensures
            k <= s@.len(),
            spec_trim_end(s@) == s@.take(k as int),
        decreases k,
    {
        if k == 0 {
            proof {
                assert(s@.take(0) =~= Seq::<char>::empty());
            }
            break ;
        }
        let c = s.get_char(k - 1);
        if !is_trailing_space(c) {
            proof {
                assert(s@.take(k as int).last() == s@[k - 1]);
                assert(spec_trim_end(s@.take(k as int)) == s@.take(k as int));
            }
            break ;
        }
        proof {
            assert(s@.take(k as int).last() == s@[k - 1]);
            assert(s@.take(k as int).drop_last() =~= s@.take(k - 1));
        }
        k = k - 1;
    }
    let r = s.substring_char(0, k);
    proof {
        assert(r@ =~= s@.take(k as int));
    }
    r.to_owned()
}

/// `Vec<u8>` views and deep views agree.
pub proof fn lemma_bytes_deep_view(v: Vec<u8>)
    ensures
        v.deep_view() == v@,
{
    assert(v.deep_view() =~= v@);
}

/// Builds the whole output text for a list of files' raw contents: each
/// decoded through the cascade, trimmed of trailing whitespace, and joined
/// with one newline between neighbours.
pub fn concatenate_contents(contents: &Vec<Vec<u8>>) -> (r: String)
    requires
        forall|i: int| 0 <= i < contents@.len() ==> contents@[i]@.len() <= usize::MAX / 4,
    ensures
        r@ == spec_concat_output(contents.deep_view()),
{
    let ghost mapped = contents.deep_view().map_values(
        |b: Seq<u8>| spec_trim_end(spec_decode(b)),
    );
    let mut out = String::new();
    proof {
        assert(mapped.take(0) =~= Seq::<Seq<char>>::empty());
    }
    let mut i: usize = 0;
    while i < contents.len()
        invariant
            i <= contents@.len(),
            forall|k: int| 0 <= k < contents@.len() ==> contents@[k]@.len() <= usize::MAX / 4,
            mapped == contents.deep_view().map_values(
                |b: Seq<u8>| spec_trim_end(spec_decode(b)),
            ),
            mapped.len() == contents@.len(),
            out@ == spec_join_texts(mapped.take(i as int)),
        decreases contents@.len() - i,
    {
        let decoded = crate::decode::decode_with_encoding_detection(&contents[i]);
        let trimmed = trim_end_text(decoded.as_str());
        proof {
            lemma_bytes_deep_view(contents@[i as int]);
            assert(mapped[i as int] == spec_trim_end(spec_decode(contents.deep_view()[i as int])));
            assert(trimmed@ == mapped[i as int]);
            lemma_join_push(mapped.take(i as int), mapped[i as int]);
            assert(mapped.take(i as int).push(mapped[i as int]) =~= mapped.take(i + 1));
        }
        if i > 0 {
            out.append("\n");
            proof {
                reveal_strlit("\n");
                assert(("\n")@ =~= seq!['\n']);
            }
        }
        out.append(trimmed.as_str());
        i = i + 1;
    }
    proof {
        assert(mapped.take(i as int) =~= mapped);
    }
    out
}

} // verus!
