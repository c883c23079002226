//! Ordering of resolved paths.
//!
//! The aggregate file list is sorted by byte-wise lexicographic comparison
//! of the path strings. This order is the sole determinant of output order:
//! two lists that hold the same paths sort to the same sequence, whatever
//! order collection produced them in.

use vstd::prelude::*;
use vstd::multiset::Multiset;
use vstd::relations::sorted_by;
use vstd::relations::total_ordering;
use vstd::seq_lib::lemma_multiset_commutative;
use vstd::seq_lib::lemma_sorted_unique;

use crate::concat::lemma_bytes_deep_view;

verus! {

/// Byte-wise lexicographic order: the empty string first, then by the first
/// differing byte, a proper prefix before its extensions.
pub open spec fn lex_le(a: Seq<u8>, b: Seq<u8>) -> bool
    decreases a.len(),
{
    if a.len() == 0 {
        true
    } else if b.len() == 0 {
        false
    } else if a[0] < b[0] {
        true
    } else if a[0] > b[0] {
        false
    } else {
        lex_le(a.drop_first(), b.drop_first())
    }
}

/// The lexicographic order as a relation value.
pub open spec fn lex_leq() -> spec_fn(Seq<u8>, Seq<u8>) -> bool {
    |a: Seq<u8>, b: Seq<u8>| lex_le(a, b)
}

/// The order is reflexive.
pub proof fn lemma_lex_refl(a: Seq<u8>)
    ensures
        lex_le(a, a),
    decreases a.len(),
{
    if a.len() > 0 {
        lemma_lex_refl(a.drop_first());
    }
}

/// The order is antisymmetric.
pub proof fn lemma_lex_antisym(a: Seq<u8>, b: Seq<u8>)
    requires
        lex_le(a, b),
        lex_le(b, a),
    ensures
        a == b,
    decreases a.len(),
{
    if a.len() == 0 {
        assert(a =~= b);
    } else {
        assert(b.len() > 0);
        assert(a[0] == b[0]);
        lemma_lex_antisym(a.drop_first(), b.drop_first());
        assert(a.drop_first().len() == a.len() - 1);
        assert(b.drop_first().len() == b.len() - 1);
        assert(a.len() == b.len());
        assert forall|i: int| 0 <= i < a.len() implies a[i] == b[i] by {
            if i >= 1 {
                assert(a[i] == a.drop_first()[i - 1]);
                assert(b[i] == b.drop_first()[i - 1]);
            }
        }
        assert(a =~= b);
    }
}

/// The order is transitive.
pub proof fn lemma_lex_trans(a: Seq<u8>, b: Seq<u8>, c: Seq<u8>)
    requires
        lex_le(a, b),
        lex_le(b, c),
    ensures
        lex_le(a, c),
    decreases a.len(),
{
    if a.len() == 0 {
    } else {
        assert(b.len() > 0);
        assert(c.len() > 0);
        if a[0] == b[0] && b[0] == c[0] {
            lemma_lex_trans(a.drop_first(), b.drop_first(), c.drop_first());
        }
    }
}

/// Any two byte strings are comparable.
pub proof fn lemma_lex_total(a: Seq<u8>, b: Seq<u8>)
    ensures
        lex_le(a, b) || lex_le(b, a),
    decreases a.len(),
{
    if a.len() == 0 || b.len() == 0 {
    } else if a[0] == b[0] {
        lemma_lex_total(a.drop_first(), b.drop_first());
    }
}

/// The lexicographic order is a total ordering.
pub proof fn lemma_lex_total_ordering()
    ensures
        total_ordering(lex_leq()),
{
    let leq = lex_leq();
    assert forall|a: Seq<u8>| #[trigger] leq(a, a) by {
        lemma_lex_refl(a);
    }
    assert forall|a: Seq<u8>, b: Seq<u8>| #[trigger] leq(a, b) && #[trigger] leq(b, a) implies a
        == b by {
        lemma_lex_antisym(a, b);
    }
    assert forall|a: Seq<u8>, b: Seq<u8>, c: Seq<u8>|
        #[trigger] leq(a, b) && #[trigger] leq(b, c) implies leq(a, c) by {
        lemma_lex_trans(a, b, c);
    }
    assert forall|a: Seq<u8>, b: Seq<u8>| !(#[trigger] leq(a, b)) implies leq(b, a) by {
        lemma_lex_total(a, b);
    }
}

/// Law: sorting is deterministic. Two sorted lists that hold the same paths
/// with the same multiplicities are the same list, so the sorted order does
/// not depend on the order in which collection found the paths.
pub proof fn lemma_sort_deterministic(a: Seq<Seq<u8>>, b: Seq<Seq<u8>>)
    requires
        sorted_by(a, lex_leq()),
        sorted_by(b, lex_leq()),
        a.to_multiset() == b.to_multiset(),
    ensures
        a == b,
{
    lemma_lex_total_ordering();
    lemma_sorted_unique(a, b, lex_leq());
}

/// The first path is at or before the second in lexicographic order.
pub fn lex_le_bytes(a: &Vec<u8>, b: &Vec<u8>) -> (r: bool)
    ensures
        r == lex_le(a@, b@),
{
    proof {
        assert(a@.skip(0) =~= a@);
        assert(b@.skip(0) =~= b@);
    }
    let mut i: usize = 0;
    loop
        invariant
            i <= a@.len(),
            i <= b@.len(),
            lex_le(a@, b@) == lex_le(a@.skip(i as int), b@.skip(i as int)),
        decreases a@.len() - i,
    {
        proof {
            if (i as int) < a@.len() {
                assert(a@.skip(i as int)[0] == a@[i as int]);
                assert(a@.skip(i as int).drop_first() =~= a@.skip(i + 1));
            }
            if (i as int) < b@.len() {
                assert(b@.skip(i as int)[0] == b@[i as int]);
                assert(b@.skip(i as int).drop_first() =~= b@.skip(i + 1));
            }
        }
        if i == a.len() {
            proof {
                assert(a@.skip(i as int).len() == 0);
            }
            return true;
        }
        if i == b.len() {
            proof {
                assert(b@.skip(i as int).len() == 0);
                assert(a@.skip(i as int).len() > 0);
            }
            return false;
        }
        if a[i] < b[i] {
            return true;
        }
        if a[i] > b[i] {
            return false;
        }
        i = i + 1;
    }
}

/// Inserts a path into a sorted list, keeping it sorted; the contents grow
/// by exactly that path.
fn insert_sorted(out: &mut Vec<Vec<u8>>, x: Vec<u8>)
    requires
        sorted_by(old(out).deep_view(), lex_leq()),
    ensures
        sorted_by(final(out).deep_view(), lex_leq()),
        final(out).deep_view().to_multiset() == old(out).deep_view().to_multiset().insert(x@),
{
    broadcast use vstd::seq_lib::group_to_multiset_ensures;
    broadcast use vstd::multiset::group_multiset_axioms;

    let ghost before = out.deep_view();
    let mut p: usize = 0;
    loop
        invariant
            p <= out@.len(),
            out.deep_view() == before,
            before.len() == out@.len(),
            forall|j: int| 0 <= j < p ==> lex_le(#[trigger] before[j], x@),
        ensures
            p <= before.len(),
            out.deep_view() == before,
            before.len() == out@.len(),
            forall|j: int| 0 <= j < p ==> lex_le(#[trigger] before[j], x@),
            (p as int) < before.len() ==> !lex_le(before[p as int], x@),
        decreases out@.len() - p,
    {
        if p == out.len() {
            break ;
        }
        let keep_going = lex_le_bytes(&out[p], &x);
        proof {
            lemma_bytes_deep_view(out@[p as int]);
            assert(before[p as int] == out@[p as int].deep_view());
        }
        if !keep_going {
            break ;
        }
        p = p + 1;
    }
    let ghost stop = p as int;
    out.insert(p, x);
    proof {
        lemma_bytes_deep_view(x);
        let after = out.deep_view();
        assert(after =~~= before.take(stop) + seq![x@] + before.skip(stop)) by {
            assert(forall|k: int| 0 <= k < after.len() ==> after[k] == out@[k].deep_view());
        }
        // Sortedness: everything before the slot is at most `x`, and `x` is
        // at most everything from the slot on.
        assert forall|i: int, j: int| 0 <= i < j < after.len() implies lex_leq()(
            after[i],
            after[j],
        ) by {
            assert(before =~= before.take(stop) + before.skip(stop));
            if i < stop {
                assert(after[i] == before[i]);
            } else if i > stop {
                assert(after[i] == before[i - 1]);
            }
            if j < stop {
                assert(after[j] == before[j]);
            } else if j > stop {
                assert(after[j] == before[j - 1]);
            }
            if i == stop {
                // x sits before every kept element from the slot on
                assert(j > stop && stop < before.len());
                lemma_lex_total(before[stop], x@);
                assert(lex_le(x@, before[stop]));
                if j - 1 > stop {
                    assert(lex_leq()(before[stop], before[j - 1]));
                    lemma_lex_trans(x@, before[stop], before[j - 1]);
                }
            } else if j == stop {
                assert(lex_le(before[i], x@));
            }
        }
        // Contents: splitting at the slot accounts for every element once.
        assert(before.take(stop) + before.skip(stop) =~= before);
        lemma_multiset_commutative(before.take(stop) + seq![x@], before.skip(stop));
        lemma_multiset_commutative(before.take(stop), seq![x@]);
        lemma_multiset_commutative(before.take(stop), before.skip(stop));
        assert(seq![x@].to_multiset() =~= Multiset::<Seq<u8>>::empty().insert(x@)) by {
            assert(seq![x@] =~= Seq::<Seq<u8>>::empty().push(x@));
        }
        assert(after.to_multiset() =~= before.to_multiset().insert(x@));
    }
}

/// Sorts the path list in place, byte-wise lexicographically; the contents
/// are kept, multiplicities included.
pub fn sort_paths(files: &mut Vec<Vec<u8>>)
    ensures
        sorted_by(final(files).deep_view(), lex_leq()),
        final(files).deep_view().to_multiset() == old(files).deep_view().to_multiset(),
{
    broadcast use vstd::seq_lib::group_to_multiset_ensures;
    broadcast use vstd::multiset::group_multiset_axioms;

    let ghost orig = files.deep_view();
    let mut out: Vec<Vec<u8>> = Vec::new();
    proof {
        assert(out.deep_view() =~= Seq::<Seq<u8>>::empty());
        assert(Seq::<Seq<u8>>::empty().to_multiset() =~= Multiset::<Seq<u8>>::empty()) by {
            Seq::<Seq<u8>>::empty().to_multiset_ensures();
        }
        assert(out.deep_view().to_multiset().add(files.deep_view().to_multiset())
            =~= orig.to_multiset());
    }
    while files.len() > 0
        invariant
            sorted_by(out.deep_view(), lex_leq()),
            out.deep_view().to_multiset().add(files.deep_view().to_multiset())
                == orig.to_multiset(),
        decreases files@.len(),
    {
        let ghost files_before = files.deep_view();
        let ghost pre_v = files@;
        let x = files.pop();
        match x {
            Some(x) => {
                proof {
                    lemma_bytes_deep_view(x);
                    assert(files_before =~~= files.deep_view().push(x@)) by {
                        assert(files@ =~= pre_v.drop_last());
                        assert(x == pre_v.last());
                        assert(forall|k: int| 0 <= k < files@.len() ==> files@[k] == pre_v[k]);
                    }
                    files.deep_view().to_multiset_ensures();
                    assert((files.deep_view().push(x@)).to_multiset()
                        =~= files.deep_view().to_multiset().insert(x@));
                    assert(files_before.to_multiset() =~= files.deep_view().to_multiset().insert(
                        x@,
                    ));
                }
                let ghost out_before = out.deep_view();
                insert_sorted(&mut out, x);
                proof {
                    assert(out.deep_view().to_multiset().add(files.deep_view().to_multiset())
                        =~= out_before.to_multiset().insert(x@).add(
                        files.deep_view().to_multiset(),
                    ));
                    assert(out_before.to_multiset().insert(x@).add(
                        files.deep_view().to_multiset(),
                    ) =~= out_before.to_multiset().add(
                        files.deep_view().to_multiset().insert(x@),
                    ));
                }
            },
            None => {},
        }
    }
    proof {
        assert(files.deep_view().len() == 0);
        assert(files.deep_view() =~= Seq::<Seq<u8>>::empty());
        assert(files.deep_view().to_multiset() =~= Multiset::<Seq<u8>>::empty()) by {
            files.deep_view().to_multiset_ensures();
        }
        assert(out.deep_view().to_multiset() =~= orig.to_multiset());
    }
    *files = out;
}

} // verus!
