//! The UTF-8 encodings of ranges of code points, as sequences of byte ranges, and their
//! merging: sequences that differ in their last byte range only share what comes before.

use crate::char_map::{is_scalar, CharRange};
use itertools::Itertools;
use utf8_ranges::Utf8Sequences;
use vstd::prelude::*;

verus! {

/// The byte sequences that encode the scalar values from `start` to `end`, as
/// `utf8_ranges::Utf8Sequences` lists them: each is one to four ranges of bytes, given by
/// their least and greatest byte.
pub uninterp spec fn utf8_sequences_of(start: char, end: char) -> Seq<Seq<(u8, u8)>>;

/// The views of a list of sequences.
pub open spec fn seqs_view(v: Seq<Vec<(u8, u8)>>) -> Seq<Seq<(u8, u8)>> {
    Seq::new(v.len(), |i: int| v[i]@)
}

/// The views of a list of groups of sequences.
pub open spec fn groups_view(v: Seq<Vec<Vec<(u8, u8)>>>) -> Seq<Seq<Seq<(u8, u8)>>> {
    Seq::new(v.len(), |i: int| seqs_view(v[i]@))
}

/// The views of a list of groups of transitions.
pub open spec fn runs_view(v: Seq<Vec<(CharRange, usize)>>) -> Seq<Seq<(CharRange, usize)>> {
    Seq::new(v.len(), |i: int| v[i]@)
}

/// Whether each byte range of each sequence has its least byte first.
pub open spec fn least_first(seqs: Seq<Seq<(u8, u8)>>) -> bool {
    forall|i: int, j: int|
        0 <= i < seqs.len() && 0 <= j < seqs[i].len() ==> (#[trigger] seqs[i][j]).0 <= seqs[i][j].1
}

/// Walks `utf8_ranges::Utf8Sequences::new(start, end)` to its end and hands out each
/// sequence as the pairs of the bounds of its byte ranges. The contract names the list, and
/// claims of it only that each sequence has one to four ranges, and that no range has its
/// greatest byte below its least.
#[verifier::external_body]
pub(crate) fn utf8_sequences(start: char, end: char) -> (r: Vec<Vec<(u8, u8)>>)
    ensures
        seqs_view(r@) == utf8_sequences_of(start, end),
        forall|i: int| 0 <= i < r@.len() ==> 1 <= (#[trigger] r@[i])@.len() <= 4,
        least_first(seqs_view(r@)),
{
    let mut out = Vec::new();
    for seq in Utf8Sequences::new(start, end) {
        out.push(seq.as_slice().iter().map(|r| (r.start, r.end)).collect());
    }
    out
}

/// The runs of `s`: its elements in their order, cut wherever two neighbours differ under
/// `key`.
pub open spec fn runs<A, K>(s: Seq<A>, key: spec_fn(A) -> K) -> Seq<Seq<A>>
    decreases s.len(),
{
    if s.len() == 0 {
        Seq::empty()
    } else {
        let r = runs(s.drop_last(), key);
        if r.len() > 0 && key(r.last().last()) == key(s.last()) {
            r.drop_last().push(r.last().push(s.last()))
        } else {
            r.push(seq![s.last()])
        }
    }
}

/// All but the last byte range of a sequence.
pub open spec fn head_key() -> spec_fn(Seq<(u8, u8)>) -> Seq<(u8, u8)> {
    |s: Seq<(u8, u8)>| s.drop_last()
}

/// The target of a transition.
pub open spec fn target_key() -> spec_fn((CharRange, usize)) -> usize {
    |e: (CharRange, usize)| e.1
}

/// All but the last byte range of `s`.
pub fn head_of(s: &Vec<(u8, u8)>) -> (r: Vec<(u8, u8)>)
    requires
        s@.len() >= 1,
    ensures
        r@ == s@.drop_last(),
{
    let mut out: Vec<(u8, u8)> = Vec::new();
    let mut i: usize = 0;
    while i + 1 < s.len()
        invariant
            i + 1 <= s.len(),
            out@ == s@.take(i as int),
        decreases s.len() - i,
    {
        out.push(s[i]);
        assert(s@.take(i as int + 1) =~= s@.take(i as int).push(s@[i as int]));
        i += 1;
    }
    assert(s@.take(i as int) =~= s@.drop_last());
    out
}

/// `Itertools::group_by` on the sequences, with all but the last byte range as the key:
/// the contract claims that the groups are the runs of sequences with equal keys, in
/// their order.
#[verifier::external_body]
pub(crate) fn group_by_head(seqs: Vec<Vec<(u8, u8)>>) -> (r: Vec<Vec<Vec<(u8, u8)>>>)
    requires
        forall|i: int| 0 <= i < seqs@.len() ==> (#[trigger] seqs@[i])@.len() >= 1,
    ensures
        groups_view(r@) == runs(seqs_view(seqs@), head_key()),
{
    let mut out = Vec::new();
    for (_, group) in &seqs.into_iter().group_by(|s| head_of(s)) {
        out.push(group.collect());
    }
    out
}

/// `Itertools::group_by` on the transitions, with the target as the key: the contract
/// claims that the groups are the runs of transitions with the same target, in their
/// order.
#[verifier::external_body]
pub(crate) fn group_by_target(trans: Vec<(CharRange, usize)>) -> (r: Vec<Vec<(CharRange, usize)>>)
    ensures
        runs_view(r@) == runs(trans@, target_key()),
{
    let mut out = Vec::new();
    for (_, group) in &trans.into_iter().group_by(|e| e.1) {
        out.push(group.collect());
    }
    out
}

/// Whether `r` is `s` sorted by target, with the transitions to each target in the order
/// that they have in `s`.
pub open spec fn is_sorted_by_target(r: Seq<(CharRange, usize)>, s: Seq<(CharRange, usize)>) -> bool {
    &&& r.len() == s.len()
    &&& forall|i: int, j: int| 0 <= i < j < r.len() ==> (#[trigger] r[i]).1 <= (#[trigger] r[j]).1
    &&& forall|t: usize| #[trigger]
        r.filter(to_target(t)) == s.filter(to_target(t))
}

/// Whether a transition leads to `t`.
pub open spec fn to_target(t: usize) -> spec_fn((CharRange, usize)) -> bool {
    |e: (CharRange, usize)| e.1 == t
}

/// `sort_by_key` of the standard library, with the target as the key: the contract claims
/// that the transitions come out by increasing target, and that the sort is stable.
#[verifier::external_body]
pub(crate) fn sort_by_target(v: &mut Vec<(CharRange, usize)>)
    ensures
        is_sorted_by_target(final(v)@, old(v)@),
{
    v.sort_by_key(|e| e.1);
}

/// What the runs of a sequence are: none is empty, the elements of each agree under the
/// key, and together they hold as many elements as the sequence.
pub proof fn lemma_runs<A, K>(s: Seq<A>, key: spec_fn(A) -> K)
    ensures
        forall|g: int| 0 <= g < runs(s, key).len() ==> (#[trigger] runs(s, key)[g]).len() > 0,
        forall|g: int, i: int|
            0 <= g < runs(s, key).len() && 0 <= i < runs(s, key)[g].len() ==> key(
                #[trigger] runs(s, key)[g][i],
            ) == key(runs(s, key)[g][0]),
        s.len() > 0 ==> runs(s, key).len() > 0 && runs(s, key).last().last() == s.last(),
        forall|g: int, i: int|
            0 <= g < runs(s, key).len() && 0 <= i < runs(s, key)[g].len() ==> s.contains(
                #[trigger] runs(s, key)[g][i],
            ),
    decreases s.len(),
{
    if s.len() > 0 {
        let rest = s.drop_last();
        lemma_runs(rest, key);
        let r = runs(rest, key);
        let q = runs(s, key);
        assert forall|g: int, i: int| 0 <= g < q.len() && 0 <= i < q[g].len() implies s.contains(
            #[trigger] q[g][i],
        ) && key(q[g][i]) == key(q[g][0]) by {
            if r.len() > 0 && key(r.last().last()) == key(s.last()) {
                if g < r.len() - 1 {
                    assert(q[g] == r[g]);
                    assert(rest.contains(r[g][i]));
                    let j = choose|j: int| 0 <= j < rest.len() && rest[j] == r[g][i];
                    assert(s[j] == q[g][i]);
                } else if i < r.last().len() {
                    assert(q[g][i] == r[g][i]);
                    assert(rest.contains(r[g][i]));
                    let j = choose|j: int| 0 <= j < rest.len() && rest[j] == r[g][i];
                    assert(s[j] == q[g][i]);
                    assert(key(r[g][i]) == key(r[g][0]));
                } else {
                    assert(q[g][i] == s[s.len() - 1]);
                    assert(key(r.last().last()) == key(r.last()[0]));
                }
            } else {
                if g < r.len() {
                    assert(q[g] == r[g]);
                    assert(rest.contains(r[g][i]));
                    let j = choose|j: int| 0 <= j < rest.len() && rest[j] == r[g][i];
                    assert(s[j] == q[g][i]);
                } else {
                    assert(q[g][i] == s[s.len() - 1]);
                }
            }
        }
    }
}

/// Two lists that are sorted by target and have the same transitions to each target, in
/// the same order, are the same list.
pub proof fn lemma_sorted_by_target_unique(r1: Seq<(CharRange, usize)>, r2: Seq<(CharRange, usize)>)
    requires
        r1.len() == r2.len(),
        forall|i: int, j: int| 0 <= i < j < r1.len() ==> (#[trigger] r1[i]).1 <= (#[trigger] r1[j]).1,
        forall|i: int, j: int| 0 <= i < j < r2.len() ==> (#[trigger] r2[i]).1 <= (#[trigger] r2[j]).1,
        forall|t: usize| #[trigger] r1.filter(to_target(t)) == r2.filter(to_target(t)),
    ensures
        r1 == r2,
    decreases r1.len(),
{
    if r1.len() == 0 {
        assert(r1 =~= r2);
    } else {
        let x1 = r1.last();
        let x2 = r2.last();
        let a1 = r1.drop_last();
        let a2 = r2.drop_last();
        reveal(Seq::filter);
        assert(r1.filter(to_target(x1.1)) == a1.filter(to_target(x1.1)).push(x1));
        assert(r2.filter(to_target(x2.1)) == a2.filter(to_target(x2.1)).push(x2));
        assert(x1.1 <= x2.1) by {
            let f = r2.filter(to_target(x1.1));
            assert(f == r1.filter(to_target(x1.1)));
            assert(f[f.len() - 1] == x1);
            assert(f.contains(x1));
            r2.lemma_filter_contains_rev(to_target(x1.1), x1);
            let k = choose|k: int| 0 <= k < r2.len() && r2[k] == x1;
            if k < r2.len() - 1 {
                assert(r2[k].1 <= r2[r2.len() - 1].1);
            }
        }
        assert(x2.1 <= x1.1) by {
            let f = r1.filter(to_target(x2.1));
            assert(f == r2.filter(to_target(x2.1)));
            assert(f[f.len() - 1] == x2);
            assert(f.contains(x2));
            r1.lemma_filter_contains_rev(to_target(x2.1), x2);
            let k = choose|k: int| 0 <= k < r1.len() && r1[k] == x2;
            if k < r1.len() - 1 {
                assert(r1[k].1 <= r1[r1.len() - 1].1);
            }
        }
        let t = x1.1;
        assert(r1.filter(to_target(t)) == r2.filter(to_target(t)));
        assert(a1.filter(to_target(t)).push(x1) == a2.filter(to_target(t)).push(x2));
        assert(x1 == x2) by {
            let left = a1.filter(to_target(t)).push(x1);
            let right = a2.filter(to_target(t)).push(x2);
            assert(left[left.len() - 1] == x1);
            assert(right[right.len() - 1] == x2);
        }
        assert forall|u: usize| #[trigger] a1.filter(to_target(u)) == a2.filter(to_target(u)) by {
            assert(r1.filter(to_target(u)) == r2.filter(to_target(u)));
            if u == t {
                let left = a1.filter(to_target(t)).push(x1);
                let right = a2.filter(to_target(t)).push(x2);
                assert(left.drop_last() =~= a1.filter(to_target(t)));
                assert(right.drop_last() =~= a2.filter(to_target(t)));
            } else {
                assert(r1.filter(to_target(u)) == a1.filter(to_target(u)));
                assert(r2.filter(to_target(u)) == a2.filter(to_target(u)));
            }
        }
        assert forall|i: int, j: int| 0 <= i < j < a1.len() implies (#[trigger] a1[i]).1 <= (
        #[trigger] a1[j]).1 by {
            assert(r1[i].1 <= r1[j].1);
        }
        assert forall|i: int, j: int| 0 <= i < j < a2.len() implies (#[trigger] a2[i]).1 <= (
        #[trigger] a2[j]).1 by {
            assert(r2[i].1 <= r2[j].1);
        }
        lemma_sorted_by_target_unique(a1, a2);
        assert(r1 =~= a1.push(x1));
        assert(r2 =~= a2.push(x2));
    }
}

/// The transitions of `s` sorted by target, those to each target in their order.
pub open spec fn sorted_by_target(s: Seq<(CharRange, usize)>) -> Seq<(CharRange, usize)> {
    choose|r: Seq<(CharRange, usize)>| is_sorted_by_target(r, s)
}

/// A list that is `s` sorted by target is the list that `sorted_by_target` gives.
pub proof fn lemma_sorted_by_target(r: Seq<(CharRange, usize)>, s: Seq<(CharRange, usize)>)
    requires
        is_sorted_by_target(r, s),
    ensures
        r == sorted_by_target(s),
{
    let q = sorted_by_target(s);
    assert(is_sorted_by_target(q, s));
    assert forall|t: usize| #[trigger] r.filter(to_target(t)) == q.filter(to_target(t)) by {
        assert(r.filter(to_target(t)) == s.filter(to_target(t)));
        assert(q.filter(to_target(t)) == s.filter(to_target(t)));
    }
    lemma_sorted_by_target_unique(r, q);
}

} // verus!
