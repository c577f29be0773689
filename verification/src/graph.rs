//! Paths and reachability in a directed graph that is given by its edge relation.

use vstd::prelude::*;

verus! {

/// Whether `p` is a walk along edges of `e`: at least one node, each joined to the next.
pub open spec fn is_path(e: spec_fn(int, int) -> bool, p: Seq<int>) -> bool {
    p.len() > 0 && forall|i: int| 0 <= i < p.len() - 1 ==> e(#[trigger] p[i], p[i + 1])
}

/// Whether a walk leads from `s` to `t`.
pub open spec fn reaches(e: spec_fn(int, int) -> bool, s: int, t: int) -> bool {
    exists|p: Seq<int>| #[trigger] is_path(e, p) && p[0] == s && p[p.len() - 1] == t
}

/// Whether a walk leads from some node of `from` to `t`.
pub open spec fn reach_from(e: spec_fn(int, int) -> bool, from: Set<int>, t: int) -> bool {
    exists|s: int| from.contains(s) && #[trigger] reaches(e, s, t)
}

/// Whether no edge leads out of the set `a`.
pub open spec fn closed(e: spec_fn(int, int) -> bool, a: Set<int>) -> bool {
    forall|s: int, t: int| a.contains(s) && #[trigger] e(s, t) ==> a.contains(t)
}

/// The relation with every edge turned round.
pub open spec fn converse(e: spec_fn(int, int) -> bool) -> spec_fn(int, int) -> bool {
    |s: int, t: int| e(t, s)
}

/// A node reaches itself.
pub proof fn lemma_reaches_refl(e: spec_fn(int, int) -> bool, s: int)
    ensures
        reaches(e, s, s),
{
    let p = seq![s];
    assert(is_path(e, p));
    assert(p[0] == s && p[p.len() - 1] == s);
}

/// A walk goes on along an edge.
pub proof fn lemma_reaches_step(e: spec_fn(int, int) -> bool, s: int, t: int, u: int)
    requires
        reaches(e, s, t),
        e(t, u),
    ensures
        reaches(e, s, u),
{
    let p = choose|p: Seq<int>| #[trigger] is_path(e, p) && p[0] == s && p[p.len() - 1] == t;
    let q = p.push(u);
    assert forall|i: int| 0 <= i < q.len() - 1 implies e(#[trigger] q[i], q[i + 1]) by {
        if i < p.len() - 1 {
            assert(e(p[i], p[i + 1]));
        }
    }
    assert(is_path(e, q));
    assert(q[0] == s && q[q.len() - 1] == u);
}

/// A walk begins with an edge.
pub proof fn lemma_reaches_first(e: spec_fn(int, int) -> bool, s: int, t: int, u: int)
    requires
        e(s, t),
        reaches(e, t, u),
    ensures
        reaches(e, s, u),
{
    let p = choose|p: Seq<int>| #[trigger] is_path(e, p) && p[0] == t && p[p.len() - 1] == u;
    let q = seq![s] + p;
    assert forall|i: int| 0 <= i < q.len() - 1 implies e(#[trigger] q[i], q[i + 1]) by {
        if i > 0 {
            assert(e(p[i - 1], p[i]));
        }
    }
    assert(is_path(e, q));
    assert(q[0] == s && q[q.len() - 1] == u);
}

/// A walk that starts in a closed set stays in it.
pub proof fn lemma_path_in_closed(e: spec_fn(int, int) -> bool, a: Set<int>, p: Seq<int>, i: int)
    requires
        closed(e, a),
        is_path(e, p),
        a.contains(p[0]),
        0 <= i < p.len(),
    ensures
        a.contains(p[i]),
    decreases i,
{
    if i > 0 {
        lemma_path_in_closed(e, a, p, i - 1);
        assert(e(p[i - 1], p[i]));
    }
}

/// What a node of a closed set reaches is in the set.
pub proof fn lemma_closed_reaches(e: spec_fn(int, int) -> bool, a: Set<int>, s: int, t: int)
    requires
        closed(e, a),
        a.contains(s),
        reaches(e, s, t),
    ensures
        a.contains(t),
{
    let p = choose|p: Seq<int>| #[trigger] is_path(e, p) && p[0] == s && p[p.len() - 1] == t;
    lemma_path_in_closed(e, a, p, p.len() - 1);
}

/// A walk of one relation is a walk of every relation that has its edges.
pub proof fn lemma_reaches_mono(
    e1: spec_fn(int, int) -> bool,
    e2: spec_fn(int, int) -> bool,
    s: int,
    t: int,
)
    requires
        forall|x: int, y: int| #[trigger] e1(x, y) ==> e2(x, y),
        reaches(e1, s, t),
    ensures
        reaches(e2, s, t),
{
    let p = choose|p: Seq<int>| #[trigger] is_path(e1, p) && p[0] == s && p[p.len() - 1] == t;
    assert forall|i: int| 0 <= i < p.len() - 1 implies e2(#[trigger] p[i], p[i + 1]) by {
        assert(e1(p[i], p[i + 1]));
    }
    assert(is_path(e2, p));
}

/// A walk read backwards is a walk of the converse relation.
pub proof fn lemma_reaches_converse(e: spec_fn(int, int) -> bool, s: int, t: int)
    requires
        reaches(e, s, t),
    ensures
        reaches(converse(e), t, s),
{
    let c = converse(e);
    let a = Set::new(|x: int| reaches(c, x, s));
    lemma_reaches_refl(c, s);
    assert forall|x: int, y: int| a.contains(x) && #[trigger] e(x, y) implies a.contains(y) by {
        assert(c(y, x));
        lemma_reaches_first(c, y, x, s);
    }
    lemma_closed_reaches(e, a, s, t);
}

/// What is reached from `from` is the least set that holds `from` and that no edge leaves.
pub proof fn lemma_reach_least_fixed_point(e: spec_fn(int, int) -> bool, from: Set<int>)
    ensures
        from.subset_of(Set::new(|t: int| reach_from(e, from, t))),
        closed(e, Set::new(|t: int| reach_from(e, from, t))),
        forall|a: Set<int>|
            from.subset_of(a) && #[trigger] closed(e, a) ==> Set::new(
                |t: int| reach_from(e, from, t),
            ).subset_of(a),
{
    let r = Set::new(|t: int| reach_from(e, from, t));
    assert forall|s: int| from.contains(s) implies r.contains(s) by {
        lemma_reaches_refl(e, s);
    }
    assert forall|s: int, t: int| r.contains(s) && #[trigger] e(s, t) implies r.contains(t) by {
        let o = choose|o: int| from.contains(o) && #[trigger] reaches(e, o, s);
        lemma_reaches_step(e, o, s, t);
    }
    assert forall|a: Set<int>| from.subset_of(a) && #[trigger] closed(e, a) implies r.subset_of(
        a,
    ) by {
        assert forall|t: int| r.contains(t) implies a.contains(t) by {
            let o = choose|o: int| from.contains(o) && #[trigger] reaches(e, o, t);
            lemma_closed_reaches(e, a, o, t);
        }
    }
}

/// The number of `false` entries of `s`.
pub open spec fn count_false(s: Seq<bool>) -> nat
    decreases s.len(),
{
    if s.len() == 0 {
        0
    } else {
        count_false(s.drop_last()) + if s.last() {
            0nat
        } else {
            1nat
        }
    }
}

/// Setting an entry that was `false` takes one off the count.
pub proof fn lemma_count_false_set(s: Seq<bool>, i: int)
    requires
        0 <= i < s.len(),
        !s[i],
    ensures
        count_false(s.update(i, true)) + 1 == count_false(s),
    decreases s.len(),
{
    let u = s.update(i, true);
    if i == s.len() - 1 {
        assert(u.drop_last() =~= s.drop_last());
    } else {
        assert(u.drop_last() =~= s.drop_last().update(i, true));
        lemma_count_false_set(s.drop_last(), i);
    }
}

} // verus!
