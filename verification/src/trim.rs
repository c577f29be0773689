//! Removal of the states that no match can pass through.

use crate::char_map::{CharMap, CharMultiMap, CharRange};
use crate::graph::{
    closed, converse, lemma_closed_reaches, lemma_reaches_converse, lemma_reaches_first,
    lemma_reaches_refl, lemma_reaches_step, reaches,
};
use crate::nfa::{char_map_view, index_set, lemma_index_set, Nfa, NfaState, NfaView, StateView};
use crate::state_set::{below, lemma_sorted_unique, ordered, sorted};
use crate::transition::{
    predicates_view, NfaTransitions, Predicate, PredicateView, TransitionsView,
};
use vstd::prelude::*;

verus! {

/// The new index of each state that is kept, as a function of the old index.
pub open spec fn target_map(map: Seq<Option<usize>>) -> spec_fn(usize) -> Option<usize> {
    |t: usize| if t < map.len() { map[t as int] } else { None }
}

/// The same for transitions that carry a label.
pub open spec fn pair_map<A>(map: Seq<Option<usize>>) -> spec_fn((A, usize)) -> Option<(A, usize)> {
    |e: (A, usize)|
        if e.1 < map.len() {
            match map[e.1 as int] {
                Some(y) => Some((e.0, y)),
                None => None,
            }
        } else {
            None
        }
}

/// The targets of `s` that are kept, under their new indices.
pub open spec fn remap(s: Seq<usize>, map: Seq<Option<usize>>) -> Seq<usize> {
    s.filter_map(target_map(map))
}

/// The transitions of `s` whose targets are kept, with the new indices of the targets.
pub open spec fn remap_pairs<A>(s: Seq<(A, usize)>, map: Seq<Option<usize>>) -> Seq<(A, usize)> {
    s.filter_map(pair_map(map))
}

/// The index of `s` in `keep`, if it is there.
pub open spec fn rank(keep: Seq<usize>, s: int) -> Option<usize> {
    if index_set(keep).contains(s) {
        Some((choose|j: int| 0 <= j < keep.len() && #[trigger] keep[j] == s) as usize)
    } else {
        None
    }
}

/// For each of `n` states its index in `keep`, if it is there.
pub open spec fn rank_map(keep: Seq<usize>, n: int) -> Seq<Option<usize>> {
    Seq::new(n as nat, |s: int| rank(keep, s))
}

impl TransitionsView {
    /// The transitions whose targets are kept, with the new indices of the targets.
    pub open spec fn remapped(self, map: Seq<Option<usize>>) -> TransitionsView {
        TransitionsView {
            consuming: remap_pairs(self.consuming, map),
            eps: remap(self.eps, map),
            predicates: remap_pairs(self.predicates, map),
        }
    }
}

impl NfaView {
    /// The states in which a match can be: those that are reached from an initial state and
    /// reach an accepting state, in increasing order.
    pub open spec fn live_seq(self) -> Seq<usize> {
        choose|k: Seq<usize>|
            sorted(k) && below(k, self.num()) && forall|s: int| #[trigger]
                index_set(k).contains(s) <==> self.is_live(s)
    }

    /// Whether `live_seq` lists the states in which a match can be.
    pub open spec fn live_seq_ok(self) -> bool {
        &&& sorted(self.live_seq())
        &&& below(self.live_seq(), self.num())
        &&& forall|s: int| #[trigger] index_set(self.live_seq()).contains(s) <==> self.is_live(s)
    }

    /// The automaton with the states of `keep` alone: they are renumbered in their order,
    /// and a transition or an initial state stays if its target is kept.
    pub open spec fn trimmed(self, keep: Seq<usize>) -> NfaView {
        let map = rank_map(keep, self.num());
        NfaView {
            states: Seq::new(
                keep.len(),
                |j: int|
                    StateView {
                        transitions: self.states[keep[j] as int].transitions.remapped(map),
                        accept: self.states[keep[j] as int].accept,
                        dfa_accept: self.states[keep[j] as int].dfa_accept,
                    },
            ),
            init: remap(self.init, map),
            init_at_start: remap(self.init_at_start, map),
            init_after_char: Seq::new(
                self.init_after_char.len(),
                |k: int| (self.init_after_char[k].0, remap(self.init_after_char[k].1, map)),
            ),
        }
    }
}

/// The targets that stay among one more target.
pub proof fn lemma_remap_take(s: Seq<usize>, map: Seq<Option<usize>>, i: int)
    requires
        0 <= i < s.len(),
    ensures
        remap(s.take(i + 1), map) == remap(s.take(i), map) + (match target_map(map)(s[i]) {
            Some(y) => seq![y],
            None => Seq::empty(),
        }),
        remap(s.take(0), map) == Seq::<usize>::empty(),
        s.take(s.len() as int) == s,
{
    s.lemma_filter_map_take_succ(target_map(map), i);
    assert(s.take(s.len() as int) =~= s);
}

/// The same for transitions that carry a label.
pub proof fn lemma_remap_pairs_take<A>(s: Seq<(A, usize)>, map: Seq<Option<usize>>, i: int)
    requires
        0 <= i < s.len(),
    ensures
        remap_pairs(s.take(i + 1), map) == remap_pairs(s.take(i), map) + (match pair_map::<A>(map)(
            s[i],
        ) {
            Some(y) => seq![y],
            None => Seq::empty(),
        }),
        remap_pairs(s.take(0), map) == Seq::<(A, usize)>::empty(),
        s.take(s.len() as int) == s,
{
    s.lemma_filter_map_take_succ(pair_map::<A>(map), i);
    assert(s.take(s.len() as int) =~= s);
}

/// What `remap` gives holds exactly the new indices of the kept elements.
pub proof fn lemma_remap_contains(s: Seq<usize>, map: Seq<Option<usize>>, y: usize)
    ensures
        remap(s, map).contains(y) <==> exists|k: int|
            0 <= k < s.len() && target_map(map)(#[trigger] s[k]) == Some(y),
    decreases s.len(),
{
    let f = target_map(map);
    if s.len() > 0 {
        let rest = s.drop_last();
        lemma_remap_contains(rest, map, y);
        let r = remap(rest, map);
        if remap(s, map).contains(y) {
            let i = choose|i: int| 0 <= i < remap(s, map).len() && remap(s, map)[i] == y;
            if i < r.len() {
                assert(r[i] == y);
                assert(r.contains(y));
                let k = choose|k: int| 0 <= k < rest.len() && f(#[trigger] rest[k]) == Some(y);
                assert(f(s[k]) == Some(y));
            } else {
                assert(f(s[s.len() - 1]) == Some(y));
            }
        }
        if exists|k: int| 0 <= k < s.len() && f(#[trigger] s[k]) == Some(y) {
            let k = choose|k: int| 0 <= k < s.len() && f(#[trigger] s[k]) == Some(y);
            if k < rest.len() {
                assert(f(rest[k]) == Some(y));
                assert(r.contains(y));
                let i = choose|i: int| 0 <= i < r.len() && r[i] == y;
                assert(remap(s, map)[i] == y);
            } else {
                assert(remap(s, map)[r.len() as int] == y);
            }
        }
    }
}

/// The same for transitions that carry a label.
pub proof fn lemma_remap_pairs_contains<A>(s: Seq<(A, usize)>, map: Seq<Option<usize>>, y: (A, usize))
    ensures
        remap_pairs(s, map).contains(y) <==> exists|k: int|
            0 <= k < s.len() && pair_map::<A>(map)(#[trigger] s[k]) == Some(y),
    decreases s.len(),
{
    let f = pair_map::<A>(map);
    if s.len() > 0 {
        let rest = s.drop_last();
        lemma_remap_pairs_contains(rest, map, y);
        let r = remap_pairs(rest, map);
        if remap_pairs(s, map).contains(y) {
            let i = choose|i: int| 0 <= i < remap_pairs(s, map).len() && remap_pairs(s, map)[i] == y;
            if i < r.len() {
                assert(r[i] == y);
                assert(r.contains(y));
                let k = choose|k: int| 0 <= k < rest.len() && f(#[trigger] rest[k]) == Some(y);
                assert(f(s[k]) == Some(y));
            } else {
                assert(f(s[s.len() - 1]) == Some(y));
            }
        }
        if exists|k: int| 0 <= k < s.len() && f(#[trigger] s[k]) == Some(y) {
            let k = choose|k: int| 0 <= k < s.len() && f(#[trigger] s[k]) == Some(y);
            if k < rest.len() {
                assert(f(rest[k]) == Some(y));
                assert(r.contains(y));
                let i = choose|i: int| 0 <= i < r.len() && r[i] == y;
                assert(remap_pairs(s, map)[i] == y);
            } else {
                assert(remap_pairs(s, map)[r.len() as int] == y);
            }
        }
    }
}

/// Whether `map` sends the states that it keeps to indices below `m`, in their order.
pub open spec fn monotone(map: Seq<Option<usize>>, m: int) -> bool {
    &&& forall|s: int| 0 <= s < map.len() && (#[trigger] map[s]) is Some ==> map[s].unwrap() < m
    &&& forall|s: int, t: int|
        0 <= s <= t < map.len() && (#[trigger] map[s]) is Some && (#[trigger] map[t]) is Some
            ==> map[s].unwrap() <= map[t].unwrap()
}

/// Renumbering in order keeps a list in order, and below the number of states kept.
pub proof fn lemma_remap_ordered(s: Seq<usize>, map: Seq<Option<usize>>, m: int)
    requires
        monotone(map, m),
    ensures
        below(remap(s, map), m),
        ordered(s) ==> ordered(remap(s, map)),
    decreases s.len(),
{
    let f = target_map(map);
    if s.len() > 0 {
        let rest = s.drop_last();
        lemma_remap_ordered(rest, map, m);
        let r = remap(rest, map);
        let q = remap(s, map);
        let x = s[s.len() - 1];
        if ordered(s) {
            assert(ordered(rest)) by {
                assert forall|i: int, j: int| 0 <= i < j < rest.len() implies rest[i] <= rest[j] by {
                    assert(s[i] <= s[j]);
                }
            }
            if f(x) is Some {
                assert forall|i: int, j: int| 0 <= i < j < q.len() implies q[i] <= q[j] by {
                    if j == r.len() {
                        assert(r.contains(r[i]));
                        lemma_remap_contains(rest, map, r[i]);
                        let k = choose|k: int|
                            0 <= k < rest.len() && f(#[trigger] rest[k]) == Some(r[i]);
                        assert(s[k] <= s[s.len() - 1]);
                        assert(map[s[k] as int] is Some);
                        assert(map[x as int] is Some);
                    } else {
                        assert(r[i] <= r[j]);
                    }
                }
            }
        }
        if f(x) is Some {
            assert(map[x as int] is Some);
            assert forall|i: int| 0 <= i < q.len() implies (#[trigger] q[i]) < m by {
                if i < r.len() {
                    assert(r[i] < m);
                }
            }
        }
    }
}

/// Renumbered transitions lead below the number of states kept.
pub proof fn lemma_remap_pairs_below<A>(s: Seq<(A, usize)>, map: Seq<Option<usize>>, m: int)
    requires
        monotone(map, m),
    ensures
        forall|i: int|
            0 <= i < remap_pairs(s, map).len() ==> (#[trigger] remap_pairs(s, map)[i]).1 < m
                && exists|k: int| 0 <= k < s.len() && (#[trigger] s[k]).0 == remap_pairs(s, map)[i].0,
{
    let q = remap_pairs(s, map);
    assert forall|i: int| 0 <= i < q.len() implies (#[trigger] q[i]).1 < m && exists|k: int|
        0 <= k < s.len() && (#[trigger] s[k]).0 == q[i].0 by {
        assert(q.contains(q[i]));
        lemma_remap_pairs_contains(s, map, q[i]);
        let k = choose|k: int| 0 <= k < s.len() && pair_map::<A>(map)(#[trigger] s[k]) == Some(q[i]);
        assert(map[s[k].1 as int] is Some);
        assert(s[k].0 == q[i].0);
    }
}

/// A strictly increasing list has no element below its index.
pub proof fn lemma_sorted_index_le(keep: Seq<usize>, j: int)
    requires
        sorted(keep),
        0 <= j < keep.len(),
    ensures
        j <= keep[j],
    decreases j,
{
    if j > 0 {
        lemma_sorted_index_le(keep, j - 1);
        assert(keep[j - 1] < keep[j]);
    }
}

/// A strictly increasing list of indices below `n` has at most `n` elements.
pub proof fn lemma_sorted_index_le_all(keep: Seq<usize>, n: int)
    requires
        sorted(keep),
        below(keep, n),
    ensures
        keep.len() <= n || keep.len() == 0,
{
    if keep.len() > 0 {
        lemma_sorted_index_le(keep, keep.len() - 1);
        assert(keep[keep.len() - 1] < n);
    }
}

/// In a strictly increasing list an element has one index.
pub proof fn lemma_rank(keep: Seq<usize>, j: int)
    requires
        sorted(keep),
        0 <= j < keep.len(),
    ensures
        rank(keep, keep[j] as int) == Some(j as usize),
        j <= usize::MAX,
{
    lemma_sorted_index_le(keep, j);
    assert(keep[j] == keep[j] as int);
    assert(index_set(keep).contains(keep[j] as int));
    let i = choose|i: int| 0 <= i < keep.len() && #[trigger] keep[i] == keep[j] as int;
    if i < j {
        assert(keep[i] < keep[j]);
    }
    if j < i {
        assert(keep[j] < keep[i]);
    }
}

/// The indices in a strictly increasing list grow with the elements.
pub proof fn lemma_rank_map_monotone(keep: Seq<usize>, n: int)
    requires
        sorted(keep),
        below(keep, n),
        0 <= n,
    ensures
        monotone(rank_map(keep, n), keep.len() as int),
{
    let map = rank_map(keep, n);
    assert forall|s: int| 0 <= s < map.len() && (#[trigger] map[s]) is Some implies map[s].unwrap()
        < keep.len() by {
        let i = choose|i: int| 0 <= i < keep.len() && #[trigger] keep[i] == s;
        lemma_rank(keep, i);
    }
    assert forall|s: int, t: int|
        0 <= s <= t < map.len() && (#[trigger] map[s]) is Some && (#[trigger] map[t]) is Some implies map[s].unwrap()
        <= map[t].unwrap() by {
        assert(map[s] == rank(keep, s) && map[t] == rank(keep, t));
        let i = choose|i: int| 0 <= i < keep.len() && #[trigger] keep[i] == s;
        let j = choose|j: int| 0 <= j < keep.len() && #[trigger] keep[j] == t;
        lemma_rank(keep, i);
        lemma_rank(keep, j);
        assert(map[s] == Some(i as usize));
        assert(map[t] == Some(j as usize));
        if j < i {
            assert(keep[j] < keep[i]);
        }
    }
}

/// The targets of `v` that `map` keeps, under their new indices.
pub fn remap_targets(v: &Vec<usize>, map: &Vec<Option<usize>>) -> (r: Vec<usize>)
    ensures
        r@ == remap(v@, map@),
{
    let mut out: Vec<usize> = Vec::new();
    let mut i: usize = 0;
    proof {
        if v@.len() > 0 {
            lemma_remap_take(v@, map@, 0);
        } else {
            assert(v@.take(0) =~= v@);
        }
    }
    while i < v.len()
        invariant
            i <= v.len(),
            out@ == remap(v@.take(i as int), map@),
        decreases v.len() - i,
    {
        proof {
            lemma_remap_take(v@, map@, i as int);
        }
        let t = v[i];
        if t < map.len() {
            match map[t] {
                Some(y) => {
                    out.push(y);
                    assert(out@ =~= remap(v@.take(i as int), map@) + seq![y]);
                },
                None => {},
            }
        }
        i += 1;
    }
    assert(v@.take(v@.len() as int) =~= v@);
    out
}

impl NfaTransitions {
    /// Keeps the transitions whose targets `map` keeps, and gives the targets their new
    /// indices.
    pub fn filter_map_targets(&mut self, map: &Vec<Option<usize>>)
        ensures
            final(self)@ == old(self)@.remapped(map@),
    {
        let r = self.remapped(map);
        *self = r;
    }

    /// The transitions whose targets `map` keeps, with the new indices of the targets.
    pub fn remapped(&self, map: &Vec<Option<usize>>) -> (r: NfaTransitions)
        ensures
            r@ == self@.remapped(map@),
    {
        let ghost cv = self.consuming@;
        let mut consuming = CharMultiMap::new();
        let mut i: usize = 0;
        proof {
            if cv.len() > 0 {
                lemma_remap_pairs_take(cv, map@, 0);
            } else {
                assert(cv.take(0) =~= cv);
            }
        }
        while i < self.consuming.len()
            invariant
                i <= self.consuming@.len(),
                cv == self.consuming@,
                consuming@ == remap_pairs(cv.take(i as int), map@),
            decreases self.consuming@.len() - i,
        {
            proof {
                lemma_remap_pairs_take(cv, map@, i as int);
            }
            let e = self.consuming.get(i);
            let ghost before = consuming@;
            if e.1 < map.len() {
                match map[e.1] {
                    Some(y) => {
                        consuming.push(e.0, y);
                        assert(consuming@ =~= before + seq![(e.0, y)]);
                    },
                    None => {},
                }
            }
            i += 1;
        }
        assert(cv.take(cv.len() as int) =~= cv);
        let eps = remap_targets(&self.eps, map);
        let ghost pv = predicates_view(self.predicates@);
        let mut predicates: Vec<(Predicate, usize)> = Vec::new();
        let mut i: usize = 0;
        proof {
            if pv.len() > 0 {
                lemma_remap_pairs_take(pv, map@, 0);
            } else {
                assert(pv.take(0) =~= pv);
            }
            assert(predicates_view(predicates@) =~= Seq::empty());
        }
        while i < self.predicates.len()
            invariant
                i <= self.predicates@.len(),
                pv == predicates_view(self.predicates@),
                predicates_view(predicates@) == remap_pairs(pv.take(i as int), map@),
            decreases self.predicates@.len() - i,
        {
            proof {
                lemma_remap_pairs_take(pv, map@, i as int);
            }
            let t = self.predicates[i].1;
            let ghost before = predicates_view(predicates@);
            if t < map.len() {
                match map[t] {
                    Some(y) => {
                        let p = self.predicates[i].0.clone();
                        predicates.push((p, y));
                        assert(predicates_view(predicates@) =~= before + seq![(pv[i as int].0, y)]);
                    },
                    None => {},
                }
            }
            i += 1;
        }
        assert(pv.take(pv.len() as int) =~= pv);
        NfaTransitions { consuming, eps, predicates }
    }
}

/// The automaton that is left when only the states of `keep` stay is well formed.
pub proof fn lemma_trimmed_wf(a: NfaView, keep: Seq<usize>)
    requires
        a.wf(),
        sorted(keep),
        below(keep, a.num()),
    ensures
        a.trimmed(keep).wf(),
{
    let n = a.num();
    let m = keep.len() as int;
    let map = rank_map(keep, n);
    let b = a.trimmed(keep);
    lemma_rank_map_monotone(keep, n);
    assert forall|j: int| 0 <= j < b.states.len() implies (#[trigger] b.states[j]).transitions.wf(
        b.num(),
    ) && b.states[j].accept.wf() by {
        let t = a.states[keep[j] as int].transitions;
        assert(t.wf(n));
        let u = b.states[j].transitions;
        lemma_remap_pairs_below(t.consuming, map, m);
        lemma_remap_pairs_below(t.predicates, map, m);
        lemma_remap_ordered(t.eps, map, m);
        assert forall|k: int| 0 <= k < u.predicates.len() implies (#[trigger] u.predicates[k]).1 < m
            && u.predicates[k].0.wf() by {
            let i = choose|i: int|
                0 <= i < t.predicates.len() && (#[trigger] t.predicates[i]).0 == u.predicates[k].0;
            assert(t.predicates[i].0.wf());
        }
    }
    lemma_remap_ordered(a.init, map, m);
    lemma_remap_ordered(a.init_at_start, map, m);
    assert forall|k: int| 0 <= k < b.init_after_char.len() implies below(
        (#[trigger] b.init_after_char[k]).1,
        b.num(),
    ) by {
        lemma_remap_ordered(a.init_after_char[k].1, map, m);
    }
}

/// A transition between two states that stay is a transition between them after trimming.
pub proof fn lemma_trim_edge(a: NfaView, keep: Seq<usize>, x: int, y: int)
    requires
        a.wf(),
        sorted(keep),
        below(keep, a.num()),
        index_set(keep).contains(x),
        index_set(keep).contains(y),
        a.edge(x, y),
    ensures
        a.trimmed(keep).edge(rank(keep, x).unwrap() as int, rank(keep, y).unwrap() as int),
{
    let n = a.num();
    let map = rank_map(keep, n);
    let b = a.trimmed(keep);
    let jx = choose|j: int| 0 <= j < keep.len() && #[trigger] keep[j] == x;
    let jy = choose|j: int| 0 <= j < keep.len() && #[trigger] keep[j] == y;
    lemma_rank(keep, jx);
    lemma_rank(keep, jy);
    assert(map[y] == Some(jy as usize));
    let t = a.states[x].transitions;
    let u = b.states[jx].transitions;
    assert(u == t.remapped(map));
    if a.eps_edge(x, y) {
        let k = choose|k: int| 0 <= k < t.eps.len() && #[trigger] t.eps[k] == y;
        assert(target_map(map)(t.eps[k]) == Some(jy as usize));
        lemma_remap_contains(t.eps, map, jy as usize);
        let i = choose|i: int| 0 <= i < u.eps.len() && u.eps[i] == jy as usize;
        assert(u.eps[i] == jy);
        assert(b.eps_edge(jx, jy));
    } else if a.consuming_edge(x, y) {
        let k = choose|k: int| 0 <= k < t.consuming.len() && (#[trigger] t.consuming[k]).1 == y;
        let g = t.consuming[k].0;
        assert(pair_map::<CharRange>(map)(t.consuming[k]) == Some((g, jy as usize)));
        lemma_remap_pairs_contains(t.consuming, map, (g, jy as usize));
        let i = choose|i: int| 0 <= i < u.consuming.len() && u.consuming[i] == (g, jy as usize);
        assert(u.consuming[i].1 == jy);
        assert(b.consuming_edge(jx, jy));
    } else {
        let k = choose|k: int| 0 <= k < t.predicates.len() && (#[trigger] t.predicates[k]).1 == y;
        let g = t.predicates[k].0;
        assert(pair_map::<PredicateView>(map)(t.predicates[k]) == Some((g, jy as usize)));
        lemma_remap_pairs_contains(t.predicates, map, (g, jy as usize));
        let i = choose|i: int| 0 <= i < u.predicates.len() && u.predicates[i] == (g, jy as usize);
        assert(u.predicates[i].1 == jy);
        assert(b.predicate_edge(jx, jy));
    }
}

/// An initial state that stays is an initial state after trimming.
pub proof fn lemma_trim_initial(a: NfaView, keep: Seq<usize>, x: int)
    requires
        a.wf(),
        sorted(keep),
        below(keep, a.num()),
        index_set(keep).contains(x),
        a.is_initial(x),
    ensures
        a.trimmed(keep).is_initial(rank(keep, x).unwrap() as int),
{
    let n = a.num();
    let map = rank_map(keep, n);
    let b = a.trimmed(keep);
    let jx = choose|j: int| 0 <= j < keep.len() && #[trigger] keep[j] == x;
    lemma_rank(keep, jx);
    assert(map[x] == Some(jx as usize));
    if index_set(a.init).contains(x) {
        let k = choose|k: int| 0 <= k < a.init.len() && #[trigger] a.init[k] == x;
        assert(target_map(map)(a.init[k]) == Some(jx as usize));
        lemma_remap_contains(a.init, map, jx as usize);
        let i = choose|i: int| 0 <= i < b.init.len() && b.init[i] == jx as usize;
        assert(b.init[i] == jx);
    } else if index_set(a.init_at_start).contains(x) {
        let k = choose|k: int| 0 <= k < a.init_at_start.len() && #[trigger] a.init_at_start[k] == x;
        assert(target_map(map)(a.init_at_start[k]) == Some(jx as usize));
        lemma_remap_contains(a.init_at_start, map, jx as usize);
        let i = choose|i: int| 0 <= i < b.init_at_start.len() && b.init_at_start[i] == jx as usize;
        assert(b.init_at_start[i] == jx);
    } else {
        let q = choose|q: int|
            0 <= q < a.init_after_char.len() && index_set((#[trigger] a.init_after_char[q]).1).contains(
                x,
            );
        let set = a.init_after_char[q].1;
        let k = choose|k: int| 0 <= k < set.len() && #[trigger] set[k] == x;
        assert(target_map(map)(set[k]) == Some(jx as usize));
        lemma_remap_contains(set, map, jx as usize);
        let r = b.init_after_char[q].1;
        assert(r == remap(set, map));
        let i = choose|i: int| 0 <= i < r.len() && r[i] == jx as usize;
        assert(r[i] == jx);
        assert(index_set(b.init_after_char[q].1).contains(jx));
    }
}

/// Whether `x` is reached from an initial state and, if it stays, is reached from one
/// after trimming too.
pub open spec fn forward_kept(a: NfaView, keep: Seq<usize>, x: int) -> bool {
    &&& exists|i: int| a.is_initial(i) && #[trigger] reaches(a.rel(true), i, x)
    &&& index_set(keep).contains(x) ==> exists|i: int|
        a.trimmed(keep).is_initial(i) && #[trigger] reaches(
            a.trimmed(keep).rel(true),
            i,
            rank(keep, x).unwrap() as int,
        )
}

/// Whether `x` reaches an accepting state and, if it stays, reaches one after trimming
/// too.
pub open spec fn backward_kept(a: NfaView, keep: Seq<usize>, x: int) -> bool {
    &&& exists|f: int| a.is_accepting(f) && #[trigger] reaches(a.rel(true), x, f)
    &&& index_set(keep).contains(x) ==> exists|f: int|
        a.trimmed(keep).is_accepting(f) && #[trigger] reaches(
            a.trimmed(keep).rel(true),
            rank(keep, x).unwrap() as int,
            f,
        )
}

/// No transition leads out of the states that are reached as before.
pub proof fn lemma_forward_closed(a: NfaView, keep: Seq<usize>)
    requires
        a.wf(),
        sorted(keep),
        below(keep, a.num()),
        forall|s: int| #[trigger] index_set(keep).contains(s) <==> a.is_live(s),
    ensures
        closed(a.rel(true), Set::new(|x: int| forward_kept(a, keep, x))),
{
    let b = a.trimmed(keep);
    let e = a.rel(true);
    let eb = b.rel(true);
    let fw = Set::new(|x: int| forward_kept(a, keep, x));
    assert forall|x: int, y: int| fw.contains(x) && #[trigger] e(x, y) implies fw.contains(y) by {
        let i = choose|i: int| a.is_initial(i) && #[trigger] reaches(e, i, x);
        lemma_reaches_step(e, i, x, y);
        if index_set(keep).contains(y) {
            assert(a.is_live(y));
            let f = choose|f: int| a.is_accepting(f) && #[trigger] reaches(e, y, f);
            lemma_reaches_first(e, x, y, f);
            assert(a.is_live(x));
            assert(index_set(keep).contains(x));
            let i2 = choose|i2: int|
                b.is_initial(i2) && #[trigger] reaches(eb, i2, rank(keep, x).unwrap() as int);
            lemma_trim_edge(a, keep, x, y);
            lemma_reaches_step(
                eb,
                i2,
                rank(keep, x).unwrap() as int,
                rank(keep, y).unwrap() as int,
            );
        }
    }
}

/// No transition leads into the states that reach an accepting state as before.
pub proof fn lemma_backward_closed(a: NfaView, keep: Seq<usize>)
    requires
        a.wf(),
        sorted(keep),
        below(keep, a.num()),
        forall|s: int| #[trigger] index_set(keep).contains(s) <==> a.is_live(s),
    ensures
        closed(converse(a.rel(true)), Set::new(|x: int| backward_kept(a, keep, x))),
{
    let b = a.trimmed(keep);
    let e = a.rel(true);
    let eb = b.rel(true);
    let bw = Set::new(|x: int| backward_kept(a, keep, x));
    assert forall|x: int, y: int| bw.contains(x) && #[trigger] converse(e)(x, y) implies bw.contains(
        y,
    ) by {
        let f = choose|f: int| a.is_accepting(f) && #[trigger] reaches(e, x, f);
        assert(e(y, x));
        lemma_reaches_first(e, y, x, f);
        if index_set(keep).contains(y) {
            assert(a.is_live(y));
            let i = choose|i: int| a.is_initial(i) && #[trigger] reaches(e, i, y);
            lemma_reaches_step(e, i, y, x);
            assert(a.is_live(x));
            assert(index_set(keep).contains(x));
            let f2 = choose|f2: int|
                b.is_accepting(f2) && #[trigger] reaches(eb, rank(keep, x).unwrap() as int, f2);
            lemma_trim_edge(a, keep, y, x);
            lemma_reaches_first(
                eb,
                rank(keep, y).unwrap() as int,
                rank(keep, x).unwrap() as int,
                f2,
            );
        }
    }
}

/// A state that stays is reached from an initial state after trimming.
pub proof fn lemma_trim_forward(a: NfaView, keep: Seq<usize>, j: int)
    requires
        a.wf(),
        sorted(keep),
        below(keep, a.num()),
        forall|s: int| #[trigger] index_set(keep).contains(s) <==> a.is_live(s),
        0 <= j < keep.len(),
    ensures
        exists|i: int|
            a.trimmed(keep).is_initial(i) && #[trigger] reaches(a.trimmed(keep).rel(true), i, j),
{
    let b = a.trimmed(keep);
    let e = a.rel(true);
    let eb = b.rel(true);
    let fw = Set::new(|x: int| forward_kept(a, keep, x));
    let s = keep[j] as int;
    lemma_rank(keep, j);
    assert(index_set(keep).contains(s));
    assert(a.is_live(s));
    let i = choose|i: int| a.is_initial(i) && #[trigger] reaches(e, i, s);
    assert(fw.contains(i)) by {
        lemma_reaches_refl(e, i);
        if index_set(keep).contains(i) {
            lemma_trim_initial(a, keep, i);
            lemma_reaches_refl(eb, rank(keep, i).unwrap() as int);
        }
    }
    lemma_forward_closed(a, keep);
    lemma_closed_reaches(e, fw, i, s);
    assert(forward_kept(a, keep, s));
}

/// A state that stays reaches an accepting state after trimming.
pub proof fn lemma_trim_backward(a: NfaView, keep: Seq<usize>, j: int)
    requires
        a.wf(),
        sorted(keep),
        below(keep, a.num()),
        forall|s: int| #[trigger] index_set(keep).contains(s) <==> a.is_live(s),
        0 <= j < keep.len(),
    ensures
        exists|f: int|
            a.trimmed(keep).is_accepting(f) && #[trigger] reaches(a.trimmed(keep).rel(true), j, f),
{
    let b = a.trimmed(keep);
    let e = a.rel(true);
    let eb = b.rel(true);
    let bw = Set::new(|x: int| backward_kept(a, keep, x));
    let s = keep[j] as int;
    lemma_rank(keep, j);
    assert(index_set(keep).contains(s));
    assert(a.is_live(s));
    let f = choose|f: int| a.is_accepting(f) && #[trigger] reaches(e, s, f);
    assert(bw.contains(f)) by {
        lemma_reaches_refl(e, f);
        if index_set(keep).contains(f) {
            let jf = choose|jf: int| 0 <= jf < keep.len() && #[trigger] keep[jf] == f;
            lemma_rank(keep, jf);
            assert(b.states[jf].accept == a.states[f].accept);
            assert(b.is_accepting(jf));
            lemma_reaches_refl(eb, jf);
            assert(rank(keep, f).unwrap() as int == jf);
            assert(b.is_accepting(jf) && reaches(eb, rank(keep, f).unwrap() as int, jf));
        }
        assert(a.is_accepting(f) && reaches(e, f, f));
        assert(backward_kept(a, keep, f));
    }
    lemma_reaches_converse(e, s, f);
    lemma_backward_closed(a, keep);
    lemma_closed_reaches(converse(e), bw, f, s);
    assert(backward_kept(a, keep, s));
}

/// After trimming, every state is reached from an initial state and reaches an accepting
/// state: the states that were so before are exactly those that stay.
pub proof fn lemma_trim_keeps_live(a: NfaView, keep: Seq<usize>)
    requires
        a.wf(),
        sorted(keep),
        below(keep, a.num()),
        forall|s: int| #[trigger] index_set(keep).contains(s) <==> a.is_live(s),
    ensures
        a.trimmed(keep).states.len() == keep.len(),
        forall|j: int| 0 <= j < keep.len() ==> #[trigger] a.trimmed(keep).is_live(j),
{
    assert forall|j: int| 0 <= j < keep.len() implies #[trigger] a.trimmed(keep).is_live(j) by {
        lemma_trim_forward(a, keep, j);
        lemma_trim_backward(a, keep, j);
    }
}

impl Nfa {
    /// Removes the states through which no match can pass: those that no initial state
    /// reaches, and those that reach no accepting state. The others are renumbered in
    /// their order.
    pub fn trim_unreachable(&mut self)
        requires
            old(self).wf(),
        ensures
            final(self)@ == old(self)@.trimmed(old(self)@.live_seq()),
            old(self)@.live_seq_ok(),
            final(self).wf(),
    {
        let reachable = self.reachable_states();
        let n = self.states.len();
        let ghost a = self@;
        proof {
            let k = a.live_seq();
            assert(sorted(k) && below(k, a.num()) && forall|s: int| #[trigger]
                index_set(k).contains(s) <==> a.is_live(s));
            assert forall|x: usize| reachable@.contains(x) <==> k.contains(x) by {
                lemma_index_set(reachable@, x);
                lemma_index_set(k, x);
            }
            lemma_sorted_unique(reachable@, k);
            lemma_trimmed_wf(a, k);
        }
        let mut map: Vec<Option<usize>> = Vec::new();
        let mut i: usize = 0;
        while i < n
            invariant
                i <= n,
                map@.len() == i,
                forall|s: int| 0 <= s < i ==> (#[trigger] map@[s]) is None,
            decreases n - i,
        {
            map.push(None);
            i += 1;
        }
        let mut j: usize = 0;
        while j < reachable.len()
            invariant
                j <= reachable.len(),
                map@.len() == n,
                sorted(reachable@),
                below(reachable@, n as int),
                forall|s: int|
                    0 <= s < n ==> (#[trigger] map@[s]) == rank(reachable@.take(j as int), s),
            decreases reachable.len() - j,
        {
            let ghost before = map@;
            map.set(reachable[j], Some(j));
            proof {
                let t0 = reachable@.take(j as int);
                let t1 = reachable@.take(j as int + 1);
                assert(sorted(t1));
                assert forall|s: int| 0 <= s < n implies (#[trigger] map@[s]) == rank(t1, s) by {
                    if s == reachable@[j as int] {
                        lemma_rank(t1, j as int);
                    } else {
                        if index_set(t0).contains(s) {
                            let q = choose|q: int| 0 <= q < t0.len() && #[trigger] t0[q] == s;
                            assert(sorted(t0));
                            lemma_rank(t0, q);
                            assert(t1[q] == t0[q]);
                            lemma_rank(t1, q);
                        }
                        if index_set(t1).contains(s) {
                            let q = choose|q: int| 0 <= q < t1.len() && #[trigger] t1[q] == s;
                            assert(t0[q] == s);
                        }
                    }
                }
            }
            j += 1;
        }
        proof {
            assert(reachable@.take(reachable@.len() as int) =~= reachable@);
            assert(map@ =~= rank_map(reachable@, n as int));
        }
        let ghost b = a.trimmed(reachable@);
        let mut states: Vec<NfaState> = Vec::new();
        j = 0;
        while j < reachable.len()
            invariant
                j <= reachable.len(),
                n == self.states@.len(),
                self@ == a,
                below(reachable@, n as int),
                map@ == rank_map(reachable@, n as int),
                b == a.trimmed(reachable@),
                states@.len() == j,
                forall|q: int| 0 <= q < j ==> (#[trigger] states@[q])@ == b.states[q],
            decreases reachable.len() - j,
        {
            let s = reachable[j];
            proof {
                assert(reachable@[j as int] < n);
                assert(a.states[s as int] == self.states@[s as int]@);
            }
            let old_state = &self.states[s];
            let st = NfaState {
                transitions: old_state.transitions.remapped(&map),
                accept: old_state.accept.clone(),
                dfa_accept: old_state.dfa_accept,
            };
            states.push(st);
            j += 1;
        }
        let init = remap_targets(&self.init, &map);
        let init_at_start = remap_targets(&self.init_at_start, &map);
        let mut init_after_char: CharMap<Vec<usize>> = CharMap::new();
        let mut k: usize = 0;
        while k < self.init_after_char.len()
            invariant
                k <= self.init_after_char@.len(),
                self@ == a,
                n == a.num(),
                map@ == rank_map(reachable@, n as int),
                b == a.trimmed(reachable@),
                init_after_char@.len() == k,
                forall|q: int|
                    0 <= q < k ==> (#[trigger] char_map_view(init_after_char@)[q])
                        == b.init_after_char[q],
            decreases self.init_after_char@.len() - k,
        {
            let e = self.init_after_char.get(k);
            proof {
                assert(a.init_after_char[k as int] == (e.0, e.1@));
            }
            let set = remap_targets(&e.1, &map);
            let ghost before = init_after_char@;
            init_after_char.push(e.0, set);
            proof {
                assert forall|q: int| 0 <= q < k + 1 implies (#[trigger] char_map_view(
                    init_after_char@,
                )[q]) == b.init_after_char[q] by {
                    if q < k {
                        assert(char_map_view(before)[q] == b.init_after_char[q]);
                        assert(init_after_char@[q] == before[q]);
                    }
                }
            }
            k += 1;
        }
        self.states = states;
        self.init = init;
        self.init_at_start = init_at_start;
        self.init_after_char = init_after_char;
        proof {
            assert(self@.states =~= b.states);
            assert(self@.init_after_char =~= b.init_after_char);
        }
    }
}

} // verus!
