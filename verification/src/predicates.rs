//! Removal of the predicate transitions: each is replaced by a state of its own, which
//! takes over what leads into the source of the predicate and what leads out of its target,
//! as far as the predicate allows.
//!
//! A split is stated twice: by what it means (`is_split`: which code points lead where,
//! and when the new state accepts), and by what it makes, list by list (`split_of`). The
//! removal is rounds of splits in a fixed order (`is_round`, `removes`).

use crate::char_map::{
    clipped, is_atoms, keys_disjoint, keys_have, lemma_maps_to_push, lemma_normalized_unique,
    lookup, maps_to, ranges_have, sent_to, sets_of, CharMap, CharMultiMap, CharRange,
};
use crate::graph::{reach_from, reaches};
use crate::moves::is_transitions;
use crate::nfa::{
    index_set, lemma_add_predicate_edges, lemma_add_transition_edges, lemma_index_set,
    lemma_push_state_edges, lemma_wf_same_states, Nfa, NfaState, NfaView, StateView,
};
use crate::reach::mirrors;
use crate::state_set::{below, ordered, sorted, StateSet};
use crate::transition::{
    filtered_accept, lemma_part_empty, predicates_view, Accept, AcceptView, DfaAccept, PartView,
    Predicate, PredicateView, TransitionsView,
};
use vstd::prelude::*;

verus! {

/// Whether `b` has the states of `a`, with the same acceptance and the same ε-transitions,
/// and the same initial states.
pub open spec fn same_frame(a: NfaView, b: NfaView) -> bool {
    &&& a.states.len() == b.states.len()
    &&& forall|s: int|
        0 <= s < a.states.len() ==> (#[trigger] b.states[s]).accept == a.states[s].accept
            && b.states[s].dfa_accept == a.states[s].dfa_accept && b.states[s].transitions.eps
            == a.states[s].transitions.eps
    &&& b.init == a.init
    &&& b.init_at_start == a.init_at_start
    &&& b.init_after_char == a.init_after_char
}

/// Whether `r` is the intersection of `p` and `q`, and something satisfies each of its
/// sides.
pub open spec fn is_meet(r: PredicateView, p: PredicateView, q: PredicateView) -> bool {
    &&& r.behind.is_intersection(p.behind, q.behind)
    &&& r.ahead.is_intersection(p.ahead, q.ahead)
    &&& !r.behind.is_empty()
    &&& !r.ahead.is_empty()
}

/// A consuming transition and its mirror image leave a mirror a mirror.
pub proof fn lemma_mirror_add_transition(r: NfaView, a: NfaView, from: int, to: usize, g: CharRange)
    requires
        mirrors(r, a),
        0 <= from < a.num(),
        0 <= to < a.num(),
        from <= usize::MAX,
    ensures
        mirrors(r.add_transition(to as int, from as usize, g), a.add_transition(from, to, g)),
{
    let r1 = r.add_transition(to as int, from as usize, g);
    let a1 = a.add_transition(from, to, g);
    lemma_add_transition_edges(r, to as int, from as usize, g);
    lemma_add_transition_edges(a, from, to, g);
    assert forall|s: int, h: CharRange, t: int|
        #![trigger r1.has_consuming(t, h, s)]
        #![trigger a1.has_consuming(s, h, t)]
        r1.has_consuming(t, h, s) <==> a1.has_consuming(s, h, t) by {
        assert(r1.consuming_set().contains((t, h, s)) == r1.has_consuming(t, h, s));
        assert(a1.consuming_set().contains((s, h, t)) == a1.has_consuming(s, h, t));
        assert(r.consuming_set().contains((t, h, s)) == r.has_consuming(t, h, s));
        assert(a.consuming_set().contains((s, h, t)) == a.has_consuming(s, h, t));
    }
    assert forall|s: int, t: int|
        #![trigger r1.eps_edge(t, s)]
        #![trigger a1.eps_edge(s, t)]
        r1.eps_edge(t, s) <==> a1.eps_edge(s, t) by {
        assert(r1.eps_set().contains((t, s)) == r1.eps_edge(t, s));
        assert(a1.eps_set().contains((s, t)) == a1.eps_edge(s, t));
        assert(r.eps_set().contains((t, s)) == r.eps_edge(t, s));
        assert(a.eps_set().contains((s, t)) == a.eps_edge(s, t));
    }
    assert forall|s: int, p: PredicateView, t: int|
        #![trigger r1.has_predicate(t, p, s)]
        #![trigger a1.has_predicate(s, p, t)]
        r1.has_predicate(t, p, s) <==> a1.has_predicate(s, p, t) by {
        assert(r1.predicate_set().contains((t, p, s)) == r1.has_predicate(t, p, s));
        assert(a1.predicate_set().contains((s, p, t)) == a1.has_predicate(s, p, t));
        assert(r.predicate_set().contains((t, p, s)) == r.has_predicate(t, p, s));
        assert(a.predicate_set().contains((s, p, t)) == a.has_predicate(s, p, t));
    }
}

/// A predicate transition and its mirror image leave a mirror a mirror.
pub proof fn lemma_mirror_add_predicate(r: NfaView, a: NfaView, from: int, to: usize, g: PredicateView)
    requires
        mirrors(r, a),
        0 <= from < a.num(),
        0 <= to < a.num(),
        from <= usize::MAX,
    ensures
        mirrors(r.add_predicate(to as int, from as usize, g), a.add_predicate(from, to, g)),
{
    let r1 = r.add_predicate(to as int, from as usize, g);
    let a1 = a.add_predicate(from, to, g);
    lemma_add_predicate_edges(r, to as int, from as usize, g);
    lemma_add_predicate_edges(a, from, to, g);
    assert forall|s: int, h: CharRange, t: int|
        #![trigger r1.has_consuming(t, h, s)]
        #![trigger a1.has_consuming(s, h, t)]
        r1.has_consuming(t, h, s) <==> a1.has_consuming(s, h, t) by {
        assert(r1.consuming_set().contains((t, h, s)) == r1.has_consuming(t, h, s));
        assert(a1.consuming_set().contains((s, h, t)) == a1.has_consuming(s, h, t));
        assert(r.consuming_set().contains((t, h, s)) == r.has_consuming(t, h, s));
        assert(a.consuming_set().contains((s, h, t)) == a.has_consuming(s, h, t));
    }
    assert forall|s: int, t: int|
        #![trigger r1.eps_edge(t, s)]
        #![trigger a1.eps_edge(s, t)]
        r1.eps_edge(t, s) <==> a1.eps_edge(s, t) by {
        assert(r1.eps_set().contains((t, s)) == r1.eps_edge(t, s));
        assert(a1.eps_set().contains((s, t)) == a1.eps_edge(s, t));
        assert(r.eps_set().contains((t, s)) == r.eps_edge(t, s));
        assert(a.eps_set().contains((s, t)) == a.eps_edge(s, t));
    }
    assert forall|s: int, p: PredicateView, t: int|
        #![trigger r1.has_predicate(t, p, s)]
        #![trigger a1.has_predicate(s, p, t)]
        r1.has_predicate(t, p, s) <==> a1.has_predicate(s, p, t) by {
        assert(r1.predicate_set().contains((t, p, s)) == r1.has_predicate(t, p, s));
        assert(a1.predicate_set().contains((s, p, t)) == a1.has_predicate(s, p, t));
        assert(r.predicate_set().contains((t, p, s)) == r.has_predicate(t, p, s));
        assert(a.predicate_set().contains((s, p, t)) == a.has_predicate(s, p, t));
    }
}

/// A new state on both sides leaves a mirror a mirror.
pub proof fn lemma_mirror_push_state(r: NfaView, a: NfaView, x: StateView, y: StateView)
    requires
        mirrors(r, a),
        x.transitions == TransitionsView::empty(),
        y.transitions == TransitionsView::empty(),
    ensures
        mirrors(r.push_state(x), a.push_state(y)),
{
    let r1 = r.push_state(x);
    let a1 = a.push_state(y);
    lemma_push_state_edges(r, x);
    lemma_push_state_edges(a, y);
    assert forall|s: int, h: CharRange, t: int|
        #![trigger r1.has_consuming(t, h, s)]
        #![trigger a1.has_consuming(s, h, t)]
        r1.has_consuming(t, h, s) <==> a1.has_consuming(s, h, t) by {
        assert(r1.consuming_set().contains((t, h, s)) == r1.has_consuming(t, h, s));
        assert(a1.consuming_set().contains((s, h, t)) == a1.has_consuming(s, h, t));
        assert(r.consuming_set().contains((t, h, s)) == r.has_consuming(t, h, s));
        assert(a.consuming_set().contains((s, h, t)) == a.has_consuming(s, h, t));
    }
    assert forall|s: int, t: int|
        #![trigger r1.eps_edge(t, s)]
        #![trigger a1.eps_edge(s, t)]
        r1.eps_edge(t, s) <==> a1.eps_edge(s, t) by {
        assert(r1.eps_set().contains((t, s)) == r1.eps_edge(t, s));
        assert(a1.eps_set().contains((s, t)) == a1.eps_edge(s, t));
        assert(r.eps_set().contains((t, s)) == r.eps_edge(t, s));
        assert(a.eps_set().contains((s, t)) == a.eps_edge(s, t));
    }
    assert forall|s: int, p: PredicateView, t: int|
        #![trigger r1.has_predicate(t, p, s)]
        #![trigger a1.has_predicate(s, p, t)]
        r1.has_predicate(t, p, s) <==> a1.has_predicate(s, p, t) by {
        assert(r1.predicate_set().contains((t, p, s)) == r1.has_predicate(t, p, s));
        assert(a1.predicate_set().contains((s, p, t)) == a1.has_predicate(s, p, t));
        assert(r.predicate_set().contains((t, p, s)) == r.has_predicate(t, p, s));
        assert(a.predicate_set().contains((s, p, t)) == a.has_predicate(s, p, t));
    }
}

/// Two parts that are the intersection of the same two are the same.
pub proof fn lemma_part_meet_unique(r1: PartView, r2: PartView, a: PartView, b: PartView)
    requires
        r1.is_intersection(a, b),
        r2.is_intersection(a, b),
    ensures
        r1 == r2,
{
    assert forall|c: u32| ranges_have(r1.chars, c) <==> ranges_have(r2.chars, c) by {
        assert(r1.has(c) <==> (a.has(c) && b.has(c)));
        assert(r2.has(c) <==> (a.has(c) && b.has(c)));
    }
    lemma_normalized_unique(r1.chars, r2.chars);
}

/// Whether `others` has a predicate transition to `z` whose predicate meets `p` in `r`.
pub open spec fn meets_in(
    others: Seq<(PredicateView, usize)>,
    p: PredicateView,
    r: PredicateView,
    z: int,
) -> bool {
    exists|k: int| 0 <= k < others.len() && (#[trigger] others[k]).1 == z && is_meet(r, p, others[k].0)
}

/// Whether `trans` has an entry with the range `g` whose set of states holds `s`.
pub open spec fn entry_has(trans: Seq<(CharRange, Vec<usize>)>, g: CharRange, s: int) -> bool {
    exists|k: int, j: int|
        0 <= k < trans.len() && 0 <= j < trans[k].1@.len() && (#[trigger] trans[k]).0 == g
            && #[trigger] trans[k].1@[j] == s
}

/// The same for the entries below `k`, and the first `j` states of the entry `k`.
pub open spec fn entry_has_upto(
    trans: Seq<(CharRange, Vec<usize>)>,
    k: int,
    j: int,
    g: CharRange,
    s: int,
) -> bool {
    exists|k2: int, j2: int|
        0 <= k2 < trans.len() && 0 <= j2 < trans[k2].1@.len() && (k2 < k || (k2 == k && j2 < j)) && (
        #[trigger] trans[k2]).0 == g && #[trigger] trans[k2].1@[j2] == s
}

/// The predicate that is satisfied by what satisfies both `p` and `q`, if something
/// satisfies each of its sides.
pub open spec fn meet(p: PredicateView, q: PredicateView) -> Option<PredicateView> {
    if exists|r: PredicateView| is_meet(r, p, q) {
        Some(choose|r: PredicateView| is_meet(r, p, q))
    } else {
        None
    }
}

/// Two predicates meet in one predicate at most.
pub proof fn lemma_meet(r: PredicateView, p: PredicateView, q: PredicateView)
    requires
        is_meet(r, p, q),
    ensures
        meet(p, q) == Some(r),
{
    let m = choose|m: PredicateView| is_meet(m, p, q);
    lemma_part_meet_unique(m.behind, r.behind, p.behind, q.behind);
    lemma_part_meet_unique(m.ahead, r.ahead, p.ahead, q.ahead);
}

impl NfaView {
    /// The automaton with one more consuming transition on `range` between `s` and `n`:
    /// out of `n` where `from_n` holds, else into it.
    pub open spec fn with_edge(self, n: usize, s: usize, range: CharRange, from_n: bool) -> NfaView {
        if from_n {
            self.add_transition(n as int, s, range)
        } else {
            self.add_transition(s as int, n, range)
        }
    }

    /// The automaton with a consuming transition on `range` between `n` and each state of
    /// `states`, added in the order of `states`.
    pub open spec fn with_edges_on(
        self,
        n: usize,
        range: CharRange,
        states: Seq<usize>,
        from_n: bool,
    ) -> NfaView
        decreases states.len(),
    {
        if states.len() == 0 {
            self
        } else {
            self.with_edges_on(n, range, states.drop_last(), from_n).with_edge(
                n,
                states.last(),
                range,
                from_n,
            )
        }
    }

    /// The automaton with the transitions of `trans` between `n` and the states of its
    /// entries, added entry by entry.
    pub open spec fn with_edges(
        self,
        n: usize,
        trans: Seq<(CharRange, Seq<usize>)>,
        from_n: bool,
    ) -> NfaView
        decreases trans.len(),
    {
        if trans.len() == 0 {
            self
        } else {
            self.with_edges(n, trans.drop_last(), from_n).with_edges_on(
                n,
                trans.last().0,
                trans.last().1,
                from_n,
            )
        }
    }

    /// The automaton with, for each predicate transition of `others` whose predicate meets
    /// `p`, a predicate transition under what the two have in common between its state
    /// and `n`: out of `n` where `from_n` holds, else into it. They are added in the order
    /// of `others`.
    pub open spec fn with_met(
        self,
        n: usize,
        p: PredicateView,
        others: Seq<(PredicateView, usize)>,
        from_n: bool,
    ) -> NfaView
        decreases others.len(),
    {
        if others.len() == 0 {
            self
        } else {
            let b = self.with_met(n, p, others.drop_last(), from_n);
            match meet(p, others.last().0) {
                Some(m) => if from_n {
                    b.add_predicate(n as int, others.last().1, m)
                } else {
                    b.add_predicate(others.last().1 as int, n, m)
                },
                None => b,
            }
        }
    }
}

impl Nfa {
    /// Adds, for each range of `trans` and each state of its set, a transition on that
    /// range between that state and `n`: into `n`, or, with `out`, out of it. `reversed`
    /// gets the same transition turned round.
    fn add_transitions_at(
        &mut self,
        reversed: &mut Nfa,
        n: usize,
        trans: &CharMap<StateSet>,
        out: bool,
    )
        requires
            old(self).wf(),
            old(reversed).wf(),
            mirrors(old(reversed)@, old(self)@),
            n < old(self)@.num(),
            forall|k: int| 0 <= k < trans@.len() ==> below((#[trigger] trans@[k]).1@, old(self)@.num()),
        ensures
            final(self).wf(),
            final(reversed).wf(),
            mirrors(final(reversed)@, final(self)@),
            final(self)@ == old(self)@.with_edges(n, sets_of(trans@), out),
            final(reversed)@ == old(reversed)@.with_edges(n, sets_of(trans@), !out),
            same_frame(old(self)@, final(self)@),
            same_frame(old(reversed)@, final(reversed)@),
            final(self)@.predicate_set() == old(self)@.predicate_set(),
            forall|x: int, g: CharRange, y: int|
                #![trigger final(self)@.has_consuming(x, g, y)]
                final(self)@.has_consuming(x, g, y) <==> old(self)@.has_consuming(x, g, y) || (if out {
                    x == n && entry_has(trans@, g, y)
                } else {
                    y == n && entry_has(trans@, g, x)
                }),
    {
        let ghost a = self@;
        let ghost r = reversed@;
        let ghost tv = sets_of(trans@);
        let mut k: usize = 0;
        proof {
            assert(tv.take(0) =~= Seq::empty());
        }
        while k < trans.len()
            invariant
                k <= trans@.len(),
                self.wf(),
                reversed.wf(),
                mirrors(reversed@, self@),
                n < a.num(),
                tv == sets_of(trans@),
                self@ == a.with_edges(n, tv.take(k as int), out),
                reversed@ == r.with_edges(n, tv.take(k as int), !out),
                forall|q: int| 0 <= q < trans@.len() ==> below((#[trigger] trans@[q]).1@, a.num()),
                same_frame(a, self@),
                same_frame(r, reversed@),
                self@.predicate_set() == a.predicate_set(),
                forall|x: int, g: CharRange, y: int|
                    #![trigger self@.has_consuming(x, g, y)]
                    self@.has_consuming(x, g, y) <==> a.has_consuming(x, g, y) || (if out {
                        x == n && entry_has_upto(trans@, k as int, 0, g, y)
                    } else {
                        y == n && entry_has_upto(trans@, k as int, 0, g, x)
                    }),
            decreases trans@.len() - k,
        {
            let e = trans.get(k);
            let range = e.0;
            let mut j: usize = 0;
            let ghost a_k = self@;
            let ghost r_k = reversed@;
            proof {
                assert(e.1@.take(0) =~= Seq::empty());
            }
            while j < e.1.len()
                invariant
                    j <= e.1@.len(),
                    k < trans@.len(),
                    *e == trans@[k as int],
                    range == e.0,
                    self@ == a_k.with_edges_on(n, range, e.1@.take(j as int), out),
                    reversed@ == r_k.with_edges_on(n, range, e.1@.take(j as int), !out),
                    self.wf(),
                    reversed.wf(),
                    mirrors(reversed@, self@),
                    n < a.num(),
                    below(e.1@, a.num()),
                    same_frame(a, self@),
                    same_frame(r, reversed@),
                    self@.predicate_set() == a.predicate_set(),
                    forall|x: int, g: CharRange, y: int|
                        #![trigger self@.has_consuming(x, g, y)]
                        self@.has_consuming(x, g, y) <==> a.has_consuming(x, g, y) || (if out {
                            x == n && entry_has_upto(trans@, k as int, j as int, g, y)
                        } else {
                            y == n && entry_has_upto(trans@, k as int, j as int, g, x)
                        }),
                decreases e.1@.len() - j,
            {
                let s = e.1[j];
                let ghost a0 = self@;
                let ghost r0 = reversed@;
                proof {
                    assert(e.1@[j as int] < a.num());
                }
                if out {
                    proof {
                        lemma_mirror_add_transition(r0, a0, n as int, s, range);
                        lemma_add_transition_edges(a0, n as int, s, range);
                    }
                    self.add_transition(n, s, range);
                    reversed.add_transition(s, n, range);
                } else {
                    proof {
                        lemma_mirror_add_transition(r0, a0, s as int, n, range);
                        lemma_add_transition_edges(a0, s as int, n, range);
                    }
                    self.add_transition(s, n, range);
                    reversed.add_transition(n, s, range);
                }
                proof {
                    let next = e.1@.take(j as int + 1);
                    assert(next.drop_last() =~= e.1@.take(j as int));
                    assert(next.last() == s);
                    assert(self@ == a_k.with_edges_on(n, range, next, out));
                    assert(reversed@ == r_k.with_edges_on(n, range, next, !out));
                }
                proof {
                    let a1 = self@;
                    assert forall|x: int, g: CharRange, y: int|
                        #![trigger a1.has_consuming(x, g, y)]
                        a1.has_consuming(x, g, y) <==> a.has_consuming(x, g, y) || (if out {
                            x == n && entry_has_upto(trans@, k as int, j as int + 1, g, y)
                        } else {
                            y == n && entry_has_upto(trans@, k as int, j as int + 1, g, x)
                        }) by {
                        assert(a1.consuming_set().contains((x, g, y)) == a1.has_consuming(x, g, y));
                        assert(a0.consuming_set().contains((x, g, y)) == a0.has_consuming(x, g, y));
                        let z = if out {
                            y
                        } else {
                            x
                        };
                        if entry_has_upto(trans@, k as int, j as int, g, z) {
                            let (k2, j2) = choose|k2: int, j2: int|
                                0 <= k2 < trans@.len() && 0 <= j2 < trans@[k2].1@.len() && (k2 < k || (
                                k2 == k && j2 < j)) && (#[trigger] trans@[k2]).0 == g
                                    && #[trigger] trans@[k2].1@[j2] == z;
                            assert(0 <= k2 < trans@.len() && 0 <= j2 < trans@[k2].1@.len() && (k2 < k
                                || (k2 == k && j2 < j + 1)) && trans@[k2].0 == g && trans@[k2].1@[j2]
                                == z);
                        }
                        if g == range && z == s {
                            assert(trans@[k as int].0 == g && trans@[k as int].1@[j as int] == z);
                            assert(entry_has_upto(trans@, k as int, j as int + 1, g, z));
                        }
                        if entry_has_upto(trans@, k as int, j as int + 1, g, z) {
                            let (k2, j2) = choose|k2: int, j2: int|
                                0 <= k2 < trans@.len() && 0 <= j2 < trans@[k2].1@.len() && (k2 < k || (
                                k2 == k && j2 < j + 1)) && (#[trigger] trans@[k2]).0 == g
                                    && #[trigger] trans@[k2].1@[j2] == z;
                            if !(k2 == k && j2 == j) {
                                assert(0 <= k2 < trans@.len() && 0 <= j2 < trans@[k2].1@.len() && (k2
                                    < k || (k2 == k && j2 < j)) && trans@[k2].0 == g
                                    && trans@[k2].1@[j2] == z);
                            }
                        }
                    }
                }
                j += 1;
            }
            proof {
                assert(e.1@.take(e.1@.len() as int) =~= e.1@);
                let next = tv.take(k as int + 1);
                assert(next.drop_last() =~= tv.take(k as int));
                assert(next.last() == (range, e.1@));
                assert(self@ == a.with_edges(n, next, out));
                assert(reversed@ == r.with_edges(n, next, !out));
            }
            proof {
                assert forall|g: CharRange, z: int|
                    entry_has_upto(trans@, k as int, e.1@.len() as int, g, z) <==> entry_has_upto(
                        trans@,
                        k as int + 1,
                        0,
                        g,
                        z,
                    ) by {
                    if entry_has_upto(trans@, k as int, e.1@.len() as int, g, z) {
                        let (k2, j2) = choose|k2: int, j2: int|
                            0 <= k2 < trans@.len() && 0 <= j2 < trans@[k2].1@.len() && (k2 < k || (k2
                                == k && j2 < e.1@.len())) && (#[trigger] trans@[k2]).0 == g
                                && #[trigger] trans@[k2].1@[j2] == z;
                        assert(0 <= k2 < trans@.len() && 0 <= j2 < trans@[k2].1@.len() && (k2 < k + 1
                            || (k2 == k + 1 && j2 < 0)) && trans@[k2].0 == g && trans@[k2].1@[j2]
                            == z);
                    }
                    if entry_has_upto(trans@, k as int + 1, 0, g, z) {
                        let (k2, j2) = choose|k2: int, j2: int|
                            0 <= k2 < trans@.len() && 0 <= j2 < trans@[k2].1@.len() && (k2 < k + 1 || (
                            k2 == k + 1 && j2 < 0)) && (#[trigger] trans@[k2]).0 == g
                                && #[trigger] trans@[k2].1@[j2] == z;
                        assert(0 <= k2 < trans@.len() && 0 <= j2 < trans@[k2].1@.len() && (k2 < k
                            || (k2 == k && j2 < e.1@.len())) && trans@[k2].0 == g
                            && trans@[k2].1@[j2] == z);
                    }
                }
            }
            k += 1;
        }
        proof {
            assert(tv.take(tv.len() as int) =~= tv);
            assert forall|g: CharRange, z: int|
                entry_has_upto(trans@, trans@.len() as int, 0, g, z) <==> entry_has(trans@, g, z) by {
                if entry_has_upto(trans@, trans@.len() as int, 0, g, z) {
                    let (k2, j2) = choose|k2: int, j2: int|
                        0 <= k2 < trans@.len() && 0 <= j2 < trans@[k2].1@.len() && (k2 < trans@.len()
                            || (k2 == trans@.len() && j2 < 0)) && (#[trigger] trans@[k2]).0 == g
                            && #[trigger] trans@[k2].1@[j2] == z;
                    assert(0 <= k2 < trans@.len() && 0 <= j2 < trans@[k2].1@.len() && trans@[k2].0
                        == g && trans@[k2].1@[j2] == z);
                }
                if entry_has(trans@, g, z) {
                    let (k2, j2) = choose|k2: int, j2: int|
                        0 <= k2 < trans@.len() && 0 <= j2 < trans@[k2].1@.len() && (
                        #[trigger] trans@[k2]).0 == g && #[trigger] trans@[k2].1@[j2] == z;
                    assert(0 <= k2 < trans@.len() && 0 <= j2 < trans@[k2].1@.len() && (k2
                        < trans@.len() || (k2 == trans@.len() && j2 < 0)) && trans@[k2].0 == g
                        && trans@[k2].1@[j2] == z);
                }
            }
        }
    }

    /// Adds, for each predicate transition of `others` whose predicate meets `pred`, a
    /// transition under what the two have in common between its state and `n`: into `n`,
    /// or, with `out`, out of it. `reversed` gets the same transition turned round.
    fn add_predicates_at(
        &mut self,
        reversed: &mut Nfa,
        n: usize,
        pred: &Predicate,
        others: &Vec<(Predicate, usize)>,
        out: bool,
    )
        requires
            old(self).wf(),
            old(reversed).wf(),
            mirrors(old(reversed)@, old(self)@),
            n < old(self)@.num(),
            pred.wf(),
            forall|k: int|
                0 <= k < others@.len() ==> (#[trigger] others@[k]).0.wf() && others@[k].1 < old(
                    self,
                )@.num(),
        ensures
            final(self).wf(),
            final(reversed).wf(),
            mirrors(final(reversed)@, final(self)@),
            final(self)@ == old(self)@.with_met(n, pred@, predicates_view(others@), out),
            final(reversed)@ == old(reversed)@.with_met(n, pred@, predicates_view(others@), !out),
            same_frame(old(self)@, final(self)@),
            same_frame(old(reversed)@, final(reversed)@),
            final(self)@.consuming_set() == old(self)@.consuming_set(),
            forall|x: int, g: PredicateView, y: int|
                #![trigger final(self)@.has_predicate(x, g, y)]
                final(self)@.has_predicate(x, g, y) <==> old(self)@.has_predicate(x, g, y) || (if out {
                    x == n && meets_in(predicates_view(others@), pred@, g, y)
                } else {
                    y == n && meets_in(predicates_view(others@), pred@, g, x)
                }),
    {
        let ghost a = self@;
        let ghost r = reversed@;
        let ghost ov = predicates_view(others@);
        let mut k: usize = 0;
        proof {
            assert(ov.take(0) =~= Seq::empty());
        }
        while k < others.len()
            invariant
                k <= others@.len(),
                self.wf(),
                reversed.wf(),
                mirrors(reversed@, self@),
                n < a.num(),
                pred.wf(),
                ov == predicates_view(others@),
                self@ == a.with_met(n, pred@, ov.take(k as int), out),
                reversed@ == r.with_met(n, pred@, ov.take(k as int), !out),
                forall|q: int|
                    0 <= q < others@.len() ==> (#[trigger] others@[q]).0.wf() && others@[q].1
                        < a.num(),
                same_frame(a, self@),
                same_frame(r, reversed@),
                self@.consuming_set() == a.consuming_set(),
                forall|x: int, g: PredicateView, y: int|
                    #![trigger self@.has_predicate(x, g, y)]
                    self@.has_predicate(x, g, y) <==> a.has_predicate(x, g, y) || (if out {
                        x == n && meets_in(ov.take(k as int), pred@, g, y)
                    } else {
                        y == n && meets_in(ov.take(k as int), pred@, g, x)
                    }),
            decreases others@.len() - k,
        {
            let s = others[k].1;
            let ghost qv = others@[k as int].0@;
            let ghost a0 = self@;
            let ghost r0 = reversed@;
            let ghost t0 = ov.take(k as int);
            let ghost t1 = ov.take(k as int + 1);
            proof {
                assert(others@[k as int].0.wf());
                assert(ov[k as int] == (qv, s));
                assert(t1 =~= t0.push((qv, s)));
                assert(t1.drop_last() =~= t0);
                assert(t1.last() == (qv, s));
            }
            let met = pred.intersect(&others[k].0);
            match met {
                Some(p) => {
                    let ghost pv = p@;
                    proof {
                        lemma_part_empty(pv.behind, pred@.behind, qv.behind);
                        lemma_part_empty(pv.ahead, pred@.ahead, qv.ahead);
                        assert(is_meet(pv, pred@, qv));
                        lemma_meet(pv, pred@, qv);
                    }
                    let twin = p.clone();
                    if out {
                        proof {
                            lemma_mirror_add_predicate(r0, a0, n as int, s, pv);
                            lemma_add_predicate_edges(a0, n as int, s, pv);
                        }
                        self.add_predicate(n, s, p);
                        reversed.add_predicate(s, n, twin);
                    } else {
                        proof {
                            lemma_mirror_add_predicate(r0, a0, s as int, n, pv);
                            lemma_add_predicate_edges(a0, s as int, n, pv);
                        }
                        self.add_predicate(s, n, p);
                        reversed.add_predicate(n, s, twin);
                    }
                    proof {
                        assert(self@ == a.with_met(n, pred@, t1, out));
                        assert(reversed@ == r.with_met(n, pred@, t1, !out));
                    }
                    proof {
                        let a1 = self@;
                        assert forall|x: int, g: PredicateView, y: int|
                            #![trigger a1.has_predicate(x, g, y)]
                            a1.has_predicate(x, g, y) <==> a.has_predicate(x, g, y) || (if out {
                                x == n && meets_in(t1, pred@, g, y)
                            } else {
                                y == n && meets_in(t1, pred@, g, x)
                            }) by {
                            assert(a1.predicate_set().contains((x, g, y)) == a1.has_predicate(
                                x,
                                g,
                                y,
                            ));
                            assert(a0.predicate_set().contains((x, g, y)) == a0.has_predicate(
                                x,
                                g,
                                y,
                            ));
                            let z = if out {
                                y
                            } else {
                                x
                            };
                            lemma_meets_in_push(t0, (qv, s), pred@, g, z);
                            if z == s && is_meet(g, pred@, qv) {
                                lemma_part_meet_unique(g.behind, pv.behind, pred@.behind, qv.behind);
                                lemma_part_meet_unique(g.ahead, pv.ahead, pred@.ahead, qv.ahead);
                            }
                        }
                    }
                },
                None => {
                    proof {
                        assert forall|m: PredicateView| !is_meet(m, pred@, qv) by {
                            if is_meet(m, pred@, qv) {
                                lemma_part_empty(m.behind, pred@.behind, qv.behind);
                                lemma_part_empty(m.ahead, pred@.ahead, qv.ahead);
                            }
                        }
                        assert(meet(pred@, qv) is None);
                        assert(self@ == a.with_met(n, pred@, t1, out));
                        assert(reversed@ == r.with_met(n, pred@, t1, !out));
                    }
                    proof {
                        assert forall|x: int, g: PredicateView, y: int|
                            #![trigger self@.has_predicate(x, g, y)]
                            self@.has_predicate(x, g, y) <==> a.has_predicate(x, g, y) || (if out {
                                x == n && meets_in(t1, pred@, g, y)
                            } else {
                                y == n && meets_in(t1, pred@, g, x)
                            }) by {
                            let z = if out {
                                y
                            } else {
                                x
                            };
                            lemma_meets_in_push(t0, (qv, s), pred@, g, z);
                            if is_meet(g, pred@, qv) {
                                lemma_part_empty(g.behind, pred@.behind, qv.behind);
                                lemma_part_empty(g.ahead, pred@.ahead, qv.ahead);
                            }
                        }
                    }
                },
            }
            k += 1;
        }
        proof {
            assert(ov.take(ov.len() as int) =~= ov);
        }
    }
}

/// What meets `p` in a list with one more predicate transition.
pub proof fn lemma_meets_in_push(
    others: Seq<(PredicateView, usize)>,
    e: (PredicateView, usize),
    p: PredicateView,
    r: PredicateView,
    z: int,
)
    ensures
        meets_in(others.push(e), p, r, z) <==> (meets_in(others, p, r, z) || (e.1 == z && is_meet(
            r,
            p,
            e.0,
        ))),
{
    let m = others.push(e);
    if meets_in(others, p, r, z) {
        let k = choose|k: int|
            0 <= k < others.len() && (#[trigger] others[k]).1 == z && is_meet(r, p, others[k].0);
        assert(m[k].1 == z && is_meet(r, p, m[k].0));
    }
    if e.1 == z && is_meet(r, p, e.0) {
        assert(m[others.len() as int].1 == z);
    }
    if meets_in(m, p, r, z) {
        let k = choose|k: int| 0 <= k < m.len() && (#[trigger] m[k]).1 == z && is_meet(r, p, m[k].0);
        if k < others.len() {
            assert(others[k].1 == z && is_meet(r, p, others[k].0));
        }
    }
}

impl NfaView {
    /// Whether a consuming transition on the code point `c` leads from `s` to `t`.
    pub open spec fn moves(self, s: int, c: u32, t: int) -> bool {
        exists|g: CharRange| g.has(c) && #[trigger] self.has_consuming(s, g, t)
    }

    /// Whether a predicate transition under `q` leads from one of `states` to `y`.
    pub open spec fn predicate_from(self, states: Seq<usize>, q: PredicateView, y: int) -> bool {
        exists|k: int| 0 <= k < states.len() && self.has_predicate((#[trigger] states[k]) as int, q, y)
    }
}

/// Whether two sets of states share a state.
pub open spec fn share(a: Seq<usize>, b: Seq<usize>) -> bool {
    exists|x: usize| a.contains(x) && b.contains(x)
}

/// The predicate transitions out of `states` are those of its states.
pub proof fn lemma_predicates_of(a: NfaView, states: Seq<usize>, q: PredicateView, y: int)
    requires
        below(states, a.num()),
        0 <= y <= usize::MAX,
    ensures
        a.predicates_of(states).contains((q, y as usize)) <==> a.predicate_from(states, q, y),
    decreases states.len(),
{
    if states.len() > 0 {
        let rest = states.drop_last();
        let s = states.last() as int;
        let ps = a.states[s].transitions.predicates;
        let all = a.predicates_of(states);
        let r = a.predicates_of(rest);
        lemma_predicates_of(a, rest, q, y);
        assert(states[states.len() - 1] < a.num());
        if all.contains((q, y as usize)) {
            let i = choose|i: int| 0 <= i < all.len() && all[i] == (q, y as usize);
            if i < r.len() {
                assert(r[i] == (q, y as usize));
                assert(r.contains((q, y as usize)));
                let k = choose|k: int|
                    0 <= k < rest.len() && a.has_predicate((#[trigger] rest[k]) as int, q, y);
                assert(a.has_predicate(states[k] as int, q, y));
            } else {
                assert(ps[i - r.len()] == (q, y as usize));
                assert(a.has_predicate(states[states.len() - 1] as int, q, y));
            }
        }
        if a.predicate_from(states, q, y) {
            let k = choose|k: int|
                0 <= k < states.len() && a.has_predicate((#[trigger] states[k]) as int, q, y);
            if k < rest.len() {
                assert(a.has_predicate(rest[k] as int, q, y));
                assert(r.contains((q, y as usize)));
                let i = choose|i: int| 0 <= i < r.len() && r[i] == (q, y as usize);
                assert(all[i] == (q, y as usize));
            } else {
                let i = choose|i: int| 0 <= i < ps.len() && #[trigger] ps[i] == (q, y as usize);
                assert(all[r.len() + i] == (q, y as usize));
            }
        }
    }
}

/// The predicate transitions out of `states` lead to states of the automaton, under
/// well-formed predicates.
pub proof fn lemma_predicates_of_wf(a: NfaView, states: Seq<usize>)
    requires
        a.wf(),
        below(states, a.num()),
    ensures
        forall|k: int|
            0 <= k < a.predicates_of(states).len() ==> (#[trigger] a.predicates_of(states)[k]).1
                < a.num() && a.predicates_of(states)[k].0.wf(),
    decreases states.len(),
{
    if states.len() > 0 {
        let rest = states.drop_last();
        lemma_predicates_of_wf(a, rest);
        let s = states.last() as int;
        assert(states[states.len() - 1] < a.num());
        assert(a.states[s].transitions.wf(a.num()));
        let m = a.predicates_of(states);
        let r = a.predicates_of(rest);
        assert forall|k: int| 0 <= k < m.len() implies (#[trigger] m[k]).1 < a.num() && m[k].0.wf() by {
            if k < r.len() {
                assert(r[k].1 < a.num());
            } else {
                assert(a.states[s].transitions.predicates[k - r.len()].1 < a.num());
            }
        }
    }
}

/// What meets `p` among the predicate transitions out of `states`.
pub proof fn lemma_meets_in_predicates(
    a: NfaView,
    states: Seq<usize>,
    p: PredicateView,
    g: PredicateView,
    y: int,
)
    requires
        below(states, a.num()),
        0 <= y <= usize::MAX,
    ensures
        meets_in(a.predicates_of(states), p, g, y) <==> exists|q: PredicateView|
            is_meet(g, p, q) && #[trigger] a.predicate_from(states, q, y),
{
    let m = a.predicates_of(states);
    if meets_in(m, p, g, y) {
        let k = choose|k: int| 0 <= k < m.len() && (#[trigger] m[k]).1 == y && is_meet(g, p, m[k].0);
        assert(m[k] == (m[k].0, y as usize));
        assert(m.contains((m[k].0, y as usize)));
        lemma_predicates_of(a, states, m[k].0, y);
        assert(a.predicate_from(states, m[k].0, y));
    }
    if exists|q: PredicateView| is_meet(g, p, q) && #[trigger] a.predicate_from(states, q, y) {
        let q = choose|q: PredicateView| is_meet(g, p, q) && #[trigger] a.predicate_from(states, q, y);
        lemma_predicates_of(a, states, q, y);
        let k = choose|k: int| 0 <= k < m.len() && m[k] == (q, y as usize);
        assert(m[k].1 == y && is_meet(g, p, m[k].0));
    }
}

/// The entries of a map of transitions that was restricted to the characters of `part`:
/// the states to which the automaton can go on `c`, where `part` allows `c`.
pub proof fn lemma_filtered_entries(
    a: NfaView,
    states: Seq<usize>,
    t: Seq<(CharRange, Vec<usize>)>,
    f: Seq<(CharRange, Vec<usize>)>,
    part: PartView,
    c: u32,
    u: int,
)
    requires
        is_atoms(a.consuming_of(states), t),
        forall|k: int, d: u32|
            0 <= k < t.len() && #[trigger] t[k].0.has(d) ==> index_set(t[k].1@) == a.after(states, d),
        forall|d: u32, v: Seq<usize>|
            #![trigger lookup(f, d, v)]
            #![trigger lookup(t, d, v)]
            lookup(f, d, v) <==> (lookup(t, d, v) && part.has(d)),
    ensures
        (exists|g: CharRange| g.has(c) && #[trigger] entry_has(f, g, u)) <==> (part.has(c)
            && a.after(states, c).contains(u)),
{
    let m = a.consuming_of(states);
    if exists|g: CharRange| g.has(c) && #[trigger] entry_has(f, g, u) {
        let g = choose|g: CharRange| g.has(c) && #[trigger] entry_has(f, g, u);
        let (k, j) = choose|k: int, j: int|
            0 <= k < f.len() && 0 <= j < f[k].1@.len() && (#[trigger] f[k]).0 == g
                && #[trigger] f[k].1@[j] == u;
        assert(f[k].0.has(c) && f[k].1@ == f[k].1@);
        assert(lookup(f, c, f[k].1@));
        assert(lookup(t, c, f[k].1@));
        let k2 = choose|k2: int| 0 <= k2 < t.len() && (#[trigger] t[k2]).0.has(c) && t[k2].1@ == f[k].1@;
        assert(t[k2].0.has(c));
        assert(index_set(t[k2].1@) == a.after(states, c));
        assert(index_set(f[k].1@).contains(u));
    }
    if part.has(c) && a.after(states, c).contains(u) {
        let o = choose|o: int| a.step_set(states, c).contains(o) && #[trigger] reaches(a.rel(false), o, u);
        assert(maps_to(m, c, o as usize));
        assert(keys_have(t, c));
        let k2 = choose|k2: int| 0 <= k2 < t.len() && (#[trigger] t[k2]).0.has(c);
        assert(t[k2].0.has(c));
        assert(index_set(t[k2].1@) == a.after(states, c));
        assert(lookup(t, c, t[k2].1@));
        assert(lookup(f, c, t[k2].1@));
        let k = choose|k: int| 0 <= k < f.len() && (#[trigger] f[k]).0.has(c) && f[k].1@ == t[k2].1@;
        assert(index_set(f[k].1@).contains(u));
        let j = choose|j: int| 0 <= j < f[k].1@.len() && #[trigger] f[k].1@[j] == u;
        assert(f[k].0 == f[k].0 && f[k].1@[j] == u);
        assert(entry_has(f, f[k].0, u));
    }
}

/// The sets of a restricted map of transitions are sets of the map.
pub proof fn lemma_filtered_below(
    t: Seq<(CharRange, Vec<usize>)>,
    f: Seq<(CharRange, Vec<usize>)>,
    n: int,
)
    requires
        keys_disjoint(f),
        forall|d: u32, v: Seq<usize>| #[trigger] lookup(f, d, v) ==> lookup(t, d, v),
        forall|k: int| 0 <= k < t.len() ==> below((#[trigger] t[k]).1@, n),
    ensures
        forall|k: int| 0 <= k < f.len() ==> below((#[trigger] f[k]).1@, n),
{
    assert forall|k: int| 0 <= k < f.len() implies below((#[trigger] f[k]).1@, n) by {
        let d = f[k].0.start;
        assert(f[k].0.has(d));
        assert(lookup(f, d, f[k].1@));
        let k2 = choose|k2: int| 0 <= k2 < t.len() && (#[trigger] t[k2]).0.has(d) && t[k2].1@ == f[k].1@;
        assert(below(t[k2].1@, n));
    }
}

/// Whether `ip` sends `c` to a state of `ins`.
pub open spec fn hits(ip: Seq<(CharRange, usize)>, ins: Seq<usize>, c: u32) -> bool {
    exists|k: int| 0 <= k < ip.len() && (#[trigger] ip[k]).0.has(c) && ins.contains(ip[k].1)
}

/// The predicate transitions once those into the new state are there: those of `a`, and a
/// transition from `x` into the new state under each predicate that meets `p` and that
/// leads from `x` into `ins`, as `r` mirrors it.
pub open spec fn split_mid(
    a: NfaView,
    r: NfaView,
    p: PredicateView,
    ins: Seq<usize>,
    x: int,
    g: PredicateView,
    y: int,
) -> bool {
    a.has_predicate(x, g, y) || (y == a.num() && exists|q: PredicateView|
        is_meet(g, p, q) && #[trigger] r.predicate_from(ins, q, x))
}

/// Whether one of those leads from a state of `outs` to `y` under `q`.
pub open spec fn split_mid_from(
    a: NfaView,
    r: NfaView,
    p: PredicateView,
    ins: Seq<usize>,
    outs: Seq<usize>,
    q: PredicateView,
    y: int,
) -> bool {
    exists|k: int| 0 <= k < outs.len() && split_mid(a, r, p, ins, (#[trigger] outs[k]) as int, q, y)
}

/// Whether `b` and `ip2` are `a` and `ip` with the predicate `p` split off into a new
/// state, where `ins` are the states from which ε-transitions reach the source of the
/// predicate, `outs` those that they reach from its target, and `r` mirrors `a`.
///
/// The new state accepts where `outs` accept and the look-ahead of `p` allows it. It is
/// entered on a character that the look-behind allows from where `ins` is entered on it,
/// and left on a character that the look-ahead allows to where `outs` is left on it. It is
/// initial at the beginning of the input if the look-behind allows that and a state of
/// `ins` is initial there, and behind a character that the look-behind allows if a state
/// of `ins` is initial anywhere or behind that character.
pub open spec fn is_split(
    a: NfaView,
    r: NfaView,
    ip: Seq<(CharRange, usize)>,
    p: PredicateView,
    ins: Seq<usize>,
    outs: Seq<usize>,
    b: NfaView,
    ip2: Seq<(CharRange, usize)>,
) -> bool {
    let n = a.num();
    &&& b.states.len() == n + 1
    &&& forall|s: int|
        0 <= s < n ==> (#[trigger] b.states[s]).accept == a.states[s].accept
            && b.states[s].dfa_accept == a.states[s].dfa_accept && b.states[s].transitions.eps
            == a.states[s].transitions.eps
    &&& b.states[n].transitions.eps.len() == 0
    &&& b.states[n].dfa_accept == DfaAccept::never_spec()
    &&& b.states[n].accept.wf()
    &&& b.states[n].accept.at_eoi == (p.ahead.at_boundary && a.accepts_at_eoi(outs))
    &&& forall|c: u32|
        #![trigger b.states[n].accept.has(c)]
        #![trigger a.accepts_before(outs, c)]
        b.states[n].accept.has(c) <==> (p.ahead.has(c) && a.accepts_before(outs, c))
    &&& b.init == a.init
    &&& b.init_after_char == a.init_after_char
    &&& b.init_at_start == if p.behind.at_boundary && share(ins, a.init_at_start) {
        a.init_at_start.push(n as usize)
    } else {
        a.init_at_start
    }
    &&& forall|c: u32, t: usize|
        #![trigger maps_to(ip2, c, t)]
        maps_to(ip2, c, t) <==> maps_to(ip, c, t) || (t == n && p.behind.has(c) && (share(
            ins,
            a.init,
        ) || hits(ip, ins, c)))
    &&& forall|u: int, c: u32, t: int|
        #![trigger b.moves(u, c, t)]
        b.moves(u, c, t) <==> a.moves(u, c, t) || (t == n && p.behind.has(c) && r.after(
            ins,
            c,
        ).contains(u)) || (u == n && p.ahead.has(c) && a.after(outs, c).contains(t))
    &&& forall|x: int, g: PredicateView, y: int|
        #![trigger b.has_predicate(x, g, y)]
        b.has_predicate(x, g, y) <==> if x == n {
            exists|q: PredicateView| is_meet(g, p, q) && #[trigger] split_mid_from(a, r, p, ins, outs, q, y)
        } else {
            split_mid(a, r, p, ins, x, g, y)
        }
}

impl Nfa {
    /// When a new state for the predicate `pred` accepts, where `states` are the states
    /// that ε-transitions reach from the target of the predicate.
    pub fn predicate_accept(&self, pred: &Predicate, states: &StateSet) -> (r: Accept)
        requires
            self.wf(),
            pred.wf(),
            below(states@, self@.num()),
        ensures
            r.wf(),
            r@.at_eoi == (pred@.ahead.at_boundary && self@.accepts_at_eoi(states@)),
            forall|c: u32|
                #![trigger r@.has(c)]
                #![trigger self@.accepts_before(states@, c)]
                r@.has(c) <==> (pred@.ahead.has(c) && self@.accepts_before(states@, c)),
    {
        let acc = self.accept(states);
        let r = pred.filter_accept(&acc);
        proof {
            assert forall|c: u32|
                #![trigger r@.has(c)]
                #![trigger self@.accepts_before(states@, c)]
                r@.has(c) <==> (pred@.ahead.has(c) && self@.accepts_before(states@, c)) by {
                assert(r@.has(c) <==> (acc@.has(c) && pred@.ahead.has(c)));
                assert(acc@.has(c) <==> self@.accepts_before(states@, c));
            }
        }
        r
    }
}

/// A mirror of an automaton mirrors every automaton with the same states.
pub proof fn lemma_mirror_same_states(r: NfaView, a: NfaView, b: NfaView)
    requires
        mirrors(r, a),
        b.states == a.states,
    ensures
        mirrors(r, b),
{
    assert forall|s: int, g: CharRange, t: int|
        #![trigger r.has_consuming(t, g, s)]
        #![trigger b.has_consuming(s, g, t)]
        r.has_consuming(t, g, s) <==> b.has_consuming(s, g, t) by {
        assert(a.has_consuming(s, g, t) == b.has_consuming(s, g, t));
    }
    assert forall|s: int, t: int|
        #![trigger r.eps_edge(t, s)]
        #![trigger b.eps_edge(s, t)]
        r.eps_edge(t, s) <==> b.eps_edge(s, t) by {
        assert(a.eps_edge(s, t) == b.eps_edge(s, t));
    }
    assert forall|s: int, p: PredicateView, t: int|
        #![trigger r.has_predicate(t, p, s)]
        #![trigger b.has_predicate(s, p, t)]
        r.has_predicate(t, p, s) <==> b.has_predicate(s, p, t) by {
        assert(a.has_predicate(s, p, t) == b.has_predicate(s, p, t));
    }
}

/// The consuming transitions of a split automaton, code point by code point.
pub proof fn lemma_split_moves(
    a: NfaView,
    r: NfaView,
    b: NfaView,
    rt: Seq<(CharRange, Vec<usize>)>,
    st: Seq<(CharRange, Vec<usize>)>,
    in_trans: Seq<(CharRange, Vec<usize>)>,
    out_trans: Seq<(CharRange, Vec<usize>)>,
    p: PredicateView,
    ins: Seq<usize>,
    outs: Seq<usize>,
)
    requires
        is_atoms(r.consuming_of(ins), rt),
        forall|k: int, d: u32|
            0 <= k < rt.len() && #[trigger] rt[k].0.has(d) ==> index_set(rt[k].1@) == r.after(ins, d),
        is_atoms(a.consuming_of(outs), st),
        forall|k: int, d: u32|
            0 <= k < st.len() && #[trigger] st[k].0.has(d) ==> index_set(st[k].1@) == a.after(outs, d),
        forall|d: u32, v: Seq<usize>|
            #![trigger lookup(in_trans, d, v)]
            #![trigger lookup(rt, d, v)]
            lookup(in_trans, d, v) <==> (lookup(rt, d, v) && p.behind.has(d)),
        forall|d: u32, v: Seq<usize>|
            #![trigger lookup(out_trans, d, v)]
            #![trigger lookup(st, d, v)]
            lookup(out_trans, d, v) <==> (lookup(st, d, v) && p.ahead.has(d)),
        forall|x: int, g: CharRange, y: int|
            #![trigger b.has_consuming(x, g, y)]
            b.has_consuming(x, g, y) <==> a.has_consuming(x, g, y) || (y == a.num() && entry_has(
                in_trans,
                g,
                x,
            )) || (x == a.num() && entry_has(out_trans, g, y)),
    ensures
        forall|u: int, c: u32, t: int|
            #![trigger b.moves(u, c, t)]
            b.moves(u, c, t) <==> a.moves(u, c, t) || (t == a.num() && p.behind.has(c) && r.after(
                ins,
                c,
            ).contains(u)) || (u == a.num() && p.ahead.has(c) && a.after(outs, c).contains(t)),
{
    let n = a.num();
    assert forall|u: int, c: u32, t: int|
        #![trigger b.moves(u, c, t)]
        b.moves(u, c, t) <==> a.moves(u, c, t) || (t == n && p.behind.has(c) && r.after(
            ins,
            c,
        ).contains(u)) || (u == n && p.ahead.has(c) && a.after(outs, c).contains(t)) by {
        lemma_filtered_entries(r, ins, rt, in_trans, p.behind, c, u);
        lemma_filtered_entries(a, outs, st, out_trans, p.ahead, c, t);
        if b.moves(u, c, t) {
            let g = choose|g: CharRange| g.has(c) && #[trigger] b.has_consuming(u, g, t);
            if a.has_consuming(u, g, t) {
                assert(a.moves(u, c, t));
            } else if t == n && entry_has(in_trans, g, u) {
            } else {
                assert(u == n && entry_has(out_trans, g, t));
            }
        }
        if a.moves(u, c, t) {
            let g = choose|g: CharRange| g.has(c) && #[trigger] a.has_consuming(u, g, t);
            assert(b.has_consuming(u, g, t));
        }
        if t == n && p.behind.has(c) && r.after(ins, c).contains(u) {
            let g = choose|g: CharRange| g.has(c) && #[trigger] entry_has(in_trans, g, u);
            assert(b.has_consuming(u, g, t));
        }
        if u == n && p.ahead.has(c) && a.after(outs, c).contains(t) {
            let g = choose|g: CharRange| g.has(c) && #[trigger] entry_has(out_trans, g, t);
            assert(b.has_consuming(u, g, t));
        }
    }
}

/// The predicate transitions of a split automaton.
pub proof fn lemma_split_predicates(
    a: NfaView,
    r: NfaView,
    r3: NfaView,
    a5: NfaView,
    b: NfaView,
    p: PredicateView,
    ins: Seq<usize>,
    outs: Seq<usize>,
)
    requires
        a.wf(),
        r.wf(),
        r.num() == a.num(),
        mirrors(r, a),
        below(ins, a.num()),
        below(outs, a.num()),
        r3.num() == a.num() + 1,
        a5.num() == a.num() + 1,
        forall|s: int, q: PredicateView, x: int|
            #![trigger r3.has_predicate(s, q, x)]
            r3.has_predicate(s, q, x) <==> r.has_predicate(s, q, x),
        forall|x: int, g: PredicateView, y: int|
            #![trigger a5.has_predicate(x, g, y)]
            a5.has_predicate(x, g, y) <==> a.has_predicate(x, g, y) || (y == a.num() && meets_in(
                r3.predicates_of(ins),
                p,
                g,
                x,
            )),
        forall|x: int, g: PredicateView, y: int|
            #![trigger b.has_predicate(x, g, y)]
            b.has_predicate(x, g, y) <==> a5.has_predicate(x, g, y) || (x == a.num() && meets_in(
                a5.predicates_of(outs),
                p,
                g,
                y,
            )),
    ensures
        forall|x: int, g: PredicateView, y: int|
            #![trigger b.has_predicate(x, g, y)]
            b.has_predicate(x, g, y) <==> if x == a.num() {
                exists|q: PredicateView|
                    is_meet(g, p, q) && #[trigger] split_mid_from(a, r, p, ins, outs, q, y)
            } else {
                split_mid(a, r, p, ins, x, g, y)
            },
{
    let n = a.num();
    assert forall|x: int, g: PredicateView, y: int|
        a5.has_predicate(x, g, y) <==> split_mid(a, r, p, ins, x, g, y) by {
        lemma_mid_predicates(a, r, r3, a5, p, ins, x, g, y);
    }
    assert forall|x: int, g: PredicateView, y: int|
        #![trigger b.has_predicate(x, g, y)]
        b.has_predicate(x, g, y) <==> if x == n {
            exists|q: PredicateView|
                is_meet(g, p, q) && #[trigger] split_mid_from(a, r, p, ins, outs, q, y)
        } else {
            split_mid(a, r, p, ins, x, g, y)
        } by {
        if x == n {
            assert(!a5.has_predicate(n, g, y)) by {
                lemma_mid_predicates(a, r, r3, a5, p, ins, n, g, y);
                if split_mid(a, r, p, ins, n, g, y) {
                    let q = choose|q: PredicateView|
                        is_meet(g, p, q) && #[trigger] r.predicate_from(ins, q, n);
                    let k = choose|k: int|
                        0 <= k < ins.len() && r.has_predicate((#[trigger] ins[k]) as int, q, n);
                    let ps = r.states[ins[k] as int].transitions.predicates;
                    let i = choose|i: int| 0 <= i < ps.len() && #[trigger] ps[i] == (q, n as usize);
                    assert(r.states[ins[k] as int].transitions.wf(r.num()));
                    assert(ps[i].1 < r.num());
                }
            }
            if 0 <= y <= usize::MAX {
                lemma_meets_in_predicates(a5, outs, p, g, y);
            } else {
                assert(!meets_in(a5.predicates_of(outs), p, g, y));
            }
            if meets_in(a5.predicates_of(outs), p, g, y) {
                let q = choose|q: PredicateView|
                    is_meet(g, p, q) && #[trigger] a5.predicate_from(outs, q, y);
                let k = choose|k: int|
                    0 <= k < outs.len() && a5.has_predicate((#[trigger] outs[k]) as int, q, y);
                assert(split_mid(a, r, p, ins, outs[k] as int, q, y));
                assert(split_mid_from(a, r, p, ins, outs, q, y));
            }
            if exists|q: PredicateView|
                is_meet(g, p, q) && #[trigger] split_mid_from(a, r, p, ins, outs, q, y) {
                let q = choose|q: PredicateView|
                    is_meet(g, p, q) && #[trigger] split_mid_from(a, r, p, ins, outs, q, y);
                let k = choose|k: int|
                    0 <= k < outs.len() && split_mid(a, r, p, ins, (#[trigger] outs[k]) as int, q, y);
                assert(a5.has_predicate(outs[k] as int, q, y));
                assert(a5.predicate_from(outs, q, y));
                assert(0 <= y <= usize::MAX);
            }
        }
    }
}

/// The predicate transitions between the two halves of a split.
pub proof fn lemma_mid_predicates(
    a: NfaView,
    r: NfaView,
    r3: NfaView,
    a5: NfaView,
    p: PredicateView,
    ins: Seq<usize>,
    x: int,
    g: PredicateView,
    y: int,
)
    requires
        below(ins, a.num()),
        r3.num() == a.num() + 1,
        forall|s: int, q: PredicateView, x: int|
            #![trigger r3.has_predicate(s, q, x)]
            r3.has_predicate(s, q, x) <==> r.has_predicate(s, q, x),
        forall|x: int, g: PredicateView, y: int|
            #![trigger a5.has_predicate(x, g, y)]
            a5.has_predicate(x, g, y) <==> a.has_predicate(x, g, y) || (y == a.num() && meets_in(
                r3.predicates_of(ins),
                p,
                g,
                x,
            )),
    ensures
        a5.has_predicate(x, g, y) <==> split_mid(a, r, p, ins, x, g, y),
{
    if 0 <= x <= usize::MAX {
        lemma_meets_in_predicates(r3, ins, p, g, x);
    } else {
        assert(!meets_in(r3.predicates_of(ins), p, g, x));
        assert forall|q: PredicateView| !r.predicate_from(ins, q, x) by {}
    }
    if meets_in(r3.predicates_of(ins), p, g, x) {
        let q = choose|q: PredicateView| is_meet(g, p, q) && #[trigger] r3.predicate_from(ins, q, x);
        let k = choose|k: int|
            0 <= k < ins.len() && r3.has_predicate((#[trigger] ins[k]) as int, q, x);
        assert(r.has_predicate(ins[k] as int, q, x));
        assert(r.predicate_from(ins, q, x));
    }
    if exists|q: PredicateView| is_meet(g, p, q) && #[trigger] r.predicate_from(ins, q, x) {
        let q = choose|q: PredicateView| is_meet(g, p, q) && #[trigger] r.predicate_from(ins, q, x);
        let k = choose|k: int|
            0 <= k < ins.len() && r.has_predicate((#[trigger] ins[k]) as int, q, x);
        assert(r3.has_predicate(ins[k] as int, q, x));
        assert(r3.predicate_from(ins, q, x));
    }
}

/// Whether `b` is `a` grown: it has the states of `a` and maybe more, it left the acceptance
/// and the ε-transitions of the states of `a` alone, its further states have no
/// ε-transitions, and its initial states are those of `a`, with maybe more at the
/// beginning of the input.
pub open spec fn grown(a: NfaView, b: NfaView) -> bool {
    &&& a.states.len() <= b.states.len()
    &&& forall|s: int|
        0 <= s < a.states.len() ==> (#[trigger] b.states[s]).accept == a.states[s].accept
            && b.states[s].dfa_accept == a.states[s].dfa_accept && b.states[s].transitions.eps
            == a.states[s].transitions.eps
    &&& forall|s: int|
        a.states.len() <= s < b.states.len() ==> (#[trigger] b.states[s]).transitions.eps.len() == 0
            && b.states[s].dfa_accept == DfaAccept::never_spec()
    &&& b.init == a.init
    &&& b.init_after_char == a.init_after_char
    &&& a.init_at_start.len() <= b.init_at_start.len()
    &&& b.init_at_start.take(a.init_at_start.len() as int) == a.init_at_start
}

/// Whether no state of `a` has a predicate transition.
pub open spec fn predicate_free(a: NfaView) -> bool {
    forall|s: int| 0 <= s < a.states.len() ==> (#[trigger] a.states[s]).transitions.predicates.len() == 0
}

/// Whether every state that `ip` names is below `n`.
pub open spec fn values_below(ip: Seq<(CharRange, usize)>, n: int) -> bool {
    forall|k: int| 0 <= k < ip.len() ==> (#[trigger] ip[k]).1 < n
}

/// The state list `a` without the predicate transitions of the state `idx`.
pub open spec fn without_predicates(a: NfaView, idx: int) -> NfaView {
    a.with_state(
        idx,
        a.states[idx].with_transitions(
            TransitionsView {
                consuming: a.states[idx].transitions.consuming,
                eps: a.states[idx].transitions.eps,
                predicates: Seq::empty(),
            },
        ),
    )
}

/// Whether `b`, `r2` and `ip2` are the automaton `a`, its mirror `r` and the conditions `ip`
/// with the predicate `p` split off that led from the state `idx` to the state `target`:
/// see `split_of` and `is_split`, with the states from which ε-transitions reach `idx` as
/// `ins` and those that they reach from `target` as `outs`, both in increasing order.
pub open spec fn is_split_of(
    a: NfaView,
    r: NfaView,
    ip: Seq<(CharRange, usize)>,
    idx: int,
    p: PredicateView,
    target: int,
    b: NfaView,
    r2: NfaView,
    ip2: Seq<(CharRange, usize)>,
) -> bool {
    exists|ins: Seq<usize>, outs: Seq<usize>|
        sorted(ins) && sorted(outs) && index_set(ins) == r.eps_closure(seq![idx as usize])
            && index_set(outs) == a.eps_closure(seq![target as usize]) && #[trigger] is_split_exactly(
            a,
            r,
            ip,
            p,
            ins,
            outs,
            b,
            r2,
            ip2,
        ) && is_split(a, r, ip, p, ins, outs, b, ip2)
}

/// Whether `b`, `r2` and `ip2` are `a`, `r` and `ip` with each predicate of `preds` split
/// off, one after the other in the order of `preds`, and nothing else done: they all led
/// from the state `idx`, each to the state that stands beside it.
pub open spec fn splits_all(
    a: NfaView,
    r: NfaView,
    ip: Seq<(CharRange, usize)>,
    idx: int,
    preds: Seq<(PredicateView, usize)>,
    b: NfaView,
    r2: NfaView,
    ip2: Seq<(CharRange, usize)>,
) -> bool
    decreases preds.len(),
{
    if preds.len() == 0 {
        b == a && r2 == r && ip2 == ip
    } else {
        exists|m: NfaView, mr: NfaView, mp: Seq<(CharRange, usize)>|
            splits_all(a, r, ip, idx, preds.drop_last(), m, mr, mp) && #[trigger] is_split_of(
                m,
                mr,
                mp,
                idx,
                preds.last().0,
                preds.last().1 as int,
                b,
                r2,
                ip2,
            )
    }
}

/// Each predicate that is split off adds one state.
pub proof fn lemma_splits_all_count(
    a: NfaView,
    r: NfaView,
    ip: Seq<(CharRange, usize)>,
    idx: int,
    preds: Seq<(PredicateView, usize)>,
    b: NfaView,
    r2: NfaView,
    ip2: Seq<(CharRange, usize)>,
)
    requires
        splits_all(a, r, ip, idx, preds, b, r2, ip2),
    ensures
        b.num() == a.num() + preds.len(),
    decreases preds.len(),
{
    if preds.len() > 0 {
        let (m, mr, mp) = choose|m: NfaView, mr: NfaView, mp: Seq<(CharRange, usize)>|
            splits_all(a, r, ip, idx, preds.drop_last(), m, mr, mp) && #[trigger] is_split_of(
                m,
                mr,
                mp,
                idx,
                preds.last().0,
                preds.last().1 as int,
                b,
                r2,
                ip2,
            );
        lemma_splits_all_count(a, r, ip, idx, preds.drop_last(), m, mr, mp);
    }
}

/// Whether `b`, `r2` and `ip2` are `a`, `r` and `ip` with the state `idx` dealt with: it
/// has lost its predicate transitions, the mirror has lost their mirror images, and each
/// of them, in their order, is split off into a new state.
pub open spec fn is_stage(
    a: NfaView,
    r: NfaView,
    ip: Seq<(CharRange, usize)>,
    idx: int,
    b: NfaView,
    r2: NfaView,
    ip2: Seq<(CharRange, usize)>,
) -> bool {
    0 <= idx < a.num() && splits_all(
        without_predicates(a, idx),
        r.without_mirrored(a.states[idx].transitions.predicates, idx as usize),
        ip,
        idx,
        a.states[idx].transitions.predicates,
        b,
        r2,
        ip2,
    )
}

/// Whether `b`, `r2` and `ip2` are `a`, `r` and `ip` with the states below `k` dealt with,
/// in the order of their indices: see `is_stage`.
pub open spec fn round_upto(
    a: NfaView,
    r: NfaView,
    ip: Seq<(CharRange, usize)>,
    k: int,
    b: NfaView,
    r2: NfaView,
    ip2: Seq<(CharRange, usize)>,
) -> bool
    decreases k,
{
    if k <= 0 {
        b == a && r2 == r && ip2 == ip
    } else {
        exists|m: NfaView, mr: NfaView, mp: Seq<(CharRange, usize)>|
            round_upto(a, r, ip, k - 1, m, mr, mp) && #[trigger] is_stage(
                m,
                mr,
                mp,
                k - 1,
                b,
                r2,
                ip2,
            )
    }
}

/// Whether `b` and `ip2` are `a` and `ip` after one round: beside the automaton reversed,
/// every state that `a` has is dealt with once, in the order of the indices. The states
/// that the round adds are left to the next.
pub open spec fn is_round(
    a: NfaView,
    ip: Seq<(CharRange, usize)>,
    b: NfaView,
    ip2: Seq<(CharRange, usize)>,
) -> bool {
    exists|r2: NfaView| #[trigger] round_upto(a, a.reversed_spec(), ip, a.num(), b, r2, ip2)
}

/// Whether `rounds` rounds lead from `a` and `ip` to `b` and `ip2`, each of which has added
/// a state.
pub open spec fn rounds_upto(
    a: NfaView,
    ip: Seq<(CharRange, usize)>,
    rounds: nat,
    b: NfaView,
    ip2: Seq<(CharRange, usize)>,
) -> bool
    decreases rounds,
{
    if rounds == 0 {
        b == a && ip2 == ip
    } else {
        exists|m: NfaView, mp: Seq<(CharRange, usize)>|
            rounds_upto(a, ip, (rounds - 1) as nat, m, mp) && m.num() < b.num() && #[trigger] is_round(
                m,
                mp,
                b,
                ip2,
            )
    }
}

/// A round leaves an automaton without predicate transitions as it is.
pub proof fn lemma_round_predicate_free(
    a: NfaView,
    r: NfaView,
    ip: Seq<(CharRange, usize)>,
    k: int,
    b: NfaView,
    r2: NfaView,
    ip2: Seq<(CharRange, usize)>,
)
    requires
        predicate_free(a),
        k <= a.num(),
        round_upto(a, r, ip, k, b, r2, ip2),
    ensures
        b == a,
        r2 == r,
        ip2 == ip,
    decreases k,
{
    if k > 0 {
        let (m, mr, mp) = choose|m: NfaView, mr: NfaView, mp: Seq<(CharRange, usize)>|
            round_upto(a, r, ip, k - 1, m, mr, mp) && #[trigger] is_stage(
                m,
                mr,
                mp,
                k - 1,
                b,
                r2,
                ip2,
            );
        lemma_round_predicate_free(a, r, ip, k - 1, m, mr, mp);
        let st = a.states[k - 1];
        assert(st.transitions.predicates =~= Seq::empty());
        assert(without_predicates(a, k - 1).states =~= a.states);
    }
}

/// The removal leaves an automaton without predicate transitions as it is.
pub proof fn lemma_removes_predicate_free(
    a: NfaView,
    ip: Seq<(CharRange, usize)>,
    b: NfaView,
    ip2: Seq<(CharRange, usize)>,
)
    requires
        predicate_free(a),
        removes(a, ip, b, ip2),
    ensures
        b == a,
        ip2 == ip,
{
    let rounds = choose|rounds: nat| #[trigger] rounds_upto(a, ip, rounds, b, ip2);
    lemma_rounds_predicate_free(a, ip, rounds, b, ip2);
}

/// Rounds that each add a state do not begin at an automaton without predicate
/// transitions.
pub proof fn lemma_rounds_predicate_free(
    a: NfaView,
    ip: Seq<(CharRange, usize)>,
    rounds: nat,
    b: NfaView,
    ip2: Seq<(CharRange, usize)>,
)
    requires
        predicate_free(a),
        rounds_upto(a, ip, rounds, b, ip2),
    ensures
        b == a,
        ip2 == ip,
    decreases rounds,
{
    if rounds > 0 {
        let (m, mp) = choose|m: NfaView, mp: Seq<(CharRange, usize)>|
            rounds_upto(a, ip, (rounds - 1) as nat, m, mp) && m.num() < b.num() && #[trigger] is_round(
                m,
                mp,
                b,
                ip2,
            );
        lemma_rounds_predicate_free(a, ip, (rounds - 1) as nat, m, mp);
        let r2 = choose|r2: NfaView|
            #[trigger] round_upto(m, m.reversed_spec(), mp, m.num(), b, r2, ip2);
        lemma_round_predicate_free(m, m.reversed_spec(), mp, m.num(), b, r2, ip2);
    }
}

/// Whether the removal leads from `a` and `ip` to `b` and `ip2`: round after round, as long
/// as a round adds a state, until no predicate transition is left.
pub open spec fn removes(
    a: NfaView,
    ip: Seq<(CharRange, usize)>,
    b: NfaView,
    ip2: Seq<(CharRange, usize)>,
) -> bool {
    predicate_free(b) && exists|rounds: nat| #[trigger] rounds_upto(a, ip, rounds, b, ip2)
}

/// Whether `acc` says when a new state for the predicate `p` accepts, where `outs` are the
/// states that ε-transitions reach from the target of the predicate: where one of `outs`
/// accepts and the look-ahead of `p` allows it.
pub open spec fn is_predicate_accept(a: NfaView, p: PredicateView, outs: Seq<usize>, acc: AcceptView) -> bool {
    &&& acc.wf()
    &&& acc.at_eoi == (p.ahead.at_boundary && a.accepts_at_eoi(outs))
    &&& forall|c: u32|
        #![trigger acc.has(c)]
        #![trigger a.accepts_before(outs, c)]
        acc.has(c) <==> (p.ahead.has(c) && a.accepts_before(outs, c))
}

/// What a split makes of the automaton `a`, its mirror `r` and the conditions `ip` behind
/// a character, step by step. `rt` lists what leads into `ins`, `st` what leads out of
/// `outs`, and `acc` says when the new state accepts.
///
/// The new state is one more state of both automata. It is initial at the beginning of
/// the input where the look-behind allows that and a state of `ins` is. It is initial
/// behind the pieces, within the look-behind, of the ranges behind which a state of `ins`
/// is, and of the range of all code points where a state of `ins` is initial anywhere.
/// Then come the transitions into it, the predicates into it, the transitions out of it
/// and the predicates out of it, each with its mirror image.
pub open spec fn split_of(
    a: NfaView,
    r: NfaView,
    ip: Seq<(CharRange, usize)>,
    p: PredicateView,
    ins: Seq<usize>,
    outs: Seq<usize>,
    rt: Seq<(CharRange, Seq<usize>)>,
    st: Seq<(CharRange, Seq<usize>)>,
    acc: AcceptView,
) -> (NfaView, NfaView, Seq<(CharRange, usize)>) {
    let n = a.num() as usize;
    let a1 = a.push_state(StateView::fresh(acc));
    let r1 = r.push_state(StateView::fresh(AcceptView::never()));
    let a2 = if p.behind.at_boundary && share(ins, a.init_at_start) {
        a1.with_init_at_start(a.init_at_start.push(n))
    } else {
        a1
    };
    let seen = ip.filter(crate::char_map::value_in(ins)) + if share(ins, a.init) {
        seq![(CharRange { start: 0, end: u32::MAX }, 0usize)]
    } else {
        Seq::empty()
    };
    let ip2 = ip + sent_to(clipped(seen, p.behind.chars), n);
    let in_trans = clipped(rt, p.behind.chars);
    let out_trans = clipped(st, p.ahead.chars);
    let a3 = a2.with_edges(n, in_trans, false);
    let r3 = r1.with_edges(n, in_trans, true);
    let in_preds = r3.predicates_of(ins);
    let a4 = a3.with_met(n, p, in_preds, false);
    let r4 = r3.with_met(n, p, in_preds, true);
    let a5 = a4.with_edges(n, out_trans, true);
    let r5 = r4.with_edges(n, out_trans, false);
    let out_preds = a5.predicates_of(outs);
    (a5.with_met(n, p, out_preds, true), r5.with_met(n, p, out_preds, false), ip2)
}

/// Whether `b`, `r2` and `ip2` are what a split makes of `a`, `r` and `ip`: see `split_of`.
pub open spec fn is_split_exactly(
    a: NfaView,
    r: NfaView,
    ip: Seq<(CharRange, usize)>,
    p: PredicateView,
    ins: Seq<usize>,
    outs: Seq<usize>,
    b: NfaView,
    r2: NfaView,
    ip2: Seq<(CharRange, usize)>,
) -> bool {
    exists|rt: Seq<(CharRange, Seq<usize>)>, st: Seq<(CharRange, Seq<usize>)>, acc: AcceptView|
        is_transitions(r, ins, rt) && is_transitions(a, outs, st) && is_predicate_accept(
            a,
            p,
            outs,
            acc,
        ) && (b, r2, ip2) == #[trigger] split_of(a, r, ip, p, ins, outs, rt, st, acc)
}

impl Nfa {
    /// Splits one predicate transition off into a new state. The transition itself is gone
    /// already; it led under `pred` from a state that ε-transitions reach from the states
    /// `in_states`, to a state from which they reach the states `out_states`. `reversed`
    /// mirrors the automaton, before the call and after it. `initial_preds` sends a
    /// character to the states in which a match may start behind it.
    pub fn split_predicate(
        &mut self,
        reversed: &mut Nfa,
        initial_preds: &mut CharMultiMap,
        pred: &Predicate,
        in_states: &StateSet,
        out_states: &StateSet,
    )
        requires
            old(self).wf(),
            old(reversed).wf(),
            mirrors(old(reversed)@, old(self)@),
            pred.wf(),
            below(in_states@, old(self)@.num()),
            below(out_states@, old(self)@.num()),
            values_below(old(initial_preds)@, old(self)@.num()),
        ensures
            final(self).wf(),
            final(reversed).wf(),
            mirrors(final(reversed)@, final(self)@),
            values_below(final(initial_preds)@, final(self)@.num()),
            is_split_exactly(
                old(self)@,
                old(reversed)@,
                old(initial_preds)@,
                pred@,
                in_states@,
                out_states@,
                final(self)@,
                final(reversed)@,
                final(initial_preds)@,
            ),
            is_split(
                old(self)@,
                old(reversed)@,
                old(initial_preds)@,
                pred@,
                in_states@,
                out_states@,
                final(self)@,
                final(initial_preds)@,
            ),
    {
        let n = self.states.len();
        let ghost a = self@;
        let ghost r = reversed@;
        let ghost ip = initial_preds@;
        let ghost p = pred@;
        let rt = reversed.transitions(in_states);
        let st = self.transitions(out_states);
        let (in_trans, out_trans) = pred.filter_transitions(&rt, &st);
        let acc = self.predicate_accept(pred, out_states);
        let ghost accv = acc@;
        let ghost rtv = sets_of(rt@);
        let ghost stv = sets_of(st@);
        let ghost want = split_of(a, r, ip, p, in_states@, out_states@, rtv, stv, accv);
        proof {
            assert(is_transitions(r, in_states@, rtv));
            assert(is_transitions(a, out_states@, stv));
            assert(is_predicate_accept(a, p, out_states@, accv));
        }
        proof {
            lemma_filtered_below(rt@, in_trans@, n as int);
            lemma_filtered_below(st@, out_trans@, n as int);
            lemma_mirror_push_state(r, a, StateView::fresh(AcceptView::never()), StateView::fresh(accv));
            lemma_push_state_edges(a, StateView::fresh(accv));
        }
        self.add_state(acc);
        reversed.add_state(Accept::never());
        assert(self.states.len() == n + 1);
        let ghost a1 = self@;
        let ghost r1 = reversed@;
        if pred.0.at_boundary && !crate::state_set::is_disjoint(in_states, &self.init_at_start) {
            self.init_at_start.push(n);
            proof {
                let b = self@;
                assert(b.init_after_char == a1.init_after_char);
                assert forall|i: int, j: int| 0 <= i < j < b.init_at_start.len() implies b.init_at_start[i]
                    <= b.init_at_start[j] by {
                    if j == b.init_at_start.len() - 1 {
                        assert(a1.init_at_start[i] < a1.num());
                    } else {
                        assert(a1.init_at_start[i] <= a1.init_at_start[j]);
                    }
                }
                assert forall|i: int| 0 <= i < b.init_at_start.len() implies (
                #[trigger] b.init_at_start[i]) < b.num() by {
                    if i < a1.init_at_start.len() {
                        assert(a1.init_at_start[i] < a1.num());
                    }
                }
                lemma_wf_same_states(a1, b);
            }
        }
        let ghost a2 = self@;
        proof {
            lemma_mirror_same_states(r1, a1, a2);
            assert(a1 == a.push_state(StateView::fresh(accv)));
            assert(r1 == r.push_state(StateView::fresh(AcceptView::never())));
            assert(a1.init_at_start == a.init_at_start);
            assert(a2 == if p.behind.at_boundary && share(in_states@, a.init_at_start) {
                a1.with_init_at_start(a.init_at_start.push(n))
            } else {
                a1
            });
        }
        let mut init_chars = initial_preds.filter_values(in_states);
        let ghost ic0 = init_chars@;
        let from_init = !crate::state_set::is_disjoint(in_states, &self.init);
        if from_init {
            init_chars.push(CharRange::full(), 0);
        }
        let ghost ic1 = init_chars@;
        let init_chars = init_chars.intersect(&pred.0.chars);
        let ghost ic2 = init_chars@;
        proof {
            assert(from_init == share(in_states@, a.init));
            let seen = ip.filter(crate::char_map::value_in(in_states@)) + if share(
                in_states@,
                a.init,
            ) {
                seq![(CharRange { start: 0, end: u32::MAX }, 0usize)]
            } else {
                Seq::empty()
            };
            assert(ic1 =~= seen);
            assert(ic2 == clipped(seen, p.behind.chars));
            assert(initial_preds@ =~= ip + sent_to(ic2.take(0), n));
        }
        let mut k: usize = 0;
        while k < init_chars.len()
            invariant
                k <= init_chars@.len(),
                ic2 == init_chars@,
                n < usize::MAX,
                initial_preds@ == ip + sent_to(ic2.take(k as int), n),
                values_below(initial_preds@, n as int + 1),
                forall|c: u32, t: usize|
                    #![trigger maps_to(initial_preds@, c, t)]
                    maps_to(initial_preds@, c, t) <==> maps_to(ip, c, t) || (t == n && keys_have(
                        ic2.take(k as int),
                        c,
                    )),
            decreases init_chars@.len() - k,
        {
            let e = init_chars.get(k);
            let ghost before = initial_preds@;
            initial_preds.push(e.0, n);
            proof {
                let t0 = ic2.take(k as int);
                let t1 = ic2.take(k as int + 1);
                assert(t1 =~= t0.push(e));
                assert(initial_preds@ =~= ip + sent_to(t1, n));
                assert forall|q: int| 0 <= q < initial_preds@.len() implies (
                #[trigger] initial_preds@[q]).1 < n + 1 by {
                    if q < before.len() {
                        assert(before[q].1 < n + 1);
                    }
                }
                assert forall|c: u32, t: usize|
                    #![trigger maps_to(initial_preds@, c, t)]
                    maps_to(initial_preds@, c, t) <==> maps_to(ip, c, t) || (t == n && keys_have(
                        t1,
                        c,
                    )) by {
                    lemma_maps_to_push(before, (e.0, n), c, t);
                    assert(maps_to(before, c, t) <==> maps_to(ip, c, t) || (t == n && keys_have(
                        t0,
                        c,
                    )));
                    if keys_have(t0, c) {
                        let q = choose|q: int| 0 <= q < t0.len() && (#[trigger] t0[q]).0.has(c);
                        assert(t1[q].0.has(c));
                    }
                    if e.0.has(c) {
                        assert(t1[k as int].0.has(c));
                    }
                    if keys_have(t1, c) {
                        let q = choose|q: int| 0 <= q < t1.len() && (#[trigger] t1[q]).0.has(c);
                        if q < k {
                            assert(t0[q].0.has(c));
                        }
                    }
                }
            }
            k += 1;
        }
        proof {
            assert(ic2.take(ic2.len() as int) =~= ic2);
            assert forall|c: u32, t: usize|
                #![trigger maps_to(initial_preds@, c, t)]
                maps_to(initial_preds@, c, t) <==> maps_to(ip, c, t) || (t == n && p.behind.has(c) && (
                share(in_states@, a.init) || hits(ip, in_states@, c))) by {
                lemma_init_chars(ip, in_states@, ic0, ic1, ic2, from_init, p.behind, c);
                assert(pred.0.chars.has(c) == p.behind.has(c));
                assert(from_init == share(in_states@, a.init));
            }
            assert forall|q: int| 0 <= q < in_trans@.len() implies below(
                (#[trigger] in_trans@[q]).1@,
                a2.num(),
            ) by {
                assert(below(in_trans@[q].1@, n as int));
            }
            assert forall|q: int| 0 <= q < out_trans@.len() implies below(
                (#[trigger] out_trans@[q]).1@,
                a2.num(),
            ) by {
                assert(below(out_trans@[q].1@, n as int));
            }
        }
        self.add_transitions_at(reversed, n, &in_trans, false);
        let ghost a3 = self@;
        let ghost r3 = reversed@;
        let in_preds = reversed.predicates(in_states);
        proof {
            lemma_predicates_of_wf(r3, in_states@);
            assert forall|q: int| 0 <= q < in_preds@.len() implies (#[trigger] in_preds@[q]).0.wf()
                && in_preds@[q].1 < a3.num() by {
                assert(predicates_view(in_preds@)[q] == (in_preds@[q].0@, in_preds@[q].1));
            }
        }
        self.add_predicates_at(reversed, n, pred, &in_preds, false);
        let ghost a4 = self@;
        proof {
            assert forall|q: int| 0 <= q < out_trans@.len() implies below(
                (#[trigger] out_trans@[q]).1@,
                a4.num(),
            ) by {
                assert(below(out_trans@[q].1@, n as int));
            }
        }
        self.add_transitions_at(reversed, n, &out_trans, true);
        let ghost a5 = self@;
        let out_preds = self.predicates(out_states);
        proof {
            lemma_predicates_of_wf(a5, out_states@);
            assert forall|q: int| 0 <= q < out_preds@.len() implies (#[trigger] out_preds@[q]).0.wf()
                && out_preds@[q].1 < a5.num() by {
                assert(predicates_view(out_preds@)[q] == (out_preds@[q].0@, out_preds@[q].1));
            }
        }
        self.add_predicates_at(reversed, n, pred, &out_preds, true);
        proof {
            assert(ic2.take(ic2.len() as int) =~= ic2);
            assert((self@, reversed@, initial_preds@) == want);
        }
        proof {
            let b = self@;
            assert forall|x: int, g: CharRange, y: int|
                #![trigger b.has_consuming(x, g, y)]
                b.has_consuming(x, g, y) <==> a.has_consuming(x, g, y) || (y == n && entry_has(
                    in_trans@,
                    g,
                    x,
                )) || (x == n && entry_has(out_trans@, g, y)) by {
                assert(b.consuming_set().contains((x, g, y)) == b.has_consuming(x, g, y));
                assert(a5.consuming_set().contains((x, g, y)) == a5.has_consuming(x, g, y));
                assert(a4.consuming_set().contains((x, g, y)) == a4.has_consuming(x, g, y));
                assert(a3.consuming_set().contains((x, g, y)) == a3.has_consuming(x, g, y));
                assert(a2.has_consuming(x, g, y) == a1.has_consuming(x, g, y));
                assert(a1.consuming_set().contains((x, g, y)) == a1.has_consuming(x, g, y));
                assert(a.consuming_set().contains((x, g, y)) == a.has_consuming(x, g, y));
            }
            lemma_split_moves(
                a,
                r,
                b,
                rt@,
                st@,
                in_trans@,
                out_trans@,
                p,
                in_states@,
                out_states@,
            );
            assert forall|x: int, g: PredicateView, y: int|
                #![trigger a3.has_predicate(x, g, y)]
                a3.has_predicate(x, g, y) <==> a.has_predicate(x, g, y) by {
                assert(a3.predicate_set().contains((x, g, y)) == a3.has_predicate(x, g, y));
                assert(a2.predicate_set().contains((x, g, y)) == a2.has_predicate(x, g, y));
                assert(a2.has_predicate(x, g, y) == a1.has_predicate(x, g, y));
                assert(a1.predicate_set().contains((x, g, y)) == a1.has_predicate(x, g, y));
                assert(a.predicate_set().contains((x, g, y)) == a.has_predicate(x, g, y));
            }
            assert forall|s: int, q: PredicateView, x: int|
                #![trigger r3.has_predicate(s, q, x)]
                r3.has_predicate(s, q, x) <==> r.has_predicate(s, q, x) by {
                assert(r3.has_predicate(s, q, x) <==> a3.has_predicate(x, q, s));
                assert(r.has_predicate(s, q, x) <==> a.has_predicate(x, q, s));
            }
            assert forall|x: int, g: PredicateView, y: int|
                #![trigger a5.has_predicate(x, g, y)]
                a5.has_predicate(x, g, y) <==> a.has_predicate(x, g, y) || (y == a.num() && meets_in(
                    r3.predicates_of(in_states@),
                    p,
                    g,
                    x,
                )) by {
                assert(a5.predicate_set().contains((x, g, y)) == a5.has_predicate(x, g, y));
                assert(a4.predicate_set().contains((x, g, y)) == a4.has_predicate(x, g, y));
            }
            lemma_split_predicates(a, r, r3, a5, b, p, in_states@, out_states@);
            assert forall|s: int| 0 <= s < n implies (#[trigger] b.states[s]).accept
                == a.states[s].accept && b.states[s].dfa_accept == a.states[s].dfa_accept
                && b.states[s].transitions.eps == a.states[s].transitions.eps by {
                assert(a5.states[s].accept == a4.states[s].accept);
                assert(a4.states[s].accept == a3.states[s].accept);
                assert(a3.states[s].accept == a2.states[s].accept);
                assert(a1.states[s] == a.states[s]);
            }
            assert(b.states[n as int].accept == accv) by {
                assert(a5.states[n as int].accept == a4.states[n as int].accept);
                assert(a4.states[n as int].accept == a3.states[n as int].accept);
                assert(a3.states[n as int].accept == a2.states[n as int].accept);
                assert(a1.states[n as int] == StateView::fresh(accv));
            }
            assert(b.states[n as int].transitions.eps.len() == 0 && b.states[n as int].dfa_accept
                == DfaAccept::never_spec()) by {
                assert(a5.states[n as int].dfa_accept == a4.states[n as int].dfa_accept);
                assert(a4.states[n as int].dfa_accept == a3.states[n as int].dfa_accept);
                assert(a3.states[n as int].dfa_accept == a2.states[n as int].dfa_accept);
                assert(a1.states[n as int] == StateView::fresh(accv));
            }
            assert(share(in_states@, a1.init_at_start) == share(in_states@, a.init_at_start));
        }
    }
}

/// What the characters are behind which the new state is initial.
pub proof fn lemma_init_chars(
    ip: Seq<(CharRange, usize)>,
    ins: Seq<usize>,
    ic0: Seq<(CharRange, usize)>,
    ic1: Seq<(CharRange, usize)>,
    ic2: Seq<(CharRange, usize)>,
    from_init: bool,
    part: PartView,
    c: u32,
)
    requires
        ic0 == ip.filter(crate::char_map::value_in(ins)),
        ic1 == if from_init {
            ic0.push((CharRange { start: 0, end: u32::MAX }, 0usize))
        } else {
            ic0
        },
        forall|d: u32, t: usize|
            #![trigger maps_to(ic2, d, t)]
            #![trigger maps_to(ic1, d, t)]
            maps_to(ic2, d, t) <==> (maps_to(ic1, d, t) && part.has(d)),
    ensures
        keys_have(ic2, c) <==> (part.has(c) && (from_init || hits(ip, ins, c))),
{
    let f = |e: (CharRange, usize)| ins.contains(e.1);
    assert(ic0 == ip.filter(f));
    if keys_have(ic2, c) {
        let k = choose|k: int| 0 <= k < ic2.len() && (#[trigger] ic2[k]).0.has(c);
        assert(maps_to(ic2, c, ic2[k].1));
        assert(maps_to(ic1, c, ic2[k].1));
        let j = choose|j: int|
            0 <= j < ic1.len() && (#[trigger] ic1[j]).0.has(c) && ic1[j].1 == ic2[k].1;
        if j < ic0.len() {
            assert(ic0[j] == ic1[j]);
            ip.lemma_filter_pred(f, j);
            assert(ic0.contains(ic0[j]));
            ip.lemma_filter_contains_rev(f, ic0[j]);
            assert(f(ic0[j]) && ip.contains(ic0[j]));
            let i = choose|i: int| 0 <= i < ip.len() && ip[i] == ic0[j];
            assert(ip[i].0.has(c) && ins.contains(ip[i].1));
        }
    }
    if part.has(c) && from_init {
        let j = ic0.len() as int;
        assert(ic1[j].0.has(c));
        assert(maps_to(ic1, c, 0usize));
        assert(maps_to(ic2, c, 0usize));
        let k = choose|k: int| 0 <= k < ic2.len() && (#[trigger] ic2[k]).0.has(c) && ic2[k].1 == 0usize;
        assert(ic2[k].0.has(c));
    }
    if part.has(c) && hits(ip, ins, c) {
        let i = choose|i: int| 0 <= i < ip.len() && (#[trigger] ip[i]).0.has(c) && ins.contains(ip[i].1);
        assert(f(ip[i]));
        ip.lemma_filter_contains(f, i);
        assert(ic0.contains(ip[i]));
        let j = choose|j: int| 0 <= j < ic0.len() && ic0[j] == ip[i];
        assert(ic1[j] == ip[i]);
        assert(ic1[j].0.has(c) && ic1[j].1 == ip[i].1);
        assert(maps_to(ic1, c, ip[i].1));
        assert(maps_to(ic2, c, ip[i].1));
        let k = choose|k: int| 0 <= k < ic2.len() && (#[trigger] ic2[k]).0.has(c) && ic2[k].1 == ip[i].1;
        assert(ic2[k].0.has(c));
    }
}

/// Growing is transitive.
pub proof fn lemma_grown_trans(a: NfaView, b: NfaView, c: NfaView)
    requires
        grown(a, b),
        grown(b, c),
    ensures
        grown(a, c),
{
    assert forall|s: int| 0 <= s < a.states.len() implies (#[trigger] c.states[s]).accept
        == a.states[s].accept && c.states[s].dfa_accept == a.states[s].dfa_accept
        && c.states[s].transitions.eps == a.states[s].transitions.eps by {
        assert(b.states[s].accept == a.states[s].accept);
    }
    assert forall|s: int| a.states.len() <= s < c.states.len() implies (
    #[trigger] c.states[s]).transitions.eps.len() == 0 && c.states[s].dfa_accept
        == DfaAccept::never_spec() by {
        if s < b.states.len() {
            assert(b.states[s].transitions.eps.len() == 0);
        }
    }
    assert(c.init_at_start.take(a.init_at_start.len() as int) =~= a.init_at_start) by {
        assert forall|i: int| 0 <= i < a.init_at_start.len() implies c.init_at_start[i]
            == a.init_at_start[i] by {
            assert(b.init_at_start.take(a.init_at_start.len() as int)[i] == a.init_at_start[i]);
            assert(c.init_at_start.take(b.init_at_start.len() as int)[i] == b.init_at_start[i]);
        }
    }
}

/// A split automaton is the automaton grown.
pub proof fn lemma_split_grown(
    a: NfaView,
    r: NfaView,
    ip: Seq<(CharRange, usize)>,
    p: PredicateView,
    ins: Seq<usize>,
    outs: Seq<usize>,
    b: NfaView,
    ip2: Seq<(CharRange, usize)>,
)
    requires
        is_split(a, r, ip, p, ins, outs, b, ip2),
    ensures
        grown(a, b),
        b.num() == a.num() + 1,
{
    assert(b.init_at_start.take(a.init_at_start.len() as int) =~= a.init_at_start);
}

/// Whether a predicate transition leads elsewhere than to `t`.
pub open spec fn not_to(t: usize) -> spec_fn((PredicateView, usize)) -> bool {
    |e: (PredicateView, usize)| e.1 != t
}

impl NfaView {
    /// The automaton without the predicate transitions that lead from `s` to `t`.
    pub open spec fn without_predicates_to(self, s: int, t: usize) -> NfaView {
        self.with_state(
            s,
            self.states[s].with_transitions(
                TransitionsView {
                    consuming: self.states[s].transitions.consuming,
                    eps: self.states[s].transitions.eps,
                    predicates: self.states[s].transitions.predicates.filter(not_to(t)),
                },
            ),
        )
    }

    /// The mirror without the mirror images of the predicate transitions `preds`, which
    /// led out of the state `idx`: they are taken from where each of `preds` led, one
    /// after the other.
    pub open spec fn without_mirrored(self, preds: Seq<(PredicateView, usize)>, idx: usize) -> NfaView
        decreases preds.len(),
    {
        if preds.len() == 0 {
            self
        } else {
            self.without_mirrored(preds.drop_last(), idx).without_predicates_to(
                preds.last().1 as int,
                idx,
            )
        }
    }
}

impl Nfa {
    /// Removes from the state `state` the predicate transitions that lead to `idx`.
    fn remove_predicates_to(&mut self, state: usize, idx: usize)
        requires
            old(self).wf(),
            state < old(self)@.num(),
        ensures
            final(self).wf(),
            final(self)@ == old(self)@.without_predicates_to(state as int, idx),
            same_frame(old(self)@, final(self)@),
            final(self)@.consuming_set() == old(self)@.consuming_set(),
            forall|x: int, g: PredicateView, y: int|
                #![trigger final(self)@.has_predicate(x, g, y)]
                final(self)@.has_predicate(x, g, y) <==> old(self)@.has_predicate(x, g, y) && !(x
                    == state && y == idx),
    {
        let ghost a = self@;
        let ghost pv = a.states[state as int].transitions.predicates;
        let mut kept: Vec<(Predicate, usize)> = Vec::new();
        let mut k: usize = 0;
        proof {
            assert(self@.states[state as int] == self.states@[state as int]@);
            assert(a.states[state as int].transitions.wf(a.num()));
            assert(pv.take(0) =~= Seq::empty());
            reveal(Seq::filter);
            assert(pv.take(0).filter(not_to(idx)) =~= Seq::empty());
            assert(predicates_view(kept@) =~= Seq::empty());
        }
        while k < self.states[state].transitions.predicates.len()
            invariant
                state < self.states@.len(),
                self@ == a,
                pv == a.states[state as int].transitions.predicates,
                pv == predicates_view(self.states@[state as int].transitions.predicates@),
                k <= pv.len(),
                forall|q: int|
                    0 <= q < pv.len() ==> (#[trigger] pv[q]).1 < a.num() && pv[q].0.wf(),
                forall|q: int|
                    0 <= q < kept@.len() ==> (#[trigger] predicates_view(kept@)[q]).1 < a.num()
                        && predicates_view(kept@)[q].0.wf() && predicates_view(kept@)[q].1 != idx,
                forall|g: PredicateView, y: usize|
                    #![trigger predicates_view(kept@).contains((g, y))]
                    predicates_view(kept@).contains((g, y)) <==> pv.take(k as int).contains((g, y))
                        && y != idx,
                predicates_view(kept@) == pv.take(k as int).filter(not_to(idx)),
            decreases pv.len() - k,
        {
            let t = self.states[state].transitions.predicates[k].1;
            let ghost before = predicates_view(kept@);
            let ghost e = pv[k as int];
            proof {
                assert(pv.take(k as int + 1) =~= pv.take(k as int).push(e));
                crate::char_map::lemma_filter_push(pv.take(k as int), e, not_to(idx));
            }
            if t != idx {
                let pr = self.states[state].transitions.predicates[k].0.clone();
                kept.push((pr, t));
                proof {
                    let after = predicates_view(kept@);
                    assert(after =~= before.push(e));
                    assert forall|q: int| 0 <= q < kept@.len() implies (#[trigger] after[q]).1
                        < a.num() && after[q].0.wf() && after[q].1 != idx by {
                        if q < before.len() {
                            assert(before[q].1 < a.num());
                        }
                    }
                    assert forall|g: PredicateView, y: usize|
                        #![trigger after.contains((g, y))]
                        after.contains((g, y)) <==> pv.take(k as int + 1).contains((g, y)) && y
                            != idx by {
                        lemma_push_contains(before, e, (g, y));
                        lemma_push_contains(pv.take(k as int), e, (g, y));
                        assert(before.contains((g, y)) <==> pv.take(k as int).contains((g, y)) && y
                            != idx);
                    }
                }
            } else {
                proof {
                    assert forall|g: PredicateView, y: usize|
                        #![trigger before.contains((g, y))]
                        before.contains((g, y)) <==> pv.take(k as int + 1).contains((g, y)) && y
                            != idx by {
                        lemma_push_contains(pv.take(k as int), e, (g, y));
                    }
                }
            }
            k += 1;
        }
        let ghost kv = predicates_view(kept@);
        self.states[state].transitions.predicates = kept;
        proof {
            assert(pv.take(pv.len() as int) =~= pv);
            let b = self@;
            let t = TransitionsView {
                consuming: a.states[state as int].transitions.consuming,
                eps: a.states[state as int].transitions.eps,
                predicates: kv,
            };
            assert(b.states =~= a.states.update(state as int, a.states[state as int].with_transitions(t)));
            assert(b == a.with_state(state as int, a.states[state as int].with_transitions(t)));
            assert(t.wf(a.num())) by {
                assert(a.states[state as int].transitions.wf(a.num()));
            }
            crate::nfa::lemma_wf_with_transitions(a, state as int, t);
            assert forall|e: (int, CharRange, int)| b.consuming_set().contains(e)
                <==> a.consuming_set().contains(e) by {
                if 0 <= e.0 < a.states.len() {
                    assert(b.states[e.0].transitions.consuming == a.states[e.0].transitions.consuming);
                }
            }
            assert(b.consuming_set() =~= a.consuming_set());
            assert forall|x: int, g: PredicateView, y: int|
                #![trigger b.has_predicate(x, g, y)]
                b.has_predicate(x, g, y) <==> a.has_predicate(x, g, y) && !(x == state && y == idx) by {
                if x == state {
                    if b.has_predicate(x, g, y) {
                        let i = choose|i: int| 0 <= i < kv.len() && #[trigger] kv[i] == (g, y as usize);
                        assert(kv.contains((g, y as usize)));
                        let j = choose|j: int| 0 <= j < pv.len() && pv[j] == (g, y as usize);
                        assert(pv[j] == (g, y as usize));
                    }
                    if a.has_predicate(x, g, y) && y != idx {
                        let j = choose|j: int| 0 <= j < pv.len() && #[trigger] pv[j] == (g, y as usize);
                        assert(pv.contains((g, y as usize)));
                        assert(kv.contains((g, y as usize)));
                        let i = choose|i: int| 0 <= i < kv.len() && kv[i] == (g, y as usize);
                        assert(kv[i] == (g, y as usize));
                    }
                } else if 0 <= x < a.states.len() {
                    assert(b.states[x] == a.states[x]);
                }
            }
        }
    }

    /// Takes the predicate transitions out of the state `idx`, and their mirror images out
    /// of `reversed`.
    fn take_predicates(&mut self, reversed: &mut Nfa, idx: usize) -> (preds: Vec<(Predicate, usize)>)
        requires
            old(self).wf(),
            old(reversed).wf(),
            mirrors(old(reversed)@, old(self)@),
            idx < old(self)@.num(),
        ensures
            final(self).wf(),
            final(reversed).wf(),
            mirrors(final(reversed)@, final(self)@),
            predicates_view(preds@) == old(self)@.states[idx as int].transitions.predicates,
            final(reversed)@ == old(reversed)@.without_mirrored(
                old(self)@.states[idx as int].transitions.predicates,
                idx,
            ),
            forall|k: int|
                0 <= k < preds@.len() ==> (#[trigger] preds@[k]).0.wf() && preds@[k].1 < old(
                    self,
                )@.num(),
            final(self)@ == old(self)@.with_state(
                idx as int,
                old(self)@.states[idx as int].with_transitions(
                    TransitionsView {
                        consuming: old(self)@.states[idx as int].transitions.consuming,
                        eps: old(self)@.states[idx as int].transitions.eps,
                        predicates: Seq::empty(),
                    },
                ),
            ),
    {
        let ghost a = self@;
        let ghost r = reversed@;
        let ghost pv = a.states[idx as int].transitions.predicates;
        proof {
            assert(self@.states[idx as int] == self.states@[idx as int]@);
            assert(a.states[idx as int].transitions.wf(a.num()));
        }
        let mut preds: Vec<(Predicate, usize)> = Vec::new();
        let mut k: usize = 0;
        assert(predicates_view(preds@) =~= pv.take(0));
        while k < self.states[idx].transitions.predicates.len()
            invariant
                idx < self.states@.len(),
                self@ == a,
                pv == predicates_view(self.states@[idx as int].transitions.predicates@),
                k <= pv.len(),
                predicates_view(preds@) == pv.take(k as int),
            decreases pv.len() - k,
        {
            let ghost before = predicates_view(preds@);
            let pr = self.states[idx].transitions.predicates[k].0.clone();
            let t = self.states[idx].transitions.predicates[k].1;
            preds.push((pr, t));
            proof {
                assert(predicates_view(preds@) =~= before.push(pv[k as int]));
                assert(pv.take(k as int + 1) =~= pv.take(k as int).push(pv[k as int]));
            }
            k += 1;
        }
        proof {
            assert(pv.take(pv.len() as int) =~= pv);
            assert forall|q: int| 0 <= q < preds@.len() implies (#[trigger] preds@[q]).0.wf()
                && preds@[q].1 < a.num() by {
                assert(pv[q] == (preds@[q].0@, preds@[q].1));
                assert(pv[q].1 < a.num() && pv[q].0.wf());
            }
        }
        self.states[idx].transitions.predicates.clear();
        let ghost t = TransitionsView {
            consuming: a.states[idx as int].transitions.consuming,
            eps: a.states[idx as int].transitions.eps,
            predicates: Seq::empty(),
        };
        let ghost b = self@;
        proof {
            assert(b.states[idx as int].transitions.predicates =~= Seq::empty());
            assert(b.states =~= a.states.update(idx as int, a.states[idx as int].with_transitions(t)));
            assert(b == a.with_state(idx as int, a.states[idx as int].with_transitions(t)));
            crate::nfa::lemma_wf_with_transitions(a, idx as int, t);
        }
        k = 0;
        proof {
            assert(pv.take(0) =~= Seq::empty());
        }
        while k < preds.len()
            invariant
                k <= preds@.len(),
                idx < a.num(),
                reversed.wf(),
                reversed@.num() == a.num(),
                mirrors(r, a),
                predicates_view(preds@) == pv,
                reversed@ == r.without_mirrored(pv.take(k as int), idx),
                forall|q: int| 0 <= q < preds@.len() ==> (#[trigger] preds@[q]).1 < a.num(),
                forall|x: int, g: CharRange, y: int|
                    #![trigger reversed@.has_consuming(x, g, y)]
                    reversed@.has_consuming(x, g, y) <==> r.has_consuming(x, g, y),
                forall|x: int, y: int|
                    #![trigger reversed@.eps_edge(x, y)]
                    reversed@.eps_edge(x, y) <==> r.eps_edge(x, y),
                forall|x: int, g: PredicateView, y: int|
                    #![trigger reversed@.has_predicate(x, g, y)]
                    reversed@.has_predicate(x, g, y) <==> r.has_predicate(x, g, y) && !(y == idx
                        && exists|q: int| 0 <= q < k && (#[trigger] pv[q]).1 == x),
            decreases preds@.len() - k,
        {
            let target = preds[k].1;
            let ghost r0 = reversed@;
            proof {
                assert(preds@[k as int].1 < a.num());
                assert(pv[k as int].1 == target);
            }
            reversed.remove_predicates_to(target, idx);
            proof {
                let next = pv.take(k as int + 1);
                assert(next.drop_last() =~= pv.take(k as int));
                assert(next.last() == pv[k as int]);
                assert(reversed@ == r.without_mirrored(next, idx));
            }
            proof {
                let r1 = reversed@;
                assert forall|x: int, g: CharRange, y: int|
                    #![trigger r1.has_consuming(x, g, y)]
                    r1.has_consuming(x, g, y) <==> r.has_consuming(x, g, y) by {
                    assert(r1.consuming_set().contains((x, g, y)) == r1.has_consuming(x, g, y));
                    assert(r0.consuming_set().contains((x, g, y)) == r0.has_consuming(x, g, y));
                }
                assert forall|x: int, y: int|
                    #![trigger r1.eps_edge(x, y)]
                    r1.eps_edge(x, y) <==> r.eps_edge(x, y) by {
                    if 0 <= x < r0.states.len() {
                        assert(r1.states[x].transitions.eps == r0.states[x].transitions.eps);
                    }
                    assert(r0.eps_edge(x, y) <==> r.eps_edge(x, y));
                }
                assert forall|x: int, g: PredicateView, y: int|
                    #![trigger r1.has_predicate(x, g, y)]
                    r1.has_predicate(x, g, y) <==> r.has_predicate(x, g, y) && !(y == idx
                        && exists|q: int| 0 <= q < k + 1 && (#[trigger] pv[q]).1 == x) by {
                    assert(r0.has_predicate(x, g, y) <==> r.has_predicate(x, g, y) && !(y == idx
                        && exists|q: int| 0 <= q < k && (#[trigger] pv[q]).1 == x));
                    if x == target {
                        assert(pv[k as int].1 == x);
                    }
                    if exists|q: int| 0 <= q < k + 1 && (#[trigger] pv[q]).1 == x {
                        let q = choose|q: int| 0 <= q < k + 1 && (#[trigger] pv[q]).1 == x;
                        if q < k {
                        }
                    }
                }
            }
            k += 1;
        }
        proof {
            let r1 = reversed@;
            assert forall|s: int, g: CharRange, u: int|
                #![trigger r1.has_consuming(u, g, s)]
                #![trigger b.has_consuming(s, g, u)]
                r1.has_consuming(u, g, s) <==> b.has_consuming(s, g, u) by {
                assert(r.has_consuming(u, g, s) <==> a.has_consuming(s, g, u));
                if 0 <= s < a.states.len() {
                    assert(b.states[s].transitions.consuming == a.states[s].transitions.consuming);
                }
            }
            assert forall|s: int, u: int|
                #![trigger r1.eps_edge(u, s)]
                #![trigger b.eps_edge(s, u)]
                r1.eps_edge(u, s) <==> b.eps_edge(s, u) by {
                assert(r.eps_edge(u, s) <==> a.eps_edge(s, u));
                if 0 <= s < a.states.len() {
                    assert(b.states[s].transitions.eps == a.states[s].transitions.eps);
                }
            }
            assert forall|s: int, g: PredicateView, u: int|
                #![trigger r1.has_predicate(u, g, s)]
                #![trigger b.has_predicate(s, g, u)]
                r1.has_predicate(u, g, s) <==> b.has_predicate(s, g, u) by {
                assert(r.has_predicate(u, g, s) <==> a.has_predicate(s, g, u));
                if s == idx {
                    assert(!b.has_predicate(s, g, u));
                    if a.has_predicate(s, g, u) {
                        let q = choose|q: int| 0 <= q < pv.len() && #[trigger] pv[q] == (g, u as usize);
                        assert(pv[q].1 == u);
                    }
                } else if 0 <= s < a.states.len() {
                    assert(b.states[s] == a.states[s]);
                }
            }
            assert(pv.take(pv.len() as int) =~= pv);
        }
        preds
    }

    /// One round of the removal. The states that the automaton has when the round begins
    /// are dealt with in the order of their indices: each loses its predicate transitions,
    /// and these are split off one after the other, each into a new state. The new states
    /// may have predicate transitions of their own, and may have brought some to the old
    /// ones: if the round has added a state, another is needed.
    pub fn remove_predicates_once(&mut self, initial_preds: &mut CharMultiMap) -> (changed: bool)
        requires
            old(self).wf(),
            values_below(old(initial_preds)@, old(self)@.num()),
        ensures
            final(self).wf(),
            values_below(final(initial_preds)@, final(self)@.num()),
            grown(old(self)@, final(self)@),
            is_round(old(self)@, old(initial_preds)@, final(self)@, final(initial_preds)@),
            changed == (final(self)@.num() > old(self)@.num()),
            !changed ==> final(self)@ == old(self)@ && final(initial_preds)@ == old(initial_preds)@
                && predicate_free(old(self)@),
    {
        let orig_len = self.states.len();
        let ghost a = self@;
        let ghost ip = initial_preds@;
        let mut reversed = self.reversed();
        let ghost r = reversed@;
        let mut idx: usize = 0;
        proof {
            assert(a.init_at_start.take(a.init_at_start.len() as int) =~= a.init_at_start);
        }
        while idx < orig_len
            invariant
                idx <= orig_len,
                orig_len == a.num(),
                orig_len <= self@.num(),
                self.wf(),
                reversed.wf(),
                mirrors(reversed@, self@),
                values_below(initial_preds@, self@.num()),
                grown(a, self@),
                self@.num() == orig_len ==> self@ == a && initial_preds@ == ip && forall|s: int|
                    0 <= s < idx ==> (#[trigger] a.states[s]).transitions.predicates.len() == 0,
                r == a.reversed_spec(),
                round_upto(a, r, ip, idx as int, self@, reversed@, initial_preds@),
            decreases orig_len - idx,
        {
            let ghost before = self@;
            let ghost r_before = reversed@;
            let ghost ip_before = initial_preds@;
            let preds = self.take_predicates(&mut reversed, idx);
            let ghost taken = self@;
            let ghost taken_r = reversed@;
            let ghost pv = predicates_view(preds@);
            proof {
                assert(taken == without_predicates(before, idx as int));
                assert(taken_r == r_before.without_mirrored(pv, idx));
                assert(pv.take(0) =~= Seq::empty());
                assert(splits_all(
                    taken,
                    taken_r,
                    ip_before,
                    idx as int,
                    pv.take(0),
                    self@,
                    reversed@,
                    initial_preds@,
                ));
            }
            proof {
                let b = self@;
                assert(grown(before, b)) by {
                    assert(b.init_at_start.take(before.init_at_start.len() as int)
                        =~= before.init_at_start);
                }
                lemma_grown_trans(a, before, b);
                if preds@.len() == 0 && before.num() == orig_len {
                    assert(before.states[idx as int].transitions.predicates =~= Seq::empty());
                    assert(b.states =~= before.states);
                    assert(b == before);
                }
            }
            let mut k: usize = 0;
            while k < preds.len()
                invariant
                    k <= preds@.len(),
                    idx < orig_len,
                    orig_len == a.num(),
                    orig_len <= self@.num(),
                    self.wf(),
                    reversed.wf(),
                    mirrors(reversed@, self@),
                    values_below(initial_preds@, self@.num()),
                    grown(a, self@),
                    forall|q: int|
                        0 <= q < preds@.len() ==> (#[trigger] preds@[q]).0.wf() && preds@[q].1
                            < self@.num(),
                    k > 0 ==> self@.num() > orig_len,
                    before.num() >= orig_len,
                    self@.num() >= before.num(),
                    before.num() == orig_len ==> before == a && forall|s: int|
                        0 <= s < idx ==> (#[trigger] a.states[s]).transitions.predicates.len() == 0,
                    predicates_view(preds@) == before.states[idx as int].transitions.predicates,
                    preds@.len() == 0 && before.num() == orig_len ==> self@ == before
                        && initial_preds@ == ip,
                    pv == predicates_view(preds@),
                    splits_all(
                        taken,
                        taken_r,
                        ip_before,
                        idx as int,
                        pv.take(k as int),
                        self@,
                        reversed@,
                        initial_preds@,
                    ),
                decreases preds@.len() - k,
            {
                let target = preds[k].1;
                proof {
                    assert(preds@[k as int].0.wf());
                    assert(reversed@.num() == self@.num());
                }
                {
                    let in_states = reversed.eps_closure_single(idx);
                    let out_states = self.eps_closure_single(target);
                    let ghost s0 = self@;
                    let ghost r0 = reversed@;
                    let ghost ip0 = initial_preds@;
                    self.split_predicate(
                        &mut reversed,
                        initial_preds,
                        &preds[k].0,
                        &in_states,
                        &out_states,
                    );
                    proof {
                        lemma_split_grown(
                            s0,
                            r0,
                            ip0,
                            preds@[k as int].0@,
                            in_states@,
                            out_states@,
                            self@,
                            initial_preds@,
                        );
                        lemma_grown_trans(a, s0, self@);
                        assert(pv[k as int] == (preds@[k as int].0@, target));
                        assert(is_split_exactly(
                            s0,
                            r0,
                            ip0,
                            pv[k as int].0,
                            in_states@,
                            out_states@,
                            self@,
                            reversed@,
                            initial_preds@,
                        ));
                        assert(is_split_of(
                            s0,
                            r0,
                            ip0,
                            idx as int,
                            pv[k as int].0,
                            target as int,
                            self@,
                            reversed@,
                            initial_preds@,
                        ));
                        let next = pv.take(k as int + 1);
                        assert(pv.len() == preds@.len());
                        assert(next.len() == k + 1);
                        assert(next.drop_last() =~= pv.take(k as int));
                        assert(next.last() == pv[k as int]);
                        assert(splits_all(
                            taken,
                            taken_r,
                            ip_before,
                            idx as int,
                            next.drop_last(),
                            s0,
                            r0,
                            ip0,
                        ));
                        assert(is_split_of(
                            s0,
                            r0,
                            ip0,
                            idx as int,
                            next.last().0,
                            next.last().1 as int,
                            self@,
                            reversed@,
                            initial_preds@,
                        ));
                        assert(splits_all(
                            taken,
                            taken_r,
                            ip_before,
                            idx as int,
                            next,
                            self@,
                            reversed@,
                            initial_preds@,
                        ));
                    }
                    k += 1;
                }
            }
            proof {
                if self@.num() == orig_len {
                    assert(preds@.len() == 0);
                    assert(before.num() == orig_len);
                    assert(a.states[idx as int].transitions.predicates.len() == 0);
                }
                assert(pv.take(pv.len() as int) =~= pv);
                let k1 = idx as int + 1;
                assert(round_upto(a, r, ip, k1 - 1, before, r_before, ip_before));
                assert(is_stage(
                    before,
                    r_before,
                    ip_before,
                    k1 - 1,
                    self@,
                    reversed@,
                    initial_preds@,
                ));
                assert(round_upto(a, r, ip, k1, self@, reversed@, initial_preds@));
            }
            idx += 1;
        }
        let changed = self.states.len() > orig_len;
        proof {
            if !changed {
                assert(predicate_free(a));
            }
        }
        changed
    }
}

/// A new state for a predicate accepts in one way only.
pub proof fn lemma_predicate_accept_unique(
    a: NfaView,
    p: PredicateView,
    outs: Seq<usize>,
    acc: AcceptView,
    other: AcceptView,
)
    requires
        is_predicate_accept(a, p, outs, acc),
        is_predicate_accept(a, p, outs, other),
    ensures
        acc == other,
{
    assert forall|c: u32| ranges_have(acc.at_char, c) <==> ranges_have(other.at_char, c) by {
        assert(acc.has(c) <==> (p.ahead.has(c) && a.accepts_before(outs, c)));
        assert(other.has(c) <==> (p.ahead.has(c) && a.accepts_before(outs, c)));
    }
    lemma_normalized_unique(acc.at_char, other.at_char);
}

/// A split has one result.
pub proof fn lemma_split_unique(
    a: NfaView,
    r: NfaView,
    ip: Seq<(CharRange, usize)>,
    p: PredicateView,
    ins: Seq<usize>,
    outs: Seq<usize>,
    x: (NfaView, NfaView, Seq<(CharRange, usize)>),
    y: (NfaView, NfaView, Seq<(CharRange, usize)>),
)
    requires
        is_split_exactly(a, r, ip, p, ins, outs, x.0, x.1, x.2),
        is_split_exactly(a, r, ip, p, ins, outs, y.0, y.1, y.2),
    ensures
        x == y,
{
    let (rt, st, acc) = choose|
        rt: Seq<(CharRange, Seq<usize>)>,
        st: Seq<(CharRange, Seq<usize>)>,
        acc: AcceptView,
    |
        is_transitions(r, ins, rt) && is_transitions(a, outs, st) && is_predicate_accept(
            a,
            p,
            outs,
            acc,
        ) && (x.0, x.1, x.2) == #[trigger] split_of(a, r, ip, p, ins, outs, rt, st, acc);
    let (rt2, st2, acc2) = choose|
        rt: Seq<(CharRange, Seq<usize>)>,
        st: Seq<(CharRange, Seq<usize>)>,
        acc: AcceptView,
    |
        is_transitions(r, ins, rt) && is_transitions(a, outs, st) && is_predicate_accept(
            a,
            p,
            outs,
            acc,
        ) && (y.0, y.1, y.2) == #[trigger] split_of(a, r, ip, p, ins, outs, rt, st, acc);
    crate::moves::lemma_transitions_unique(r, ins, rt, rt2);
    crate::moves::lemma_transitions_unique(a, outs, st, st2);
    lemma_predicate_accept_unique(a, p, outs, acc, acc2);
}

/// The split of one predicate transition has one result.
pub proof fn lemma_split_of_unique(
    a: NfaView,
    r: NfaView,
    ip: Seq<(CharRange, usize)>,
    idx: int,
    p: PredicateView,
    target: int,
    x: (NfaView, NfaView, Seq<(CharRange, usize)>),
    y: (NfaView, NfaView, Seq<(CharRange, usize)>),
)
    requires
        is_split_of(a, r, ip, idx, p, target, x.0, x.1, x.2),
        is_split_of(a, r, ip, idx, p, target, y.0, y.1, y.2),
    ensures
        x == y,
{
    let (ins, outs) = choose|ins: Seq<usize>, outs: Seq<usize>|
        sorted(ins) && sorted(outs) && index_set(ins) == r.eps_closure(seq![idx as usize])
            && index_set(outs) == a.eps_closure(seq![target as usize]) && #[trigger] is_split_exactly(
            a,
            r,
            ip,
            p,
            ins,
            outs,
            x.0,
            x.1,
            x.2,
        ) && is_split(a, r, ip, p, ins, outs, x.0, x.2);
    let (ins2, outs2) = choose|ins: Seq<usize>, outs: Seq<usize>|
        sorted(ins) && sorted(outs) && index_set(ins) == r.eps_closure(seq![idx as usize])
            && index_set(outs) == a.eps_closure(seq![target as usize]) && #[trigger] is_split_exactly(
            a,
            r,
            ip,
            p,
            ins,
            outs,
            y.0,
            y.1,
            y.2,
        ) && is_split(a, r, ip, p, ins, outs, y.0, y.2);
    assert forall|s: usize| ins.contains(s) <==> ins2.contains(s) by {
        lemma_index_set(ins, s);
        lemma_index_set(ins2, s);
    }
    assert forall|s: usize| outs.contains(s) <==> outs2.contains(s) by {
        lemma_index_set(outs, s);
        lemma_index_set(outs2, s);
    }
    crate::state_set::lemma_sorted_unique(ins, ins2);
    crate::state_set::lemma_sorted_unique(outs, outs2);
    lemma_split_unique(a, r, ip, p, ins, outs, x, y);
}

/// The splits of the predicate transitions of a state have one result.
pub proof fn lemma_splits_all_unique(
    a: NfaView,
    r: NfaView,
    ip: Seq<(CharRange, usize)>,
    idx: int,
    preds: Seq<(PredicateView, usize)>,
    x: (NfaView, NfaView, Seq<(CharRange, usize)>),
    y: (NfaView, NfaView, Seq<(CharRange, usize)>),
)
    requires
        splits_all(a, r, ip, idx, preds, x.0, x.1, x.2),
        splits_all(a, r, ip, idx, preds, y.0, y.1, y.2),
    ensures
        x == y,
    decreases preds.len(),
{
    if preds.len() > 0 {
        let (m, mr, mp) = choose|m: NfaView, mr: NfaView, mp: Seq<(CharRange, usize)>|
            splits_all(a, r, ip, idx, preds.drop_last(), m, mr, mp) && #[trigger] is_split_of(
                m,
                mr,
                mp,
                idx,
                preds.last().0,
                preds.last().1 as int,
                x.0,
                x.1,
                x.2,
            );
        let (m2, mr2, mp2) = choose|m: NfaView, mr: NfaView, mp: Seq<(CharRange, usize)>|
            splits_all(a, r, ip, idx, preds.drop_last(), m, mr, mp) && #[trigger] is_split_of(
                m,
                mr,
                mp,
                idx,
                preds.last().0,
                preds.last().1 as int,
                y.0,
                y.1,
                y.2,
            );
        lemma_splits_all_unique(a, r, ip, idx, preds.drop_last(), (m, mr, mp), (m2, mr2, mp2));
        lemma_split_of_unique(m, mr, mp, idx, preds.last().0, preds.last().1 as int, x, y);
    }
}

/// What is done with the first states of a round has one result.
pub proof fn lemma_round_upto_unique(
    a: NfaView,
    r: NfaView,
    ip: Seq<(CharRange, usize)>,
    k: int,
    x: (NfaView, NfaView, Seq<(CharRange, usize)>),
    y: (NfaView, NfaView, Seq<(CharRange, usize)>),
)
    requires
        round_upto(a, r, ip, k, x.0, x.1, x.2),
        round_upto(a, r, ip, k, y.0, y.1, y.2),
    ensures
        x == y,
    decreases k,
{
    if k > 0 {
        let (m, mr, mp) = choose|m: NfaView, mr: NfaView, mp: Seq<(CharRange, usize)>|
            round_upto(a, r, ip, k - 1, m, mr, mp) && #[trigger] is_stage(
                m,
                mr,
                mp,
                k - 1,
                x.0,
                x.1,
                x.2,
            );
        let (m2, mr2, mp2) = choose|m: NfaView, mr: NfaView, mp: Seq<(CharRange, usize)>|
            round_upto(a, r, ip, k - 1, m, mr, mp) && #[trigger] is_stage(
                m,
                mr,
                mp,
                k - 1,
                y.0,
                y.1,
                y.2,
            );
        lemma_round_upto_unique(a, r, ip, k - 1, (m, mr, mp), (m2, mr2, mp2));
        lemma_splits_all_unique(
            without_predicates(m, k - 1),
            mr.without_mirrored(m.states[k - 1].transitions.predicates, (k - 1) as usize),
            mp,
            k - 1,
            m.states[k - 1].transitions.predicates,
            x,
            y,
        );
    }
}

/// A round has one result.
pub proof fn lemma_round_unique(
    a: NfaView,
    ip: Seq<(CharRange, usize)>,
    x: (NfaView, Seq<(CharRange, usize)>),
    y: (NfaView, Seq<(CharRange, usize)>),
)
    requires
        is_round(a, ip, x.0, x.1),
        is_round(a, ip, y.0, y.1),
    ensures
        x == y,
{
    let r2 = choose|r2: NfaView|
        #[trigger] round_upto(a, a.reversed_spec(), ip, a.num(), x.0, r2, x.1);
    let r3 = choose|r3: NfaView|
        #[trigger] round_upto(a, a.reversed_spec(), ip, a.num(), y.0, r3, y.1);
    lemma_round_upto_unique(a, a.reversed_spec(), ip, a.num(), (x.0, r2, x.1), (y.0, r3, y.1));
}

/// As many rounds have one result.
pub proof fn lemma_rounds_unique(
    a: NfaView,
    ip: Seq<(CharRange, usize)>,
    rounds: nat,
    x: (NfaView, Seq<(CharRange, usize)>),
    y: (NfaView, Seq<(CharRange, usize)>),
)
    requires
        rounds_upto(a, ip, rounds, x.0, x.1),
        rounds_upto(a, ip, rounds, y.0, y.1),
    ensures
        x == y,
    decreases rounds,
{
    if rounds > 0 {
        let (m, mp) = choose|m: NfaView, mp: Seq<(CharRange, usize)>|
            rounds_upto(a, ip, (rounds - 1) as nat, m, mp) && m.num() < x.0.num() && #[trigger] is_round(
                m,
                mp,
                x.0,
                x.1,
            );
        let (m2, mp2) = choose|m: NfaView, mp: Seq<(CharRange, usize)>|
            rounds_upto(a, ip, (rounds - 1) as nat, m, mp) && m.num() < y.0.num() && #[trigger] is_round(
                m,
                mp,
                y.0,
                y.1,
            );
        lemma_rounds_unique(a, ip, (rounds - 1) as nat, (m, mp), (m2, mp2));
        lemma_round_unique(m, mp, x, y);
    }
}

/// More rounds pass through what fewer rounds lead to, and go on from there with a round
/// that adds a state.
pub proof fn lemma_rounds_pass(
    a: NfaView,
    ip: Seq<(CharRange, usize)>,
    fewer: nat,
    more: nat,
    b: NfaView,
    ip2: Seq<(CharRange, usize)>,
) -> (mid: (NfaView, Seq<(CharRange, usize)>, NfaView, Seq<(CharRange, usize)>))
    requires
        fewer < more,
        rounds_upto(a, ip, more, b, ip2),
    ensures
        rounds_upto(a, ip, fewer, mid.0, mid.1),
        is_round(mid.0, mid.1, mid.2, mid.3),
        mid.2.num() > mid.0.num(),
    decreases more,
{
    let (m, mp) = choose|m: NfaView, mp: Seq<(CharRange, usize)>|
        rounds_upto(a, ip, (more - 1) as nat, m, mp) && m.num() < b.num() && #[trigger] is_round(
            m,
            mp,
            b,
            ip2,
        );
    if more - 1 == fewer {
        (m, mp, b, ip2)
    } else {
        lemma_rounds_pass(a, ip, fewer, (more - 1) as nat, m, mp)
    }
}

/// The removal has one result.
pub proof fn lemma_removes_unique(
    a: NfaView,
    ip: Seq<(CharRange, usize)>,
    x: (NfaView, Seq<(CharRange, usize)>),
    y: (NfaView, Seq<(CharRange, usize)>),
)
    requires
        removes(a, ip, x.0, x.1),
        removes(a, ip, y.0, y.1),
    ensures
        x == y,
{
    let n = choose|n: nat| #[trigger] rounds_upto(a, ip, n, x.0, x.1);
    let k = choose|k: nat| #[trigger] rounds_upto(a, ip, k, y.0, y.1);
    if n < k {
        let mid = lemma_rounds_pass(a, ip, n, k, y.0, y.1);
        lemma_rounds_unique(a, ip, n, x, (mid.0, mid.1));
        let r2 = choose|r2: NfaView|
            #[trigger] round_upto(mid.0, mid.0.reversed_spec(), mid.1, mid.0.num(), mid.2, r2, mid.3);
        lemma_round_predicate_free(
            mid.0,
            mid.0.reversed_spec(),
            mid.1,
            mid.0.num(),
            mid.2,
            r2,
            mid.3,
        );
    } else if k < n {
        let mid = lemma_rounds_pass(a, ip, k, n, x.0, x.1);
        lemma_rounds_unique(a, ip, k, y, (mid.0, mid.1));
        let r2 = choose|r2: NfaView|
            #[trigger] round_upto(mid.0, mid.0.reversed_spec(), mid.1, mid.0.num(), mid.2, r2, mid.3);
        lemma_round_predicate_free(
            mid.0,
            mid.0.reversed_spec(),
            mid.1,
            mid.0.num(),
            mid.2,
            r2,
            mid.3,
        );
    } else {
        lemma_rounds_unique(a, ip, n, x, y);
    }
}

/// What a sequence holds once it has one more element.
pub proof fn lemma_push_contains<A>(s: Seq<A>, e: A, x: A)
    ensures
        s.push(e).contains(x) <==> (s.contains(x) || e == x),
{
    let p = s.push(e);
    if s.contains(x) {
        let i = choose|i: int| 0 <= i < s.len() && s[i] == x;
        assert(p[i] == x);
    }
    if e == x {
        assert(p[s.len() as int] == x);
    }
}

/// Whether `m` is `a` without predicates: the rounds of the removal lead from `a`, with the
/// states of `init` as the states in which a match may start at the beginning of the
/// input, to `m` with the conditions behind a character left as they were, and `m` has
/// these conditions from what the rounds have gathered, grouped.
pub open spec fn is_removed(a: NfaView, m: NfaView) -> bool {
    &&& m.wf()
    &&& predicate_free(m)
    &&& a.states.len() <= m.states.len()
    &&& m.init == a.init
    &&& exists|ip: Seq<(CharRange, usize)>, g: Seq<(CharRange, Vec<usize>)>|
        values_below(ip, m.num()) && #[trigger] crate::char_map::is_grouping(ip, g)
            && crate::nfa::char_map_view(g) == m.init_after_char && removes(
            a.with_init_at_start(a.init),
            Seq::empty(),
            m.with_init_after_char(a.init_after_char),
            ip,
        )
}

/// The removal of the predicates has one result: an automaton without predicates that the
/// rounds lead to is the only one.
pub proof fn lemma_removed_unique(a: NfaView, m: NfaView, other: NfaView)
    requires
        is_removed(a, m),
        is_removed(a, other),
    ensures
        m == other,
{
    let start = a.with_init_at_start(a.init);
    let (ip, g) = choose|ip: Seq<(CharRange, usize)>, g: Seq<(CharRange, Vec<usize>)>|
        values_below(ip, m.num()) && #[trigger] crate::char_map::is_grouping(ip, g)
            && crate::nfa::char_map_view(g) == m.init_after_char && removes(
            start,
            Seq::empty(),
            m.with_init_after_char(a.init_after_char),
            ip,
        );
    let (ip2, g2) = choose|ip: Seq<(CharRange, usize)>, g: Seq<(CharRange, Vec<usize>)>|
        values_below(ip, other.num()) && #[trigger] crate::char_map::is_grouping(ip, g)
            && crate::nfa::char_map_view(g) == other.init_after_char && removes(
            start,
            Seq::empty(),
            other.with_init_after_char(a.init_after_char),
            ip,
        );
    lemma_removes_unique(
        start,
        Seq::empty(),
        (m.with_init_after_char(a.init_after_char), ip),
        (other.with_init_after_char(a.init_after_char), ip2),
    );
    crate::char_map::lemma_grouping_unique(ip, g, g2);
    assert(crate::nfa::char_map_view(g) =~= sets_of(g));
    assert(crate::nfa::char_map_view(g2) =~= sets_of(g2));
    let x = m.with_init_after_char(a.init_after_char);
    let y = other.with_init_after_char(a.init_after_char);
    assert(m.states == x.states && m.init == x.init && m.init_at_start == x.init_at_start);
    assert(other.states == y.states && other.init == y.init && other.init_at_start
        == y.init_at_start);
}

impl Nfa {
    /// Removes every predicate transition, round by round until a round adds no state. The
    /// states in which a match may start under a condition take the place of the
    /// predicates at the initial states: `init_at_start` is set from `init` and gets the
    /// new states that are initial at the beginning of the input, and `init_after_char` is
    /// built anew, from the new states that are initial behind a character. The result is
    /// the one automaton that the rounds lead to: see `lemma_removed_unique`.
    pub fn remove_predicates(&mut self)
        requires
            old(self).wf(),
        ensures
            final(self).wf(),
            predicate_free(final(self)@),
            is_removed(old(self)@, final(self)@),
            old(self)@.states.len() <= final(self)@.states.len(),
            forall|s: int|
                0 <= s < old(self)@.states.len() ==> (#[trigger] final(self)@.states[s]).accept == old(
                    self,
                )@.states[s].accept && final(self)@.states[s].dfa_accept == old(
                    self,
                )@.states[s].dfa_accept && final(self)@.states[s].transitions.eps == old(
                    self,
                )@.states[s].transitions.eps,
            forall|s: int|
                old(self)@.states.len() <= s < final(self)@.states.len() ==> (
                #[trigger] final(self)@.states[s]).transitions.eps.len() == 0
                    && final(self)@.states[s].dfa_accept == DfaAccept::never_spec(),
            final(self)@.init == old(self)@.init,
            old(self)@.init.len() <= final(self)@.init_at_start.len(),
            final(self)@.init_at_start.take(old(self)@.init.len() as int) == old(self)@.init,
            exists|ip: Seq<(CharRange, usize)>|
                values_below(ip, final(self)@.num()) && #[trigger] crate::char_map::is_grouping(
                    ip,
                    final(self).init_after_char@,
                ) && removes(
                    old(self)@.with_init_at_start(old(self)@.init),
                    Seq::empty(),
                    final(self)@.with_init_after_char(old(self)@.init_after_char),
                    ip,
                ),
    {
        let ghost a = self@;
        self.init_at_start = crate::state_set::copy(&self.init);
        let ghost a1 = self@;
        proof {
            assert(a1.init_after_char == a.init_after_char);
            lemma_wf_same_states(a, a1);
            assert(a1.init_at_start.take(a1.init_at_start.len() as int) =~= a1.init_at_start);
        }
        let mut initial_preds = CharMultiMap::new();
        let mut done = false;
        let ghost mut rounds: nat = 0;
        proof {
            assert(a1 == a.with_init_at_start(a.init));
            assert(rounds_upto(a1, Seq::empty(), rounds, a1, initial_preds@));
        }
        while !done
            invariant
                self.wf(),
                values_below(initial_preds@, self@.num()),
                grown(a1, self@),
                rounds_upto(a1, Seq::empty(), rounds, self@, initial_preds@),
                done ==> predicate_free(self@),
            decreases
                    (if done {
                        0int
                    } else {
                        1int
                    }),
                    usize::MAX - self.states.len(),
        {
            let ghost before = self@;
            let ghost ip_before = initial_preds@;
            let changed = self.remove_predicates_once(&mut initial_preds);
            proof {
                lemma_grown_trans(a1, before, self@);
                if changed {
                    assert(is_round(before, ip_before, self@, initial_preds@));
                    rounds = rounds + 1;
                    assert(rounds_upto(a1, Seq::empty(), rounds, self@, initial_preds@));
                }
            }
            if !changed {
                done = true;
            }
        }
        let grouped = initial_preds.group();
        let ghost b = self@;
        self.init_after_char = grouped;
        proof {
            let c = self@;
            let ip = initial_preds@;
            let g = self.init_after_char@;
            assert forall|k: int| 0 <= k < c.init_after_char.len() implies below(
                (#[trigger] c.init_after_char[k]).1,
                c.num(),
            ) by {
                assert(c.init_after_char[k] == (g[k].0, g[k].1@));
                assert forall|i: int| 0 <= i < g[k].1@.len() implies (#[trigger] g[k].1@[i]) < c.num() by {
                    let t = g[k].1@[i];
                    assert(g[k].1@.contains(t));
                    assert(g[k].0.has(g[k].0.start));
                    assert(maps_to(ip, g[k].0.start, t));
                    let q = choose|q: int|
                        0 <= q < ip.len() && (#[trigger] ip[q]).0.has(g[k].0.start) && ip[q].1 == t;
                    assert(ip[q].1 < c.num());
                }
            }
            lemma_wf_same_states(b, c);
            assert(c.init_at_start.take(a.init.len() as int) == a.init);
            assert(c.with_init_after_char(a.init_after_char) == b);
            assert(crate::char_map::is_grouping(ip, g) && crate::nfa::char_map_view(g)
                == c.init_after_char);
            assert(removes(a1, Seq::empty(), b, ip));
        }
    }
}

} // verus!
