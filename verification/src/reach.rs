//! Reversal of an automaton, the states that matter to its language, and the removal of
//! those that do not.

use crate::char_map::CharRange;
use crate::graph::{converse, lemma_reaches_converse, lemma_reaches_mono, reach_from, reaches};
use crate::nfa::{
    index_set, lemma_add_eps_edges, lemma_add_predicate_edges, lemma_add_transition_edges,
    lemma_edge_kinds, lemma_index_set, Nfa, NfaView, StateView,
};
use crate::state_set::{below, sorted, StateSet};
use crate::transition::{DfaAccept, PredicateView};
use vstd::prelude::*;

verus! {

/// Whether `r` has the states of `a` by number, and each transition of `a` turned round.
pub open spec fn mirrors(r: NfaView, a: NfaView) -> bool {
    &&& r.states.len() == a.states.len()
    &&& forall|s: int, g: CharRange, t: int|
        #![trigger r.has_consuming(t, g, s)]
        #![trigger a.has_consuming(s, g, t)]
        r.has_consuming(t, g, s) <==> a.has_consuming(s, g, t)
    &&& forall|s: int, t: int|
        #![trigger r.eps_edge(t, s)]
        #![trigger a.eps_edge(s, t)]
        r.eps_edge(t, s) <==> a.eps_edge(s, t)
    &&& forall|s: int, p: PredicateView, t: int|
        #![trigger r.has_predicate(t, p, s)]
        #![trigger a.has_predicate(s, p, t)]
        r.has_predicate(t, p, s) <==> a.has_predicate(s, p, t)
}

/// Whether `r` is `a` reversed: the same states with the same acceptance, no initial
/// states, and each transition of `a` turned round.
pub open spec fn is_reverse_of(r: NfaView, a: NfaView) -> bool {
    &&& mirrors(r, a)
    &&& forall|s: int|
        0 <= s < a.states.len() ==> (#[trigger] r.states[s]).accept == a.states[s].accept
            && r.states[s].dfa_accept == DfaAccept::never_spec()
    &&& r.init.len() == 0
    &&& r.init_at_start.len() == 0
    &&& r.init_after_char.len() == 0
}

/// The transitions of `a` turned round, as far as a walk through the states has come: all
/// those out of the states below `idx`, and of the state `idx` the first `kc` consuming
/// ones, the first `ke` ε-transitions and the first `kp` predicate ones.
pub open spec fn mirrors_upto(r: NfaView, a: NfaView, idx: int, kc: int, ke: int, kp: int) -> bool {
    &&& r.states.len() == a.states.len()
    &&& forall|s: int, g: CharRange, t: int|
        #![trigger r.has_consuming(t, g, s)]
        #![trigger a.has_consuming(s, g, t)]
        r.has_consuming(t, g, s) <==> (s < idx && a.has_consuming(s, g, t)) || (s == idx && 0 <= t
            <= usize::MAX && a.states[s].transitions.consuming.take(kc).contains(
            (g, t as usize),
        ))
    &&& forall|s: int, t: int|
        #![trigger r.eps_edge(t, s)]
        #![trigger a.eps_edge(s, t)]
        r.eps_edge(t, s) <==> (s < idx && a.eps_edge(s, t)) || (s == idx && 0 <= t <= usize::MAX
            && a.states[s].transitions.eps.take(ke).contains(t as usize))
    &&& forall|s: int, p: PredicateView, t: int|
        #![trigger r.has_predicate(t, p, s)]
        #![trigger a.has_predicate(s, p, t)]
        r.has_predicate(t, p, s) <==> (s < idx && a.has_predicate(s, p, t)) || (s == idx && 0 <= t
            <= usize::MAX && a.states[s].transitions.predicates.take(kp).contains(
            (p, t as usize),
        ))
}

/// An element is in a sequence with one more element if it is in the sequence or is that
/// element.
pub proof fn lemma_take_contains<A>(s: Seq<A>, k: int, x: A)
    requires
        0 <= k < s.len(),
    ensures
        s.take(k + 1).contains(x) <==> (s.take(k).contains(x) || s[k] == x),
        s.take(0).contains(x) == false,
        s.take(s.len() as int) == s,
{
    let a = s.take(k);
    let b = s.take(k + 1);
    assert(b =~= a.push(s[k]));
    if a.contains(x) {
        let i = choose|i: int| 0 <= i < a.len() && a[i] == x;
        assert(b[i] == x);
    }
    if s[k] == x {
        assert(b[k] == x);
    }
    assert(s.take(s.len() as int) =~= s);
}

/// All of a sequence is the sequence, and none of it holds nothing.
pub proof fn lemma_take_all<A>(s: Seq<A>)
    ensures
        s.take(s.len() as int) == s,
        forall|x: A| !s.take(0).contains(x),
{
    assert(s.take(s.len() as int) =~= s);
}

/// A whole state's transitions turned round are what the walk has when it moves on.
pub proof fn lemma_mirrors_next(r: NfaView, a: NfaView, idx: int)
    requires
        0 <= idx < a.states.len(),
        mirrors_upto(
            r,
            a,
            idx,
            a.states[idx].transitions.consuming.len() as int,
            a.states[idx].transitions.eps.len() as int,
            a.states[idx].transitions.predicates.len() as int,
        ),
    ensures
        mirrors_upto(r, a, idx + 1, 0, 0, 0),
{
    let tr = a.states[idx].transitions;
    lemma_take_all(tr.consuming);
    lemma_take_all(tr.eps);
    lemma_take_all(tr.predicates);
    assert forall|s: int, g: CharRange, t: int|
        #![trigger r.has_consuming(t, g, s)]
        #![trigger a.has_consuming(s, g, t)]
        r.has_consuming(t, g, s) <==> (s < idx + 1 && a.has_consuming(s, g, t)) || (s == idx + 1
            && 0 <= t <= usize::MAX && a.states[s].transitions.consuming.take(0).contains(
            (g, t as usize),
        )) by {
        lemma_take_all(a.states[s].transitions.consuming);
        if s == idx {
            if a.has_consuming(s, g, t) {
                let k = choose|k: int|
                    0 <= k < tr.consuming.len() && #[trigger] tr.consuming[k] == (g, t as usize);
                assert(tr.consuming.contains((g, t as usize)));
            }
            if 0 <= t <= usize::MAX && tr.consuming.contains((g, t as usize)) {
                let k = choose|k: int| 0 <= k < tr.consuming.len() && tr.consuming[k] == (g, t as usize);
                assert(tr.consuming[k] == (g, t as usize));
            }
        }
    }
    assert forall|s: int, t: int|
        #![trigger r.eps_edge(t, s)]
        #![trigger a.eps_edge(s, t)]
        r.eps_edge(t, s) <==> (s < idx + 1 && a.eps_edge(s, t)) || (s == idx + 1 && 0 <= t
            <= usize::MAX && a.states[s].transitions.eps.take(0).contains(t as usize)) by {
        lemma_take_all(a.states[s].transitions.eps);
        if s == idx {
            if a.eps_edge(s, t) {
                let k = choose|k: int| 0 <= k < tr.eps.len() && #[trigger] tr.eps[k] == t;
                assert(tr.eps.contains(t as usize));
            }
            if 0 <= t <= usize::MAX && tr.eps.contains(t as usize) {
                let k = choose|k: int| 0 <= k < tr.eps.len() && tr.eps[k] == t as usize;
                assert(tr.eps[k] == t);
            }
        }
    }
    assert forall|s: int, p: PredicateView, t: int|
        #![trigger r.has_predicate(t, p, s)]
        #![trigger a.has_predicate(s, p, t)]
        r.has_predicate(t, p, s) <==> (s < idx + 1 && a.has_predicate(s, p, t)) || (s == idx + 1
            && 0 <= t <= usize::MAX && a.states[s].transitions.predicates.take(0).contains(
            (p, t as usize),
        )) by {
        lemma_take_all(a.states[s].transitions.predicates);
        if s == idx {
            if a.has_predicate(s, p, t) {
                let k = choose|k: int|
                    0 <= k < tr.predicates.len() && #[trigger] tr.predicates[k] == (p, t as usize);
                assert(tr.predicates.contains((p, t as usize)));
            }
            if 0 <= t <= usize::MAX && tr.predicates.contains((p, t as usize)) {
                let k = choose|k: int|
                    0 <= k < tr.predicates.len() && tr.predicates[k] == (p, t as usize);
                assert(tr.predicates[k] == (p, t as usize));
            }
        }
    }
}

impl NfaView {
    /// The states of the automaton with their acceptance before the lowering, without
    /// transitions, and none of them initial.
    pub open spec fn bare(self) -> NfaView {
        NfaView {
            states: Seq::new(self.states.len(), |s: int| StateView::fresh(self.states[s].accept)),
            init: Seq::empty(),
            init_at_start: Seq::empty(),
            init_after_char: Seq::empty(),
        }
    }

    /// `r` with the first `k` consuming transitions of the state `s` turned round, each
    /// added behind the transitions that its target has in `r`.
    pub open spec fn turn_consuming(self, r: NfaView, s: int, k: int) -> NfaView
        decreases k,
    {
        if k <= 0 {
            r
        } else {
            let e = self.states[s].transitions.consuming[k - 1];
            self.turn_consuming(r, s, k - 1).add_transition(e.1 as int, s as usize, e.0)
        }
    }

    /// `r` with the first `k` ε-transitions of the state `s` turned round.
    pub open spec fn turn_eps(self, r: NfaView, s: int, k: int) -> NfaView
        decreases k,
    {
        if k <= 0 {
            r
        } else {
            self.turn_eps(r, s, k - 1).add_eps(
                self.states[s].transitions.eps[k - 1] as int,
                s as usize,
            )
        }
    }

    /// `r` with the first `k` predicate transitions of the state `s` turned round.
    pub open spec fn turn_predicates(self, r: NfaView, s: int, k: int) -> NfaView
        decreases k,
    {
        if k <= 0 {
            r
        } else {
            let e = self.states[s].transitions.predicates[k - 1];
            self.turn_predicates(r, s, k - 1).add_predicate(e.1 as int, s as usize, e.0)
        }
    }

    /// `r` with the transitions of the state `s` turned round: the consuming ones, then
    /// the ε-transitions, then the predicate ones, each kind in its order.
    pub open spec fn turn_state(self, r: NfaView, s: int) -> NfaView {
        let t = self.states[s].transitions;
        self.turn_predicates(
            self.turn_eps(self.turn_consuming(r, s, t.consuming.len() as int), s, t.eps.len() as int),
            s,
            t.predicates.len() as int,
        )
    }

    /// The bare states with the transitions of the states below `k` turned round, state
    /// after state.
    pub open spec fn turn_upto(self, k: int) -> NfaView
        decreases k,
    {
        if k <= 0 {
            self.bare()
        } else {
            self.turn_state(self.turn_upto(k - 1), k - 1)
        }
    }

    /// The automaton reversed: a state has the transitions that lead to it, turned round,
    /// in the order of the states that they come from.
    pub open spec fn reversed_spec(self) -> NfaView {
        self.turn_upto(self.num())
    }
}

impl Nfa {
    /// A copy with every transition turned round. A state has the same index in both.
    pub fn reversed(&self) -> (ret: Nfa)
        requires
            self.wf(),
        ensures
            ret.wf(),
            ret@ == self@.reversed_spec(),
            is_reverse_of(ret@, self@),
    {
        let n = self.states.len();
        let mut ret = Nfa::with_capacity(n);
        let mut i: usize = 0;
        while i < n
            invariant
                i <= n,
                n == self.states@.len(),
                self.wf(),
                ret.wf(),
                ret@.states.len() == i,
                ret@.init.len() == 0,
                ret@.init_at_start.len() == 0,
                ret@.init_after_char.len() == 0,
                forall|s: int|
                    0 <= s < i ==> (#[trigger] ret@.states[s]) == StateView::fresh(
                        self@.states[s].accept,
                    ),
            decreases n - i,
        {
            proof {
                assert(self@.states[i as int].accept.wf());
                assert(self@.states[i as int] == self.states@[i as int]@);
            }
            let acc = self.states[i].accept.clone();
            ret.add_state(acc);
            i += 1;
        }
        proof {
            assert forall|s: int, g: CharRange, t: int| !ret@.has_consuming(t, g, s) by {
                if 0 <= t < n {
                    assert(ret@.states[t].transitions.consuming.len() == 0);
                }
            }
            assert forall|s: int, t: int| !ret@.eps_edge(t, s) by {
                if 0 <= t < n {
                    assert(ret@.states[t].transitions.eps.len() == 0);
                }
            }
            assert forall|s: int, p: PredicateView, t: int| !ret@.has_predicate(t, p, s) by {
                if 0 <= t < n {
                    assert(ret@.states[t].transitions.predicates.len() == 0);
                }
            }
            assert forall|s: int, x: (CharRange, usize)|
                !(#[trigger] self@.states[s].transitions.consuming.take(0).contains(x)) by {}
            assert(mirrors_upto(ret@, self@, 0, 0, 0, 0));
            assert(ret@.states =~= self@.bare().states);
            assert(ret@.init =~= self@.bare().init);
            assert(ret@.init_at_start =~= self@.bare().init_at_start);
            assert(ret@.init_after_char =~= self@.bare().init_after_char);
            assert(ret@ == self@.turn_upto(0));
        }
        let mut idx: usize = 0;
        while idx < n
            invariant
                idx <= n,
                n == self.states@.len(),
                self.wf(),
                ret.wf(),
                mirrors_upto(ret@, self@, idx as int, 0, 0, 0),
                forall|s: int|
                    0 <= s < n ==> (#[trigger] ret@.states[s]).accept == self@.states[s].accept
                        && ret@.states[s].dfa_accept == DfaAccept::never_spec(),
                ret@.init.len() == 0,
                ret@.init_at_start.len() == 0,
                ret@.init_after_char.len() == 0,
                ret@ == self@.turn_upto(idx as int),
            decreases n - idx,
        {
            let st = &self.states[idx];
            let ghost tv = self@.states[idx as int].transitions;
            let ghost base = ret@;
            proof {
                assert(self@.states[idx as int] == self.states@[idx as int]@);
                assert(tv.wf(n as int));
            }
            let mut k: usize = 0;
            while k < st.transitions.consuming.len()
                invariant
                    k <= st.transitions.consuming@.len(),
                    idx < n,
                    n == self.states@.len(),
                    st@.transitions == tv,
                    tv == self@.states[idx as int].transitions,
                    tv.wf(n as int),
                    ret.wf(),
                    mirrors_upto(ret@, self@, idx as int, k as int, 0, 0),
                    forall|s: int|
                        0 <= s < n ==> (#[trigger] ret@.states[s]).accept == self@.states[s].accept
                            && ret@.states[s].dfa_accept == DfaAccept::never_spec(),
                    ret@.init.len() == 0,
                    ret@.init_at_start.len() == 0,
                    ret@.init_after_char.len() == 0,
                    ret@ == self@.turn_consuming(base, idx as int, k as int),
                decreases st.transitions.consuming@.len() - k,
            {
                let e = st.transitions.consuming.get(k);
                let ghost r0 = ret@;
                proof {
                    assert(tv.consuming[k as int] == e);
                    assert(e.1 < n);
                    lemma_add_transition_edges(r0, e.1 as int, idx, e.0);
                }
                ret.add_transition(e.1, idx, e.0);
                proof {
                    let r1 = ret@;
                    let k1 = k as int + 1;
                    assert(self@.turn_consuming(base, idx as int, k1 - 1) == r0);
                    assert(r1 == self@.turn_consuming(base, idx as int, k1));
                    assert forall|s: int, g: CharRange, t: int|
                        #![trigger r1.has_consuming(t, g, s)]
                        #![trigger self@.has_consuming(s, g, t)]
                        r1.has_consuming(t, g, s) <==> (s < idx && self@.has_consuming(s, g, t)) || (
                        s == idx && 0 <= t <= usize::MAX
                            && self@.states[s].transitions.consuming.take(k as int + 1).contains(
                            (g, t as usize),
                        )) by {
                        assert(r1.consuming_set().contains((t, g, s)) == r1.has_consuming(t, g, s));
                        assert(r0.consuming_set().contains((t, g, s)) == r0.has_consuming(t, g, s));
                        if s == idx {
                            lemma_take_contains(tv.consuming, k as int, (g, t as usize));
                        }
                    }
                    assert forall|s: int, t: int|
                        #![trigger r1.eps_edge(t, s)]
                        #![trigger self@.eps_edge(s, t)]
                        r1.eps_edge(t, s) <==> (s < idx && self@.eps_edge(s, t)) || (s == idx && 0
                            <= t <= usize::MAX && self@.states[s].transitions.eps.take(0).contains(
                            t as usize,
                        )) by {
                        assert(r1.eps_set().contains((t, s)) == r1.eps_edge(t, s));
                        assert(r0.eps_set().contains((t, s)) == r0.eps_edge(t, s));
                    }
                    assert forall|s: int, p: PredicateView, t: int|
                        #![trigger r1.has_predicate(t, p, s)]
                        #![trigger self@.has_predicate(s, p, t)]
                        r1.has_predicate(t, p, s) <==> (s < idx && self@.has_predicate(s, p, t)) || (
                        s == idx && 0 <= t <= usize::MAX
                            && self@.states[s].transitions.predicates.take(0).contains(
                            (p, t as usize),
                        )) by {
                        assert(r1.predicate_set().contains((t, p, s)) == r1.has_predicate(t, p, s));
                        assert(r0.predicate_set().contains((t, p, s)) == r0.has_predicate(t, p, s));
                    }
                }
                k += 1;
            }
            let ghost kc = tv.consuming.len() as int;
            let ghost base_eps = ret@;
            let mut k: usize = 0;
            while k < st.transitions.eps.len()
                invariant
                    k <= st.transitions.eps@.len(),
                    idx < n,
                    n == self.states@.len(),
                    st@.transitions == tv,
                    tv == self@.states[idx as int].transitions,
                    tv.wf(n as int),
                    kc == tv.consuming.len(),
                    ret.wf(),
                    mirrors_upto(ret@, self@, idx as int, kc, k as int, 0),
                    forall|s: int|
                        0 <= s < n ==> (#[trigger] ret@.states[s]).accept == self@.states[s].accept
                            && ret@.states[s].dfa_accept == DfaAccept::never_spec(),
                    ret@.init.len() == 0,
                    ret@.init_at_start.len() == 0,
                    ret@.init_after_char.len() == 0,
                    ret@ == self@.turn_eps(base_eps, idx as int, k as int),
                decreases st.transitions.eps@.len() - k,
            {
                let t0 = st.transitions.eps[k];
                let ghost r0 = ret@;
                proof {
                    assert(tv.eps[k as int] == t0);
                    assert(t0 < n);
                    lemma_add_eps_edges(r0, t0 as int, idx);
                }
                ret.add_eps(t0, idx);
                proof {
                    let r1 = ret@;
                    let k1 = k as int + 1;
                    assert(self@.turn_eps(base_eps, idx as int, k1 - 1) == r0);
                    assert(r1 == self@.turn_eps(base_eps, idx as int, k1));
                    assert forall|s: int, g: CharRange, t: int|
                        #![trigger r1.has_consuming(t, g, s)]
                        #![trigger self@.has_consuming(s, g, t)]
                        r1.has_consuming(t, g, s) <==> (s < idx && self@.has_consuming(s, g, t)) || (
                        s == idx && 0 <= t <= usize::MAX
                            && self@.states[s].transitions.consuming.take(kc).contains(
                            (g, t as usize),
                        )) by {
                        assert(r1.consuming_set().contains((t, g, s)) == r1.has_consuming(t, g, s));
                        assert(r0.consuming_set().contains((t, g, s)) == r0.has_consuming(t, g, s));
                    }
                    assert forall|s: int, t: int|
                        #![trigger r1.eps_edge(t, s)]
                        #![trigger self@.eps_edge(s, t)]
                        r1.eps_edge(t, s) <==> (s < idx && self@.eps_edge(s, t)) || (s == idx && 0
                            <= t <= usize::MAX && self@.states[s].transitions.eps.take(
                            k as int + 1,
                        ).contains(t as usize)) by {
                        assert(r1.eps_set().contains((t, s)) == r1.eps_edge(t, s));
                        assert(r0.eps_set().contains((t, s)) == r0.eps_edge(t, s));
                        if s == idx {
                            lemma_take_contains(tv.eps, k as int, t as usize);
                        }
                    }
                    assert forall|s: int, p: PredicateView, t: int|
                        #![trigger r1.has_predicate(t, p, s)]
                        #![trigger self@.has_predicate(s, p, t)]
                        r1.has_predicate(t, p, s) <==> (s < idx && self@.has_predicate(s, p, t)) || (
                        s == idx && 0 <= t <= usize::MAX
                            && self@.states[s].transitions.predicates.take(0).contains(
                            (p, t as usize),
                        )) by {
                        assert(r1.predicate_set().contains((t, p, s)) == r1.has_predicate(t, p, s));
                        assert(r0.predicate_set().contains((t, p, s)) == r0.has_predicate(t, p, s));
                    }
                }
                k += 1;
            }
            let ghost ke = tv.eps.len() as int;
            let ghost base_preds = ret@;
            let mut k: usize = 0;
            while k < st.transitions.predicates.len()
                invariant
                    k <= st.transitions.predicates@.len(),
                    idx < n,
                    n == self.states@.len(),
                    st@.transitions == tv,
                    tv == self@.states[idx as int].transitions,
                    tv.wf(n as int),
                    kc == tv.consuming.len(),
                    ke == tv.eps.len(),
                    ret.wf(),
                    mirrors_upto(ret@, self@, idx as int, kc, ke, k as int),
                    forall|s: int|
                        0 <= s < n ==> (#[trigger] ret@.states[s]).accept == self@.states[s].accept
                            && ret@.states[s].dfa_accept == DfaAccept::never_spec(),
                    ret@.init.len() == 0,
                    ret@.init_at_start.len() == 0,
                    ret@.init_after_char.len() == 0,
                    ret@ == self@.turn_predicates(base_preds, idx as int, k as int),
                decreases st.transitions.predicates@.len() - k,
            {
                let t0 = st.transitions.predicates[k].1;
                let ghost pv = st.transitions.predicates@[k as int].0@;
                let ghost r0 = ret@;
                proof {
                    assert(tv.predicates[k as int] == (pv, t0));
                    assert(t0 < n && pv.wf());
                    lemma_add_predicate_edges(r0, t0 as int, idx, pv);
                }
                let pred = st.transitions.predicates[k].0.clone();
                ret.add_predicate(t0, idx, pred);
                proof {
                    let r1 = ret@;
                    let k1 = k as int + 1;
                    assert(self@.turn_predicates(base_preds, idx as int, k1 - 1) == r0);
                    assert(r1 == self@.turn_predicates(base_preds, idx as int, k1));
                    assert forall|s: int, g: CharRange, t: int|
                        #![trigger r1.has_consuming(t, g, s)]
                        #![trigger self@.has_consuming(s, g, t)]
                        r1.has_consuming(t, g, s) <==> (s < idx && self@.has_consuming(s, g, t)) || (
                        s == idx && 0 <= t <= usize::MAX
                            && self@.states[s].transitions.consuming.take(kc).contains(
                            (g, t as usize),
                        )) by {
                        assert(r1.consuming_set().contains((t, g, s)) == r1.has_consuming(t, g, s));
                        assert(r0.consuming_set().contains((t, g, s)) == r0.has_consuming(t, g, s));
                    }
                    assert forall|s: int, t: int|
                        #![trigger r1.eps_edge(t, s)]
                        #![trigger self@.eps_edge(s, t)]
                        r1.eps_edge(t, s) <==> (s < idx && self@.eps_edge(s, t)) || (s == idx && 0
                            <= t <= usize::MAX && self@.states[s].transitions.eps.take(ke).contains(
                            t as usize,
                        )) by {
                        assert(r1.eps_set().contains((t, s)) == r1.eps_edge(t, s));
                        assert(r0.eps_set().contains((t, s)) == r0.eps_edge(t, s));
                    }
                    assert forall|s: int, p: PredicateView, t: int|
                        #![trigger r1.has_predicate(t, p, s)]
                        #![trigger self@.has_predicate(s, p, t)]
                        r1.has_predicate(t, p, s) <==> (s < idx && self@.has_predicate(s, p, t)) || (
                        s == idx && 0 <= t <= usize::MAX
                            && self@.states[s].transitions.predicates.take(k as int + 1).contains(
                            (p, t as usize),
                        )) by {
                        assert(r1.predicate_set().contains((t, p, s)) == r1.has_predicate(t, p, s));
                        assert(r0.predicate_set().contains((t, p, s)) == r0.has_predicate(t, p, s));
                        if s == idx {
                            lemma_take_contains(tv.predicates, k as int, (p, t as usize));
                        }
                    }
                }
                k += 1;
            }
            proof {
                lemma_mirrors_next(ret@, self@, idx as int);
                assert(ret@ == self@.turn_state(base, idx as int));
                let k1 = idx as int + 1;
                assert(self@.turn_upto(k1 - 1) == base);
                assert(ret@ == self@.turn_upto(k1));
            }
            idx += 1;
        }
        proof {
            assert forall|s: int, g: CharRange, t: int|
                #![trigger ret@.has_consuming(t, g, s)]
                #![trigger self@.has_consuming(s, g, t)]
                ret@.has_consuming(t, g, s) <==> self@.has_consuming(s, g, t) by {}
            assert forall|s: int, t: int|
                #![trigger ret@.eps_edge(t, s)]
                #![trigger self@.eps_edge(s, t)]
                ret@.eps_edge(t, s) <==> self@.eps_edge(s, t) by {}
            assert forall|s: int, p: PredicateView, t: int|
                #![trigger ret@.has_predicate(t, p, s)]
                #![trigger self@.has_predicate(s, p, t)]
                ret@.has_predicate(t, p, s) <==> self@.has_predicate(s, p, t) by {}
        }
        ret
    }
}

/// A transition of a mirror is a transition of the mirrored automaton turned round.
pub proof fn lemma_mirror_edge(r: NfaView, a: NfaView, s: int, t: int)
    requires
        mirrors(r, a),
    ensures
        r.edge(t, s) <==> a.edge(s, t),
{
    lemma_edge_kinds(r, t, s);
    lemma_edge_kinds(a, s, t);
    assert(r.eps_edge(t, s) <==> a.eps_edge(s, t));
    if r.consuming_edge(t, s) {
        let g = choose|g: CharRange| #[trigger] r.has_consuming(t, g, s);
        assert(a.has_consuming(s, g, t));
    }
    if a.consuming_edge(s, t) {
        let g = choose|g: CharRange| #[trigger] a.has_consuming(s, g, t);
        assert(r.has_consuming(t, g, s));
    }
    if r.predicate_edge(t, s) {
        let p = choose|p: PredicateView| #[trigger] r.has_predicate(t, p, s);
        assert(a.has_predicate(s, p, t));
    }
    if a.predicate_edge(s, t) {
        let p = choose|p: PredicateView| #[trigger] a.has_predicate(s, p, t);
        assert(r.has_predicate(t, p, s));
    }
}

/// A walk in a mirror is a walk in the mirrored automaton read backwards, by transitions of any
/// kind and by ε-transitions alone.
pub proof fn lemma_mirror_reaches(r: NfaView, a: NfaView, all: bool, s: int, t: int)
    requires
        mirrors(r, a),
    ensures
        reaches(r.rel(all), t, s) <==> reaches(a.rel(all), s, t),
{
    let er = r.rel(all);
    let ea = a.rel(all);
    assert forall|x: int, y: int| #[trigger] er(x, y) <==> converse(ea)(x, y) by {
        lemma_mirror_edge(r, a, y, x);
    }
    assert forall|x: int, y: int| #[trigger] ea(x, y) <==> converse(er)(x, y) by {
        lemma_mirror_edge(r, a, x, y);
    }
    if reaches(er, t, s) {
        lemma_reaches_converse(er, t, s);
        lemma_reaches_mono(converse(er), ea, s, t);
    }
    if reaches(ea, s, t) {
        lemma_reaches_converse(ea, s, t);
        lemma_reaches_mono(converse(ea), er, t, s);
    }
}

impl Nfa {
    /// The states that are reached from an initial state and that reach an accepting
    /// state, in increasing order.
    pub fn reachable_states(&self) -> (r: StateSet)
        requires
            self.wf(),
        ensures
            sorted(r@),
            below(r@, self@.num()),
            forall|s: int| #[trigger] index_set(r@).contains(s) <==> self@.is_live(s),
    {
        let n = self.states.len();
        let mut init_states = crate::state_set::copy(&self.init);
        crate::state_set::extend(&mut init_states, &self.init_at_start);
        proof {
            assert forall|s: int|
                #[trigger] index_set(init_states@).contains(s) <==> (index_set(
                    self@.init,
                ).contains(s) || index_set(self@.init_at_start).contains(s)) by {
                lemma_index_set_concat(self@.init, self@.init_at_start, s);
            }
        }
        let mut k: usize = 0;
        while k < self.init_after_char.len()
            invariant
                k <= self.init_after_char@.len(),
                self.wf(),
                below(init_states@, self@.num()),
                forall|s: int|
                    #[trigger] index_set(init_states@).contains(s) <==> (index_set(
                        self@.init,
                    ).contains(s) || index_set(self@.init_at_start).contains(s) || exists|j: int|
                        0 <= j < k && index_set((#[trigger] self@.init_after_char[j]).1).contains(
                            s,
                        )),
            decreases self.init_after_char@.len() - k,
        {
            let ghost before = init_states@;
            let set = &self.init_after_char.get(k).1;
            proof {
                assert(self@.init_after_char[k as int].1 == set@);
                assert(below(self@.init_after_char[k as int].1, self@.num()));
            }
            crate::state_set::extend(&mut init_states, set);
            proof {
                assert forall|s: int|
                    #[trigger] index_set(init_states@).contains(s) <==> (index_set(
                        self@.init,
                    ).contains(s) || index_set(self@.init_at_start).contains(s) || exists|j: int|
                        0 <= j < k + 1 && index_set(
                            (#[trigger] self@.init_after_char[j]).1,
                        ).contains(s)) by {
                    lemma_index_set_concat(before, set@, s);
                    assert(index_set(before).contains(s) <==> (index_set(self@.init).contains(s)
                        || index_set(self@.init_at_start).contains(s) || exists|j: int|
                        0 <= j < k && index_set((#[trigger] self@.init_after_char[j]).1).contains(
                            s,
                        )));
                    if index_set(set@).contains(s) {
                        assert(index_set(self@.init_after_char[k as int].1).contains(s));
                    }
                }
            }
            k += 1;
        }
        let mut final_states: Vec<usize> = Vec::new();
        let mut idx: usize = 0;
        while idx < n
            invariant
                idx <= n,
                n == self.states@.len(),
                self.wf(),
                below(final_states@, n as int),
                forall|s: int|
                    #[trigger] index_set(final_states@).contains(s) <==> (s < idx
                        && self@.is_accepting(s)),
            decreases n - idx,
        {
            proof {
                assert(self@.states[idx as int].accept.wf());
                assert(self@.states[idx as int] == self.states@[idx as int]@);
            }
            let ghost before = final_states@;
            if !self.states[idx].accept.is_never() {
                final_states.push(idx);
                proof {
                    assert forall|s: int|
                        #[trigger] index_set(final_states@).contains(s) <==> (s < idx + 1
                            && self@.is_accepting(s)) by {
                        lemma_index_set_concat(before, seq![idx], s);
                        assert(final_states@ =~= before + seq![idx]);
                        assert(index_set(before).contains(s) <==> (s < idx && self@.is_accepting(
                            s,
                        )));
                        if s == idx {
                            assert(seq![idx][0] == s);
                        }
                    }
                }
            }
            idx += 1;
        }
        let mut forward = self.reachable_from(&init_states);
        let rev = self.reversed();
        proof {
            assert(rev@.num() == self@.num());
        }
        let backward = rev.reachable_from(&final_states);
        let ghost fw = forward@;
        crate::state_set::intersect_with(&mut forward, &backward);
        proof {
            assert forall|i: int| 0 <= i < forward@.len() implies (#[trigger] forward@[i]) < n by {
                assert(forward@.contains(forward@[i]));
                assert(fw.contains(forward@[i]));
                let j = choose|j: int| 0 <= j < fw.len() && fw[j] == forward@[i];
                assert(fw[j] < n);
            }
            assert forall|s: int| #[trigger]
                index_set(forward@).contains(s) <==> self@.is_live(s) by {
                let e = self@.rel(true);
                if 0 <= s <= usize::MAX {
                    lemma_index_set(forward@, s as usize);
                    lemma_index_set(fw, s as usize);
                    lemma_index_set(backward@, s as usize);
                }
                assert(index_set(fw).contains(s) == self@.reachable(init_states@).contains(s));
                assert(index_set(backward@).contains(s) == rev@.reachable(final_states@).contains(
                    s,
                ));
                if index_set(forward@).contains(s) {
                    let i = choose|i: int|
                        index_set(init_states@).contains(i) && #[trigger] reaches(e, i, s);
                    assert(self@.is_initial(i));
                    let f = choose|f: int|
                        index_set(final_states@).contains(f) && #[trigger] reaches(
                            rev@.rel(true),
                            f,
                            s,
                        );
                    lemma_mirror_reaches(rev@, self@, true, s, f);
                    assert(self@.is_accepting(f) && reaches(e, s, f));
                }
                if self@.is_live(s) {
                    let i = choose|i: int| self@.is_initial(i) && #[trigger] reaches(e, i, s);
                    let f = choose|f: int| self@.is_accepting(f) && #[trigger] reaches(e, s, f);
                    assert(index_set(init_states@).contains(i));
                    assert(reach_from(e, index_set(init_states@), s));
                    lemma_mirror_reaches(rev@, self@, true, s, f);
                    assert(index_set(final_states@).contains(f));
                    assert(reach_from(rev@.rel(true), index_set(final_states@), s));
                    assert(index_set(fw).contains(s));
                    assert(index_set(backward@).contains(s));
                    let j = choose|j: int| 0 <= j < fw.len() && #[trigger] fw[j] == s;
                    assert(0 <= s <= usize::MAX);
                }
            }
        }
        forward
    }
}

/// The indices of two sequences, one behind the other.
pub proof fn lemma_index_set_concat(a: Seq<usize>, b: Seq<usize>, x: int)
    ensures
        index_set(a + b).contains(x) <==> (index_set(a).contains(x) || index_set(b).contains(x)),
{
    let c = a + b;
    if index_set(a).contains(x) {
        let k = choose|k: int| 0 <= k < a.len() && #[trigger] a[k] == x;
        assert(c[k] == x);
    }
    if index_set(b).contains(x) {
        let k = choose|k: int| 0 <= k < b.len() && #[trigger] b[k] == x;
        assert(c[a.len() + k] == x);
    }
    if index_set(c).contains(x) {
        let k = choose|k: int| 0 <= k < c.len() && #[trigger] c[k] == x;
        if k < a.len() {
            assert(a[k] == x);
        } else {
            assert(b[k - a.len()] == x);
        }
    }
}

/// Reversing twice gives the transitions back, between the same states.
pub proof fn lemma_reverse_round_trip(a: NfaView, b: NfaView, c: NfaView)
    requires
        is_reverse_of(b, a),
        is_reverse_of(c, b),
    ensures
        c.states.len() == a.states.len(),
        c.consuming_set() == a.consuming_set(),
        c.eps_set() == a.eps_set(),
        c.predicate_set() == a.predicate_set(),
        forall|s: int| 0 <= s < a.states.len() ==> (#[trigger] c.states[s]).accept == a.states[s].accept,
{
    assert forall|e: (int, CharRange, int)| c.consuming_set().contains(e) <==> a.consuming_set().contains(e) by {
        assert(c.has_consuming(e.0, e.1, e.2) <==> b.has_consuming(e.2, e.1, e.0));
        assert(b.has_consuming(e.2, e.1, e.0) <==> a.has_consuming(e.0, e.1, e.2));
    }
    assert forall|e: (int, int)| c.eps_set().contains(e) <==> a.eps_set().contains(e) by {
        assert(c.eps_edge(e.0, e.1) <==> b.eps_edge(e.1, e.0));
        assert(b.eps_edge(e.1, e.0) <==> a.eps_edge(e.0, e.1));
    }
    assert forall|e: (int, PredicateView, int)| c.predicate_set().contains(e) <==> a.predicate_set().contains(e) by {
        assert(c.has_predicate(e.0, e.1, e.2) <==> b.has_predicate(e.2, e.1, e.0));
        assert(b.has_predicate(e.2, e.1, e.0) <==> a.has_predicate(e.0, e.1, e.2));
    }
    assert(c.consuming_set() =~= a.consuming_set());
    assert(c.eps_set() =~= a.eps_set());
    assert(c.predicate_set() =~= a.predicate_set());
    assert forall|s: int| 0 <= s < a.states.len() implies (#[trigger] c.states[s]).accept
        == a.states[s].accept by {
        assert(b.states[s].accept == a.states[s].accept);
    }
}

} // verus!
