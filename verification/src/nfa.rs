//! Non-deterministic automata over code points, with zero-width predicates.

use crate::char_map::{CharMap, CharMultiMap, CharRange};
use crate::graph::{
    closed, count_false, lemma_closed_reaches, lemma_count_false_set, lemma_reaches_refl,
    lemma_reaches_step, reach_from, reaches,
};
use crate::state_set::{below, ordered, sorted, StateSet};
use crate::transition::{
    Accept, AcceptView, DfaAccept, NfaTransitions, Predicate, PredicateView, TransitionsView,
};
use vstd::prelude::*;

verus! {

/// A state of an automaton.
#[derive(Debug)]
pub struct NfaState {
    pub transitions: NfaTransitions,
    /// Before the automaton is lowered to bytes, this says when the state accepts.
    pub accept: Accept,
    /// After the automaton is lowered to bytes, this says when the state accepts.
    pub dfa_accept: DfaAccept,
}

/// A state, as contracts see it.
pub struct StateView {
    pub transitions: TransitionsView,
    pub accept: AcceptView,
    pub dfa_accept: DfaAccept,
}

impl StateView {
    /// A state without transitions.
    pub open spec fn fresh(accept: AcceptView) -> StateView {
        StateView {
            transitions: TransitionsView::empty(),
            accept,
            dfa_accept: DfaAccept::never_spec(),
        }
    }

    /// The state with other transitions.
    pub open spec fn with_transitions(self, transitions: TransitionsView) -> StateView {
        StateView { transitions, accept: self.accept, dfa_accept: self.dfa_accept }
    }

    /// The state with another acceptance over bytes.
    pub open spec fn with_dfa_accept(self, dfa_accept: DfaAccept) -> StateView {
        StateView { transitions: self.transitions, accept: self.accept, dfa_accept }
    }
}

impl View for NfaState {
    type V = StateView;

    open spec fn view(&self) -> StateView {
        StateView {
            transitions: self.transitions@,
            accept: self.accept@,
            dfa_accept: self.dfa_accept,
        }
    }
}

impl Clone for NfaState {
    fn clone(&self) -> (r: NfaState)
        ensures
            r@ == self@,
    {
        NfaState {
            transitions: self.transitions.clone(),
            accept: self.accept.clone(),
            dfa_accept: self.dfa_accept,
        }
    }
}

impl NfaState {
    /// Whether the two states are the same.
    pub fn same(&self, other: &NfaState) -> (b: bool)
        ensures
            b == (self@ == other@),
    {
        self.transitions.same(&other.transitions) && self.accept.same(&other.accept)
            && self.dfa_accept == other.dfa_accept
    }

    /// A state without transitions that accepts as `accept` says.
    pub fn new(accept: Accept) -> (r: NfaState)
        ensures
            r@ == StateView::fresh(accept@),
    {
        NfaState { transitions: NfaTransitions::new(), accept, dfa_accept: DfaAccept::never() }
    }
}

/// A non-deterministic automaton. It is unanchored: a match may start at any position of
/// the input, in the states of `init`.
///
/// The fields are open to reading. Change them through the methods, which keep every index
/// below the number of states.
#[derive(Debug)]
pub struct Nfa {
    pub states: Vec<NfaState>,
    /// The states in which a match may start anywhere.
    pub init: StateSet,
    /// The states in which a match may start at the beginning of the input only.
    pub init_at_start: StateSet,
    /// The states in which a match may start behind a character of the given range.
    pub init_after_char: CharMap<StateSet>,
}

/// An automaton, as contracts see it.
pub struct NfaView {
    pub states: Seq<StateView>,
    pub init: Seq<usize>,
    pub init_at_start: Seq<usize>,
    pub init_after_char: Seq<(CharRange, Seq<usize>)>,
}

/// The views of a list of states.
pub open spec fn states_view(s: Seq<NfaState>) -> Seq<StateView> {
    Seq::new(s.len(), |i: int| s[i]@)
}

/// The view of a map from ranges to sets of states.
pub open spec fn char_map_view(m: Seq<(CharRange, Vec<usize>)>) -> Seq<(CharRange, Seq<usize>)> {
    Seq::new(m.len(), |i: int| (m[i].0, m[i].1@))
}

impl View for Nfa {
    type V = NfaView;

    open spec fn view(&self) -> NfaView {
        NfaView {
            states: states_view(self.states@),
            init: self.init@,
            init_at_start: self.init_at_start@,
            init_after_char: char_map_view(self.init_after_char@),
        }
    }
}

impl NfaView {
    /// The number of states.
    pub open spec fn num(self) -> int {
        self.states.len() as int
    }

    /// Whether every index that the automaton holds is below the number of its states, its
    /// character sets are normalized, and `init` and `init_at_start` never decrease.
    pub open spec fn wf(self) -> bool {
        &&& forall|s: int|
            0 <= s < self.states.len() ==> (#[trigger] self.states[s]).transitions.wf(self.num())
                && self.states[s].accept.wf()
        &&& below(self.init, self.num())
        &&& below(self.init_at_start, self.num())
        &&& ordered(self.init)
        &&& ordered(self.init_at_start)
        &&& forall|k: int|
            0 <= k < self.init_after_char.len() ==> below(
                (#[trigger] self.init_after_char[k]).1,
                self.num(),
            )
    }

    /// The automaton with `st` in the place of state `s`.
    pub open spec fn with_state(self, s: int, st: StateView) -> NfaView {
        NfaView {
            states: self.states.update(s, st),
            init: self.init,
            init_at_start: self.init_at_start,
            init_after_char: self.init_after_char,
        }
    }

    /// The automaton with other states in which a match may start at the beginning of the
    /// input.
    pub open spec fn with_init_at_start(self, init_at_start: Seq<usize>) -> NfaView {
        NfaView {
            states: self.states,
            init: self.init,
            init_at_start,
            init_after_char: self.init_after_char,
        }
    }

    /// The automaton with other states in which a match may start behind a character.
    pub open spec fn with_init_after_char(
        self,
        init_after_char: Seq<(CharRange, Seq<usize>)>,
    ) -> NfaView {
        NfaView {
            states: self.states,
            init: self.init,
            init_at_start: self.init_at_start,
            init_after_char,
        }
    }

    /// The automaton with `st` as one more state.
    pub open spec fn push_state(self, st: StateView) -> NfaView {
        NfaView {
            states: self.states.push(st),
            init: self.init,
            init_at_start: self.init_at_start,
            init_after_char: self.init_after_char,
        }
    }

    /// The automaton with one more consuming transition, from `from` to `to` on `range`.
    pub open spec fn add_transition(self, from: int, to: usize, range: CharRange) -> NfaView {
        let t = self.states[from].transitions;
        self.with_state(
            from,
            self.states[from].with_transitions(
                TransitionsView {
                    consuming: t.consuming.push((range, to)),
                    eps: t.eps,
                    predicates: t.predicates,
                },
            ),
        )
    }

    /// The automaton with one more ε-transition, from `from` to `to`.
    pub open spec fn add_eps(self, from: int, to: usize) -> NfaView {
        let t = self.states[from].transitions;
        self.with_state(
            from,
            self.states[from].with_transitions(
                TransitionsView {
                    consuming: t.consuming,
                    eps: t.eps.push(to),
                    predicates: t.predicates,
                },
            ),
        )
    }

    /// The automaton with one more predicate transition, from `from` to `to` under `pred`.
    pub open spec fn add_predicate(self, from: int, to: usize, pred: PredicateView) -> NfaView {
        let t = self.states[from].transitions;
        self.with_state(
            from,
            self.states[from].with_transitions(
                TransitionsView {
                    consuming: t.consuming,
                    eps: t.eps,
                    predicates: t.predicates.push((pred, to)),
                },
            ),
        )
    }

    /// Whether a consuming transition on `range` leads from `s` to `t`.
    pub open spec fn has_consuming(self, s: int, range: CharRange, t: int) -> bool {
        0 <= s < self.states.len() && exists|k: int|
            0 <= k < self.states[s].transitions.consuming.len()
                && #[trigger] self.states[s].transitions.consuming[k] == (range, t as usize) && t
                == t as usize
    }

    /// Whether a predicate transition under `pred` leads from `s` to `t`.
    pub open spec fn has_predicate(self, s: int, pred: PredicateView, t: int) -> bool {
        0 <= s < self.states.len() && exists|k: int|
            0 <= k < self.states[s].transitions.predicates.len()
                && #[trigger] self.states[s].transitions.predicates[k] == (pred, t as usize) && t
                == t as usize
    }

    /// The consuming transitions, each as its source, its range and its target.
    pub open spec fn consuming_set(self) -> Set<(int, CharRange, int)> {
        Set::new(|e: (int, CharRange, int)| self.has_consuming(e.0, e.1, e.2))
    }

    /// The ε-transitions, each as its source and its target.
    pub open spec fn eps_set(self) -> Set<(int, int)> {
        Set::new(|e: (int, int)| self.eps_edge(e.0, e.1))
    }

    /// The predicate transitions, each as its source, its predicate and its target.
    pub open spec fn predicate_set(self) -> Set<(int, PredicateView, int)> {
        Set::new(|e: (int, PredicateView, int)| self.has_predicate(e.0, e.1, e.2))
    }

    /// Whether a match may start in `s`: always, at the beginning of the input, or behind
    /// some character.
    pub open spec fn is_initial(self, s: int) -> bool {
        ||| index_set(self.init).contains(s)
        ||| index_set(self.init_at_start).contains(s)
        ||| exists|k: int|
            0 <= k < self.init_after_char.len() && index_set(
                (#[trigger] self.init_after_char[k]).1,
            ).contains(s)
    }

    /// Whether `s` accepts in some circumstance.
    pub open spec fn is_accepting(self, s: int) -> bool {
        0 <= s < self.states.len() && self.states[s].accept != AcceptView::never()
    }

    /// Whether `s` is reached from an initial state and reaches an accepting state, by
    /// transitions of any kind.
    pub open spec fn is_live(self, s: int) -> bool {
        &&& exists|i: int| self.is_initial(i) && #[trigger] reaches(self.rel(true), i, s)
        &&& exists|f: int| self.is_accepting(f) && #[trigger] reaches(self.rel(true), s, f)
    }

    /// Whether an ε-transition leads from `s` to `t`.
    pub open spec fn eps_edge(self, s: int, t: int) -> bool {
        0 <= s < self.states.len() && exists|k: int|
            0 <= k < self.states[s].transitions.eps.len()
                && #[trigger] self.states[s].transitions.eps[k] == t
    }

    /// Whether a consuming transition leads from `s` to `t`.
    pub open spec fn consuming_edge(self, s: int, t: int) -> bool {
        0 <= s < self.states.len() && exists|k: int|
            0 <= k < self.states[s].transitions.consuming.len() && (
            #[trigger] self.states[s].transitions.consuming[k]).1 == t
    }

    /// Whether a predicate transition leads from `s` to `t`.
    pub open spec fn predicate_edge(self, s: int, t: int) -> bool {
        0 <= s < self.states.len() && exists|k: int|
            0 <= k < self.states[s].transitions.predicates.len() && (
            #[trigger] self.states[s].transitions.predicates[k]).1 == t
    }

    /// Whether a transition of any kind leads from `s` to `t`.
    pub open spec fn edge(self, s: int, t: int) -> bool {
        self.eps_edge(s, t) || self.consuming_edge(s, t) || self.predicate_edge(s, t)
    }

    /// The ε-transitions as a relation; with `all`, the transitions of every kind.
    pub open spec fn rel(self, all: bool) -> spec_fn(int, int) -> bool {
        |s: int, t: int|
            if all {
                self.edge(s, t)
            } else {
                self.eps_edge(s, t)
            }
    }

    /// The states that are reached from those of `from` by ε-transitions alone.
    pub open spec fn eps_closure(self, from: Seq<usize>) -> Set<int> {
        Set::new(|t: int| reach_from(self.rel(false), index_set(from), t))
    }

    /// The states that are reached from those of `from` by transitions of any kind.
    pub open spec fn reachable(self, from: Seq<usize>) -> Set<int> {
        Set::new(|t: int| reach_from(self.rel(true), index_set(from), t))
    }
}

/// The indices that `s` holds, as a set.
pub open spec fn index_set(s: Seq<usize>) -> Set<int> {
    Set::new(|x: int| exists|k: int| 0 <= k < s.len() && #[trigger] s[k] == x)
}

/// What the search holds between two steps: every state that is marked is reached from a
/// start state, every start state is marked, and every transition out of a marked state
/// leads to a marked state, unless that state still waits in `work` or is `cur`.
pub open spec fn search_inv(
    nv: NfaView,
    all: bool,
    start: Seq<usize>,
    seen: Seq<bool>,
    work: Seq<usize>,
    cur: int,
) -> bool {
    &&& seen.len() == nv.states.len()
    &&& forall|k: int| 0 <= k < work.len() ==> (#[trigger] work[k]) < seen.len() && seen[work[k] as int]
    &&& forall|s: int|
        0 <= s < seen.len() && #[trigger] seen[s] ==> reach_from(nv.rel(all), index_set(start), s)
    &&& forall|s: int, t: int|
        0 <= s < seen.len() && seen[s] && #[trigger] (nv.rel(all))(s, t) ==> (0 <= t < seen.len()
            && seen[t]) || work.contains(s as usize) || s == cur
}

impl Clone for Nfa {
    fn clone(&self) -> (r: Nfa)
        ensures
            r@ == self@,
    {
        let mut states: Vec<NfaState> = Vec::new();
        let mut i: usize = 0;
        while i < self.states.len()
            invariant
                i <= self.states.len(),
                states@.len() == i,
                forall|k: int| 0 <= k < i ==> (#[trigger] states@[k])@ == self.states@[k]@,
            decreases self.states.len() - i,
        {
            states.push(self.states[i].clone());
            i += 1;
        }
        let r = Nfa {
            states,
            init: crate::state_set::copy(&self.init),
            init_at_start: crate::state_set::copy(&self.init_at_start),
            init_after_char: self.init_after_char.clone(),
        };
        assert(r@.states =~= self@.states);
        assert(char_map_view(r.init_after_char@) == crate::char_map::sets_of(r.init_after_char@));
        assert(char_map_view(self.init_after_char@) == crate::char_map::sets_of(
            self.init_after_char@,
        ));
        r
    }
}

impl Nfa {
    /// Whether the automaton is well formed: every index that it holds is below the number
    /// of its states, and its sets of code points are normalized.
    pub open spec fn wf(self) -> bool {
        self@.wf()
    }

    /// Whether the two automata are the same: the same states with the same transitions
    /// in the same order, and the same initial states.
    pub fn same(&self, other: &Nfa) -> (b: bool)
        ensures
            b == (self@ == other@),
    {
        proof {
            assert(char_map_view(self.init_after_char@) == crate::char_map::sets_of(
                self.init_after_char@,
            ));
            assert(char_map_view(other.init_after_char@) == crate::char_map::sets_of(
                other.init_after_char@,
            ));
        }
        if self.states.len() != other.states.len() {
            assert(self@.states.len() != other@.states.len());
            return false;
        }
        let mut i: usize = 0;
        while i < self.states.len()
            invariant
                i <= self.states.len(),
                self.states.len() == other.states.len(),
                forall|k: int| 0 <= k < i ==> self@.states[k] == other@.states[k],
            decreases self.states.len() - i,
        {
            if !self.states[i].same(&other.states[i]) {
                assert(self@.states[i as int] != other@.states[i as int]);
                return false;
            }
            i += 1;
        }
        assert(self@.states =~= other@.states);
        crate::state_set::same(&self.init, &other.init) && crate::state_set::same(
            &self.init_at_start,
            &other.init_at_start,
        ) && self.init_after_char.same(&other.init_after_char)
    }

    /// An automaton without states.
    pub fn new() -> (r: Nfa)
        ensures
            r@.states.len() == 0,
            r@.init.len() == 0,
            r@.init_at_start.len() == 0,
            r@.init_after_char.len() == 0,
            r.wf(),
    {
        Nfa::with_capacity(0)
    }

    /// An automaton without states, with room for `n` of them.
    pub fn with_capacity(n: usize) -> (r: Nfa)
        ensures
            r@.states.len() == 0,
            r@.init.len() == 0,
            r@.init_at_start.len() == 0,
            r@.init_after_char.len() == 0,
            r.wf(),
    {
        Nfa {
            states: Vec::with_capacity(n),
            init: Vec::new(),
            init_at_start: Vec::new(),
            init_after_char: CharMap::new(),
        }
    }

    /// The number of states.
    pub fn num_states(&self) -> (n: usize)
        ensures
            n == self@.states.len(),
    {
        self.states.len()
    }

    /// Adds a state without transitions that accepts as `accept` says. Its index is the
    /// number of states before the call.
    pub fn add_state(&mut self, accept: Accept)
        requires
            old(self).wf(),
            accept.wf(),
        ensures
            final(self)@ == old(self)@.push_state(StateView::fresh(accept@)),
            final(self).wf(),
    {
        self.states.push(NfaState::new(accept));
        proof {
            assert(self@.states =~= old(self)@.states.push(StateView::fresh(accept@)));
            lemma_wf_push_state(old(self)@, StateView::fresh(accept@));
        }
    }

    /// Adds a transition from `from` to `to` that consumes a character of `r`.
    pub fn add_transition(&mut self, from: usize, to: usize, r: CharRange)
        requires
            old(self).wf(),
            from < old(self)@.num(),
            to < old(self)@.num(),
        ensures
            final(self)@ == old(self)@.add_transition(from as int, to, r),
            final(self).wf(),
    {
        self.states[from].transitions.consuming.push(r, to);
        proof {
            assert(self@.states =~= old(self)@.add_transition(from as int, to, r).states);
            lemma_wf_add_transition(old(self)@, from as int, to, r);
        }
    }

    /// Adds a transition from `from` to `to` that consumes nothing.
    pub fn add_eps(&mut self, from: usize, to: usize)
        requires
            old(self).wf(),
            from < old(self)@.num(),
            to < old(self)@.num(),
        ensures
            final(self)@ == old(self)@.add_eps(from as int, to),
            final(self).wf(),
    {
        self.states[from].transitions.eps.push(to);
        proof {
            assert(self@.states =~= old(self)@.add_eps(from as int, to).states);
            lemma_wf_add_eps(old(self)@, from as int, to);
        }
    }

    /// Adds a transition from `from` to `to` that consumes nothing and may be taken only
    /// where `pred` holds.
    pub fn add_predicate(&mut self, from: usize, to: usize, pred: Predicate)
        requires
            old(self).wf(),
            pred.wf(),
            from < old(self)@.num(),
            to < old(self)@.num(),
        ensures
            final(self)@ == old(self)@.add_predicate(from as int, to, pred@),
            final(self).wf(),
    {
        let ghost pv = pred@;
        self.states[from].transitions.predicates.push((pred, to));
        proof {
            assert(self@.states[from as int].transitions.predicates =~= old(
                self,
            )@.states[from as int].transitions.predicates.push((pv, to)));
            assert(self@.states =~= old(self)@.add_predicate(from as int, to, pv).states);
            lemma_wf_add_predicate(old(self)@, from as int, to, pv);
        }
    }

    /// Makes `st` a state in which a match may start anywhere.
    pub fn add_init_state(&mut self, st: usize)
        requires
            old(self).wf(),
            st < old(self)@.num(),
        ensures
            final(self).wf(),
            final(self)@.states == old(self)@.states,
            final(self)@.init_at_start == old(self)@.init_at_start,
            final(self)@.init_after_char == old(self)@.init_after_char,
            ordered(final(self)@.init),
            exists|p: int|
                0 <= p <= old(self)@.init.len() && final(self)@.init == old(self)@.init.insert(
                    p,
                    st,
                ),
    {
        crate::state_set::insert_ordered(&mut self.init, st);
        proof {
            lemma_below_insert(old(self)@.init, self@.init, st, self@.num());
            assert(self@.init_after_char == old(self)@.init_after_char);
            lemma_wf_same_states(old(self)@, self@);
        }
    }

    /// Makes `st` a state in which a match may start at the beginning of the input.
    pub fn add_init_at_start_state(&mut self, st: usize)
        requires
            old(self).wf(),
            st < old(self)@.num(),
        ensures
            final(self).wf(),
            final(self)@.states == old(self)@.states,
            final(self)@.init == old(self)@.init,
            final(self)@.init_after_char == old(self)@.init_after_char,
            ordered(final(self)@.init_at_start),
            exists|p: int|
                0 <= p <= old(self)@.init_at_start.len() && final(self)@.init_at_start == old(
                    self,
                )@.init_at_start.insert(p, st),
    {
        crate::state_set::insert_ordered(&mut self.init_at_start, st);
        proof {
            lemma_below_insert(old(self)@.init_at_start, self@.init_at_start, st, self@.num());
            assert(self@.init_after_char == old(self)@.init_after_char);
            lemma_wf_same_states(old(self)@, self@);
        }
    }

    /// Sets when the state `st` accepts once the automaton is lowered to bytes.
    pub fn set_byte_accept(&mut self, st: usize, accept: DfaAccept)
        requires
            old(self).wf(),
            st < old(self)@.num(),
        ensures
            final(self)@ == old(self)@.with_state(
                st as int,
                old(self)@.states[st as int].with_dfa_accept(accept),
            ),
            final(self).wf(),
    {
        self.states[st].dfa_accept = accept;
        proof {
            assert(self@.states =~= old(self)@.states.update(
                st as int,
                old(self)@.states[st as int].with_dfa_accept(accept),
            ));
            let a = old(self)@;
            let b = self@;
            assert forall|s: int| 0 <= s < b.states.len() implies (
            #[trigger] b.states[s]).transitions.wf(b.num()) && b.states[s].accept.wf() by {
                assert(a.states[s].transitions.wf(a.num()));
            }
        }
    }

    /// Marks `t`, and puts it on the work list if it was not marked before.
    fn visit(
        &self,
        all: bool,
        start: &Vec<usize>,
        seen: &mut Vec<bool>,
        work: &mut Vec<usize>,
        s: usize,
        t: usize,
    )
        requires
            search_inv(self@, all, start@, old(seen)@, old(work)@, s as int),
            s < old(seen)@.len(),
            t < old(seen)@.len(),
            old(seen)@[s as int],
            (self@.rel(all))(s as int, t as int),
        ensures
            search_inv(self@, all, start@, final(seen)@, final(work)@, s as int),
            final(seen)@ == old(seen)@.update(t as int, true),
            final(work)@.len() >= old(work)@.len(),
            count_false(final(seen)@) <= count_false(old(seen)@),
            final(work)@.len() > old(work)@.len() ==> count_false(final(seen)@) < count_false(
                old(seen)@,
            ),
    {
        if !seen[t] {
            let ghost seen0 = seen@;
            let ghost work0 = work@;
            seen.set(t, true);
            work.push(t);
            proof {
                lemma_count_false_set(seen0, t as int);
                let e = self@.rel(all);
                let from = index_set(start@);
                let o = choose|o: int| from.contains(o) && #[trigger] reaches(e, o, s as int);
                lemma_reaches_step(e, o, s as int, t as int);
                assert(reach_from(e, from, t as int));
                assert forall|k: int| 0 <= k < work@.len() implies (#[trigger] work@[k]) < seen@.len()
                    && seen@[work@[k] as int] by {
                    if k < work0.len() {
                        assert(work0[k] < seen0.len());
                    }
                }
                assert forall|x: int, y: int|
                    0 <= x < seen@.len() && seen@[x] && #[trigger] e(x, y) implies (0 <= y
                    < seen@.len() && seen@[y]) || work@.contains(x as usize) || x == s by {
                    if x == t {
                        assert(work@[work0.len() as int] == t);
                    } else {
                        assert(seen0[x]);
                        if work0.contains(x as usize) {
                            let k = choose|k: int| 0 <= k < work0.len() && work0[k] == x as usize;
                            assert(work@[k] == x as usize);
                        }
                    }
                }
            }
        } else {
            assert(seen@.update(t as int, true) =~= seen@);
        }
    }

    /// The states that are reached from those of `start`, in increasing order: by
    /// ε-transitions alone, or, with `all`, by transitions of every kind.
    fn search(&self, start: &Vec<usize>, all: bool) -> (r: Vec<usize>)
        requires
            self.wf(),
            below(start@, self@.num()),
        ensures
            sorted(r@),
            below(r@, self@.num()),
            forall|t: int|
                #![trigger index_set(r@).contains(t)]
                index_set(r@).contains(t) <==> reach_from(self@.rel(all), index_set(start@), t),
    {
        let n = self.states.len();
        let ghost e = self@.rel(all);
        let ghost from = index_set(start@);
        let mut seen: Vec<bool> = Vec::new();
        let mut i: usize = 0;
        while i < n
            invariant
                i <= n,
                seen@.len() == i,
                forall|k: int| 0 <= k < i ==> !seen@[k],
            decreases n - i,
        {
            seen.push(false);
            i += 1;
        }
        let mut work: Vec<usize> = Vec::new();
        i = 0;
        while i < start.len()
            invariant
                i <= start.len(),
                n == self@.states.len(),
                below(start@, self@.num()),
                seen@.len() == n,
                e == self@.rel(all),
                from == index_set(start@),
                forall|k: int| 0 <= k < work@.len() ==> (#[trigger] work@[k]) < n && seen@[work@[k] as int],
                forall|s: int| 0 <= s < n && #[trigger] seen@[s] ==> from.contains(s),
                forall|s: int| 0 <= s < n && seen@[s] ==> work@.contains(s as usize),
                forall|k: int| 0 <= k < i ==> seen@[(#[trigger] start@[k]) as int],
            decreases start.len() - i,
        {
            let s = start[i];
            if !seen[s] {
                let ghost seen0 = seen@;
                let ghost work0 = work@;
                seen.set(s, true);
                work.push(s);
                proof {
                    assert forall|k: int| 0 <= k < work@.len() implies (#[trigger] work@[k]) < n
                        && seen@[work@[k] as int] by {
                        if k < work0.len() {
                            assert(work0[k] < n);
                        }
                    }
                    assert forall|x: int| 0 <= x < n && seen@[x] implies work@.contains(
                        x as usize,
                    ) by {
                        if x == s {
                            assert(work@[work0.len() as int] == s);
                        } else {
                            let k = choose|k: int| 0 <= k < work0.len() && work0[k] == x as usize;
                            assert(work@[k] == x as usize);
                        }
                    }
                }
            }
            i += 1;
        }
        proof {
            assert forall|s: int| 0 <= s < n && #[trigger] seen@[s] implies reach_from(
                e,
                from,
                s,
            ) by {
                lemma_reaches_refl(e, s);
            }
        }
        while work.len() > 0
            invariant
                self.wf(),
                n == self@.states.len(),
                n == self.states@.len(),
                e == self@.rel(all),
                from == index_set(start@),
                search_inv(self@, all, start@, seen@, work@, -1),
                below(start@, n as int),
                forall|k: int| 0 <= k < start@.len() ==> seen@[(#[trigger] start@[k]) as int],
            decreases count_false(seen@), work@.len(),
        {
            let ghost work0 = work@;
            let ghost seen0 = seen@;
            let s = work.pop().unwrap();
            proof {
                assert(work0[work0.len() - 1] == s);
                assert forall|x: int, y: int|
                    0 <= x < seen@.len() && seen@[x] && #[trigger] e(x, y) implies (0 <= y
                    < seen@.len() && seen@[y]) || work@.contains(x as usize) || x == s by {
                    if work0.contains(x as usize) && x != s {
                        let k = choose|k: int| 0 <= k < work0.len() && work0[k] == x as usize;
                        assert(work@[k] == x as usize);
                    }
                }
                assert(self@.states[s as int] == self.states@[s as int]@);
                assert(self@.states[s as int].transitions.wf(n as int));
            }
            let tr = &self.states[s].transitions;
            proof {
                assert forall|j: int| 0 <= j < tr.eps@.len() implies (#[trigger] tr.eps@[j]) < n by {
                    assert(tr@.eps[j] < n);
                }
                assert forall|j: int| 0 <= j < tr.consuming@.len() implies (
                #[trigger] tr.consuming@[j]).1 < n by {
                    assert(tr@.consuming[j].1 < n);
                }
                assert forall|j: int| 0 <= j < tr.predicates@.len() implies (
                #[trigger] tr.predicates@[j]).1 < n by {
                    assert(tr@.predicates[j].1 < n);
                }
            }
            let mut k: usize = 0;
            while k < tr.eps.len()
                invariant
                    k <= tr.eps.len(),
                    s < n,
                    n == self@.states.len(),
                    e == self@.rel(all),
                    tr@ == self@.states[s as int].transitions,
                    tr@.wf(n as int),
                    seen@.len() == n,
                    forall|j: int| 0 <= j < tr.eps@.len() ==> (#[trigger] tr.eps@[j]) < n,
                    seen@[s as int],
                    search_inv(self@, all, start@, seen@, work@, s as int),
                    forall|j: int| 0 <= j < k ==> seen@[(#[trigger] tr.eps@[j]) as int],
                    forall|x: int| 0 <= x < n && seen0[x] ==> seen@[x],
                    work@.len() >= work0.len() - 1,
                    count_false(seen@) <= count_false(seen0),
                    work@.len() > work0.len() - 1 ==> count_false(seen@) < count_false(seen0),
                decreases tr.eps.len() - k,
            {
                let t = tr.eps[k];
                proof {
                    assert(tr@.eps[k as int] == t);
                    assert(self@.eps_edge(s as int, t as int));
                }
                self.visit(all, start, &mut seen, &mut work, s, t);
                k += 1;
            }
            if all {
                let mut k: usize = 0;
                while k < tr.consuming.len()
                    invariant
                        k <= tr.consuming@.len(),
                        all,
                        s < n,
                        n == self@.states.len(),
                        e == self@.rel(all),
                        tr@ == self@.states[s as int].transitions,
                        tr@.wf(n as int),
                        seen@.len() == n,
                        forall|j: int| 0 <= j < tr.eps@.len() ==> (#[trigger] tr.eps@[j]) < n,
                        forall|j: int|
                            0 <= j < tr.consuming@.len() ==> (#[trigger] tr.consuming@[j]).1 < n,
                        forall|j: int|
                            0 <= j < tr.predicates@.len() ==> (#[trigger] tr.predicates@[j]).1 < n,
                        seen@[s as int],
                        search_inv(self@, all, start@, seen@, work@, s as int),
                        forall|j: int| 0 <= j < tr.eps@.len() ==> seen@[(#[trigger] tr.eps@[j]) as int],
                        forall|j: int| 0 <= j < k ==> seen@[(#[trigger] tr.consuming@[j]).1 as int],
                        forall|x: int| 0 <= x < n && seen0[x] ==> seen@[x],
                        work@.len() >= work0.len() - 1,
                        count_false(seen@) <= count_false(seen0),
                        work@.len() > work0.len() - 1 ==> count_false(seen@) < count_false(seen0),
                    decreases tr.consuming@.len() - k,
                {
                    let t = tr.consuming.get(k).1;
                    proof {
                        assert(tr@.consuming[k as int].1 == t);
                        assert(self@.consuming_edge(s as int, t as int));
                    }
                    self.visit(all, start, &mut seen, &mut work, s, t);
                    k += 1;
                }
                let mut k: usize = 0;
                while k < tr.predicates.len()
                    invariant
                        k <= tr.predicates.len(),
                        all,
                        s < n,
                        n == self@.states.len(),
                        e == self@.rel(all),
                        tr@ == self@.states[s as int].transitions,
                        tr@.wf(n as int),
                        seen@.len() == n,
                        forall|j: int| 0 <= j < tr.eps@.len() ==> (#[trigger] tr.eps@[j]) < n,
                        forall|j: int|
                            0 <= j < tr.consuming@.len() ==> (#[trigger] tr.consuming@[j]).1 < n,
                        forall|j: int|
                            0 <= j < tr.predicates@.len() ==> (#[trigger] tr.predicates@[j]).1 < n,
                        seen@[s as int],
                        search_inv(self@, all, start@, seen@, work@, s as int),
                        forall|j: int| 0 <= j < tr.eps@.len() ==> seen@[(#[trigger] tr.eps@[j]) as int],
                        forall|j: int|
                            0 <= j < tr.consuming@.len() ==> seen@[(#[trigger] tr.consuming@[j]).1 as int],
                        forall|j: int| 0 <= j < k ==> seen@[(#[trigger] tr.predicates@[j]).1 as int],
                        forall|x: int| 0 <= x < n && seen0[x] ==> seen@[x],
                        work@.len() >= work0.len() - 1,
                        count_false(seen@) <= count_false(seen0),
                        work@.len() > work0.len() - 1 ==> count_false(seen@) < count_false(seen0),
                    decreases tr.predicates.len() - k,
                {
                    let t = tr.predicates[k].1;
                    proof {
                        assert(tr@.predicates[k as int].1 == t);
                        assert(self@.predicate_edge(s as int, t as int));
                    }
                    self.visit(all, start, &mut seen, &mut work, s, t);
                    k += 1;
                }
            }
            proof {
                assert forall|x: int, y: int|
                    0 <= x < seen@.len() && seen@[x] && #[trigger] e(x, y) implies (0 <= y
                    < seen@.len() && seen@[y]) || work@.contains(x as usize) || x == -1 by {
                    if x == s {
                        if self@.eps_edge(x, y) {
                            let j = choose|j: int|
                                0 <= j < tr@.eps.len() && #[trigger] tr@.eps[j] == y;
                            assert(seen@[tr.eps@[j] as int]);
                        } else if self@.consuming_edge(x, y) {
                            let j = choose|j: int|
                                0 <= j < tr@.consuming.len() && (#[trigger] tr@.consuming[j]).1 == y;
                            assert(seen@[tr.consuming@[j].1 as int]);
                        } else {
                            let j = choose|j: int|
                                0 <= j < tr@.predicates.len() && (#[trigger] tr@.predicates[j]).1
                                    == y;
                            assert(tr@.predicates[j].1 == tr.predicates@[j].1);
                            assert(seen@[tr.predicates@[j].1 as int]);
                        }
                    }
                }
            }
        }
        let mut out: Vec<usize> = Vec::new();
        i = 0;
        while i < n
            invariant
                i <= n,
                seen@.len() == n,
                sorted(out@),
                forall|k: int| 0 <= k < out@.len() ==> (#[trigger] out@[k]) < i && seen@[out@[k] as int],
                forall|s: int| 0 <= s < i && seen@[s] ==> index_set(out@).contains(s),
            decreases n - i,
        {
            if seen[i] {
                let ghost out0 = out@;
                out.push(i);
                proof {
                    assert forall|s: int| 0 <= s < i + 1 && seen@[s] implies index_set(
                        out@,
                    ).contains(s) by {
                        if s == i {
                            assert(out@[out0.len() as int] == s);
                        } else {
                            assert(index_set(out0).contains(s));
                            let k = choose|k: int| 0 <= k < out0.len() && #[trigger] out0[k] == s;
                            assert(out@[k] == s);
                        }
                    }
                }
            }
            i += 1;
        }
        proof {
            let a = Set::new(|x: int| 0 <= x < n && seen@[x]);
            assert(closed(e, a)) by {
                assert forall|x: int, y: int| a.contains(x) && #[trigger] e(x, y) implies a.contains(
                    y,
                ) by {
                    assert(!work@.contains(x as usize));
                }
            }
            assert forall|t: int|
                #![trigger index_set(out@).contains(t)]
                index_set(out@).contains(t) <==> reach_from(e, from, t) by {
                if reach_from(e, from, t) {
                    let o = choose|o: int| from.contains(o) && #[trigger] reaches(e, o, t);
                    let k = choose|k: int| 0 <= k < start@.len() && #[trigger] start@[k] == o;
                    assert(seen@[start@[k] as int]);
                    assert(a.contains(o));
                    lemma_closed_reaches(e, a, o, t);
                }
                if index_set(out@).contains(t) {
                    let k = choose|k: int| 0 <= k < out@.len() && #[trigger] out@[k] == t;
                    assert(seen@[out@[k] as int]);
                }
            }
        }
        out
    }

    /// The ε-closure of `states`: what is reached from them by ε-transitions alone.
    pub fn eps_closure(&self, states: &StateSet) -> (r: StateSet)
        requires
            self.wf(),
            below(states@, self@.num()),
        ensures
            sorted(r@),
            below(r@, self@.num()),
            index_set(r@) == self@.eps_closure(states@),
    {
        let r = self.search(states, false);
        assert(index_set(r@) =~= self@.eps_closure(states@));
        r
    }

    /// The ε-closure of one state.
    pub fn eps_closure_single(&self, state: usize) -> (r: StateSet)
        requires
            self.wf(),
            state < self@.num(),
        ensures
            sorted(r@),
            below(r@, self@.num()),
            index_set(r@) == self@.eps_closure(seq![state]),
    {
        let mut set = Vec::new();
        set.push(state);
        assert(set@ =~= seq![state]);
        self.eps_closure(&set)
    }

    /// The states that are reached from those of `states` by transitions of any kind.
    pub fn reachable_from(&self, states: &StateSet) -> (r: StateSet)
        requires
            self.wf(),
            below(states@, self@.num()),
        ensures
            sorted(r@),
            below(r@, self@.num()),
            index_set(r@) == self@.reachable(states@),
    {
        let r = self.search(states, true);
        assert(index_set(r@) =~= self@.reachable(states@));
        r
    }
}

/// Targets below `n` are below every greater number.
pub proof fn lemma_transitions_wf_more(t: TransitionsView, n: int, m: int)
    requires
        t.wf(n),
        n <= m,
    ensures
        t.wf(m),
{
}

/// One more state leaves the automaton well formed.
pub proof fn lemma_wf_push_state(a: NfaView, st: StateView)
    requires
        a.wf(),
        st.transitions.wf(a.num() + 1),
        st.accept.wf(),
    ensures
        a.push_state(st).wf(),
{
    let b = a.push_state(st);
    assert forall|s: int| 0 <= s < b.states.len() implies (#[trigger] b.states[s]).transitions.wf(
        b.num(),
    ) && b.states[s].accept.wf() by {
        if s < a.states.len() {
            assert(a.states[s].transitions.wf(a.num()));
            lemma_transitions_wf_more(a.states[s].transitions, a.num(), b.num());
        }
    }
    assert forall|k: int| 0 <= k < b.init_after_char.len() implies below(
        (#[trigger] b.init_after_char[k]).1,
        b.num(),
    ) by {
        assert(below(a.init_after_char[k].1, a.num()));
    }
}

/// Other transitions to states of the automaton leave it well formed.
pub proof fn lemma_wf_with_transitions(a: NfaView, s: int, t: TransitionsView)
    requires
        a.wf(),
        0 <= s < a.num(),
        t.wf(a.num()),
    ensures
        a.with_state(s, a.states[s].with_transitions(t)).wf(),
{
    let b = a.with_state(s, a.states[s].with_transitions(t));
    assert forall|x: int| 0 <= x < b.states.len() implies (#[trigger] b.states[x]).transitions.wf(
        b.num(),
    ) && b.states[x].accept.wf() by {
        assert(a.states[x].transitions.wf(a.num()));
    }
}

/// One more consuming transition leaves the automaton well formed.
pub proof fn lemma_wf_add_transition(a: NfaView, from: int, to: usize, r: CharRange)
    requires
        a.wf(),
        0 <= from < a.num(),
        to < a.num(),
    ensures
        a.add_transition(from, to, r).wf(),
{
    let t = a.states[from].transitions;
    let u = TransitionsView {
        consuming: t.consuming.push((r, to)),
        eps: t.eps,
        predicates: t.predicates,
    };
    assert(t.wf(a.num()));
    assert forall|k: int| 0 <= k < u.consuming.len() implies (#[trigger] u.consuming[k]).1
        < a.num() by {
        if k < t.consuming.len() {
            assert(t.consuming[k].1 < a.num());
        }
    }
    lemma_wf_with_transitions(a, from, u);
}

/// One more ε-transition leaves the automaton well formed.
pub proof fn lemma_wf_add_eps(a: NfaView, from: int, to: usize)
    requires
        a.wf(),
        0 <= from < a.num(),
        to < a.num(),
    ensures
        a.add_eps(from, to).wf(),
{
    let t = a.states[from].transitions;
    let u = TransitionsView { consuming: t.consuming, eps: t.eps.push(to), predicates: t.predicates };
    assert(t.wf(a.num()));
    assert forall|k: int| 0 <= k < u.eps.len() implies (#[trigger] u.eps[k]) < a.num() by {
        if k < t.eps.len() {
            assert(t.eps[k] < a.num());
        }
    }
    lemma_wf_with_transitions(a, from, u);
}

/// One more predicate transition leaves the automaton well formed.
pub proof fn lemma_wf_add_predicate(a: NfaView, from: int, to: usize, p: PredicateView)
    requires
        a.wf(),
        p.wf(),
        0 <= from < a.num(),
        to < a.num(),
    ensures
        a.add_predicate(from, to, p).wf(),
{
    let t = a.states[from].transitions;
    let u = TransitionsView {
        consuming: t.consuming,
        eps: t.eps,
        predicates: t.predicates.push((p, to)),
    };
    assert(t.wf(a.num()));
    assert forall|k: int| 0 <= k < u.predicates.len() implies (#[trigger] u.predicates[k]).1
        < a.num() && u.predicates[k].0.wf() by {
        if k < t.predicates.len() {
            assert(t.predicates[k].1 < a.num());
        }
    }
    lemma_wf_with_transitions(a, from, u);
}

/// A list of indices below `n` with one more such index is a list of indices below `n`.
pub proof fn lemma_below_insert(a: Seq<usize>, b: Seq<usize>, x: usize, n: int)
    requires
        below(a, n),
        x < n,
        exists|p: int| 0 <= p <= a.len() && b == a.insert(p, x),
    ensures
        below(b, n),
{
    let p = choose|p: int| 0 <= p <= a.len() && b == a.insert(p, x);
    assert forall|i: int| 0 <= i < b.len() implies (#[trigger] b[i]) < n by {
        if i < p {
            assert(a[i] < n);
        } else if i > p {
            assert(a[i - 1] < n);
        }
    }
}

/// Well-formedness depends on the states only through their transitions and profiles.
pub proof fn lemma_wf_same_states(a: NfaView, b: NfaView)
    requires
        a.wf(),
        b.states.len() == a.states.len(),
        forall|s: int|
            0 <= s < a.states.len() ==> (#[trigger] b.states[s]).transitions
                == a.states[s].transitions && b.states[s].accept == a.states[s].accept,
        below(b.init, b.num()),
        below(b.init_at_start, b.num()),
        ordered(b.init),
        ordered(b.init_at_start),
        forall|k: int|
            0 <= k < b.init_after_char.len() ==> below((#[trigger] b.init_after_char[k]).1, b.num()),
    ensures
        b.wf(),
{
    assert forall|s: int| 0 <= s < b.states.len() implies (#[trigger] b.states[s]).transitions.wf(
        b.num(),
    ) && b.states[s].accept.wf() by {
        assert(a.states[s].transitions.wf(a.num()));
    }
}

/// A new state brings no transition.
pub proof fn lemma_push_state_edges(a: NfaView, st: StateView)
    requires
        st.transitions == TransitionsView::empty(),
    ensures
        a.push_state(st).consuming_set() == a.consuming_set(),
        a.push_state(st).eps_set() == a.eps_set(),
        a.push_state(st).predicate_set() == a.predicate_set(),
{
    let b = a.push_state(st);
    assert forall|e: (int, CharRange, int)| b.consuming_set().contains(e) <==> a.consuming_set().contains(e) by {
        if 0 <= e.0 < a.states.len() {
            assert(b.states[e.0] == a.states[e.0]);
        }
    }
    assert forall|e: (int, int)| b.eps_set().contains(e) <==> a.eps_set().contains(e) by {
        if 0 <= e.0 < a.states.len() {
            assert(b.states[e.0] == a.states[e.0]);
        }
    }
    assert forall|e: (int, PredicateView, int)| b.predicate_set().contains(e) <==> a.predicate_set().contains(e) by {
        if 0 <= e.0 < a.states.len() {
            assert(b.states[e.0] == a.states[e.0]);
        }
    }
    assert(b.consuming_set() =~= a.consuming_set());
    assert(b.eps_set() =~= a.eps_set());
    assert(b.predicate_set() =~= a.predicate_set());
}

/// One more consuming transition is one more element of the set of them.
pub proof fn lemma_add_transition_edges(a: NfaView, from: int, to: usize, r: CharRange)
    requires
        0 <= from < a.num(),
    ensures
        a.add_transition(from, to, r).consuming_set() == a.consuming_set().insert(
            (from, r, to as int),
        ),
        a.add_transition(from, to, r).eps_set() == a.eps_set(),
        a.add_transition(from, to, r).predicate_set() == a.predicate_set(),
{
    let b = a.add_transition(from, to, r);
    let ca = a.states[from].transitions.consuming;
    let cb = b.states[from].transitions.consuming;
    assert(cb == ca.push((r, to)));
    assert forall|e: (int, CharRange, int)| b.consuming_set().contains(e) <==> a.consuming_set().insert(
        (from, r, to as int),
    ).contains(e) by {
        if e.0 != from {
            if 0 <= e.0 < a.states.len() {
                assert(b.states[e.0] == a.states[e.0]);
            }
        } else {
            if a.has_consuming(e.0, e.1, e.2) {
                let k = choose|k: int| 0 <= k < ca.len() && #[trigger] ca[k] == (e.1, e.2 as usize);
                assert(cb[k] == (e.1, e.2 as usize));
            }
            if e == (from, r, to as int) {
                assert(cb[ca.len() as int] == (r, to));
            }
            if b.has_consuming(e.0, e.1, e.2) {
                let k = choose|k: int| 0 <= k < cb.len() && #[trigger] cb[k] == (e.1, e.2 as usize);
                if k < ca.len() {
                    assert(ca[k] == (e.1, e.2 as usize));
                }
            }
        }
    }
    assert forall|e: (int, int)| b.eps_set().contains(e) <==> a.eps_set().contains(e) by {
        if 0 <= e.0 < a.states.len() {
            assert(b.states[e.0].transitions.eps == a.states[e.0].transitions.eps);
        }
    }
    assert forall|e: (int, PredicateView, int)| b.predicate_set().contains(e) <==> a.predicate_set().contains(e) by {
        if 0 <= e.0 < a.states.len() {
            assert(b.states[e.0].transitions.predicates == a.states[e.0].transitions.predicates);
        }
    }
    assert(b.consuming_set() =~= a.consuming_set().insert((from, r, to as int)));
    assert(b.eps_set() =~= a.eps_set());
    assert(b.predicate_set() =~= a.predicate_set());
}

/// One more ε-transition is one more element of the set of them.
pub proof fn lemma_add_eps_edges(a: NfaView, from: int, to: usize)
    requires
        0 <= from < a.num(),
    ensures
        a.add_eps(from, to).consuming_set() == a.consuming_set(),
        a.add_eps(from, to).eps_set() == a.eps_set().insert((from, to as int)),
        a.add_eps(from, to).predicate_set() == a.predicate_set(),
{
    let b = a.add_eps(from, to);
    let ca = a.states[from].transitions.eps;
    let cb = b.states[from].transitions.eps;
    assert(cb == ca.push(to));
    assert forall|e: (int, int)| b.eps_set().contains(e) <==> a.eps_set().insert(
        (from, to as int),
    ).contains(e) by {
        if e.0 != from {
            if 0 <= e.0 < a.states.len() {
                assert(b.states[e.0] == a.states[e.0]);
            }
        } else {
            if a.eps_edge(e.0, e.1) {
                let k = choose|k: int| 0 <= k < ca.len() && #[trigger] ca[k] == e.1;
                assert(cb[k] == e.1);
            }
            if e == (from, to as int) {
                assert(cb[ca.len() as int] == to);
            }
            if b.eps_edge(e.0, e.1) {
                let k = choose|k: int| 0 <= k < cb.len() && #[trigger] cb[k] == e.1;
                if k < ca.len() {
                    assert(ca[k] == e.1);
                }
            }
        }
    }
    assert forall|e: (int, CharRange, int)| b.consuming_set().contains(e) <==> a.consuming_set().contains(e) by {
        if 0 <= e.0 < a.states.len() {
            assert(b.states[e.0].transitions.consuming == a.states[e.0].transitions.consuming);
        }
    }
    assert forall|e: (int, PredicateView, int)| b.predicate_set().contains(e) <==> a.predicate_set().contains(e) by {
        if 0 <= e.0 < a.states.len() {
            assert(b.states[e.0].transitions.predicates == a.states[e.0].transitions.predicates);
        }
    }
    assert(b.consuming_set() =~= a.consuming_set());
    assert(b.eps_set() =~= a.eps_set().insert((from, to as int)));
    assert(b.predicate_set() =~= a.predicate_set());
}

/// One more predicate transition is one more element of the set of them.
pub proof fn lemma_add_predicate_edges(a: NfaView, from: int, to: usize, p: PredicateView)
    requires
        0 <= from < a.num(),
    ensures
        a.add_predicate(from, to, p).consuming_set() == a.consuming_set(),
        a.add_predicate(from, to, p).eps_set() == a.eps_set(),
        a.add_predicate(from, to, p).predicate_set() == a.predicate_set().insert(
            (from, p, to as int),
        ),
{
    let b = a.add_predicate(from, to, p);
    let ca = a.states[from].transitions.predicates;
    let cb = b.states[from].transitions.predicates;
    assert(cb == ca.push((p, to)));
    assert forall|e: (int, PredicateView, int)| b.predicate_set().contains(e) <==> a.predicate_set().insert(
        (from, p, to as int),
    ).contains(e) by {
        if e.0 != from {
            if 0 <= e.0 < a.states.len() {
                assert(b.states[e.0] == a.states[e.0]);
            }
        } else {
            if a.has_predicate(e.0, e.1, e.2) {
                let k = choose|k: int| 0 <= k < ca.len() && #[trigger] ca[k] == (e.1, e.2 as usize);
                assert(cb[k] == (e.1, e.2 as usize));
            }
            if e == (from, p, to as int) {
                assert(cb[ca.len() as int] == (p, to));
            }
            if b.has_predicate(e.0, e.1, e.2) {
                let k = choose|k: int| 0 <= k < cb.len() && #[trigger] cb[k] == (e.1, e.2 as usize);
                if k < ca.len() {
                    assert(ca[k] == (e.1, e.2 as usize));
                }
            }
        }
    }
    assert forall|e: (int, CharRange, int)| b.consuming_set().contains(e) <==> a.consuming_set().contains(e) by {
        if 0 <= e.0 < a.states.len() {
            assert(b.states[e.0].transitions.consuming == a.states[e.0].transitions.consuming);
        }
    }
    assert forall|e: (int, int)| b.eps_set().contains(e) <==> a.eps_set().contains(e) by {
        if 0 <= e.0 < a.states.len() {
            assert(b.states[e.0].transitions.eps == a.states[e.0].transitions.eps);
        }
    }
    assert(b.consuming_set() =~= a.consuming_set());
    assert(b.eps_set() =~= a.eps_set());
    assert(b.predicate_set() =~= a.predicate_set().insert((from, p, to as int)));
}

/// The set of the indices of a list holds what the list holds.
pub proof fn lemma_index_set(s: Seq<usize>, x: usize)
    ensures
        index_set(s).contains(x as int) <==> s.contains(x),
{
    if index_set(s).contains(x as int) {
        let k = choose|k: int| 0 <= k < s.len() && #[trigger] s[k] == x as int;
        assert(s[k] == x);
    }
    if s.contains(x) {
        let k = choose|k: int| 0 <= k < s.len() && s[k] == x;
        assert(s[k] == x as int);
    }
}

/// A transition between two states consumes a range, or nothing, or nothing under a
/// predicate.
pub proof fn lemma_edge_kinds(a: NfaView, s: int, t: int)
    ensures
        a.consuming_edge(s, t) <==> exists|g: CharRange| #[trigger] a.has_consuming(s, g, t),
        a.predicate_edge(s, t) <==> exists|p: PredicateView| #[trigger] a.has_predicate(s, p, t),
{
    if a.consuming_edge(s, t) {
        let c = a.states[s].transitions.consuming;
        let k = choose|k: int| 0 <= k < c.len() && (#[trigger] c[k]).1 == t;
        assert(c[k] == (c[k].0, t as usize));
        assert(a.has_consuming(s, c[k].0, t));
    }
    if exists|g: CharRange| #[trigger] a.has_consuming(s, g, t) {
        let g = choose|g: CharRange| #[trigger] a.has_consuming(s, g, t);
        let c = a.states[s].transitions.consuming;
        let k = choose|k: int| 0 <= k < c.len() && #[trigger] c[k] == (g, t as usize) && t == t as usize;
        assert(c[k].1 == t);
    }
    if a.predicate_edge(s, t) {
        let c = a.states[s].transitions.predicates;
        let k = choose|k: int| 0 <= k < c.len() && (#[trigger] c[k]).1 == t;
        assert(c[k] == (c[k].0, t as usize));
        assert(a.has_predicate(s, c[k].0, t));
    }
    if exists|p: PredicateView| #[trigger] a.has_predicate(s, p, t) {
        let p = choose|p: PredicateView| #[trigger] a.has_predicate(s, p, t);
        let c = a.states[s].transitions.predicates;
        let k = choose|k: int| 0 <= k < c.len() && #[trigger] c[k] == (p, t as usize) && t == t as usize;
        assert(c[k].1 == t);
    }
}

} // verus!
