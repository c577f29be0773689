//! Deterministic automata, as determinisation builds them.

use crate::char_map::{CharMap, CharRange};
use crate::transition::DfaAccept;
use vstd::prelude::*;
use vstd::seq_lib::to_multiset_insert;

verus! {

/// A state of a deterministic automaton.
#[derive(Debug)]
pub struct DfaState {
    /// The transitions out of the state: a range of characters, and where it leads.
    pub transitions: CharMap<usize>,
    /// When the state accepts.
    pub accept: DfaAccept,
}

/// A state of a deterministic automaton, as contracts see it.
pub struct DfaStateView {
    pub transitions: Seq<(CharRange, usize)>,
    pub accept: DfaAccept,
}

impl View for DfaState {
    type V = DfaStateView;

    open spec fn view(&self) -> DfaStateView {
        DfaStateView { transitions: self.transitions@, accept: self.accept }
    }
}

/// A deterministic automaton.
#[derive(Debug)]
pub struct Dfa {
    pub states: Vec<DfaState>,
    /// The state in which a match starts anywhere, if it can.
    pub init_otherwise: Option<usize>,
    /// The state in which a match starts at the beginning of the input, if it can.
    pub init_at_start: Option<usize>,
    /// The state in which a match starts behind a character of the given range.
    pub init_after_char: CharMap<usize>,
}

/// A deterministic automaton, as contracts see it.
pub struct DfaView {
    pub states: Seq<DfaStateView>,
    pub init_otherwise: Option<usize>,
    pub init_at_start: Option<usize>,
    pub init_after_char: Seq<(CharRange, usize)>,
}

impl View for Dfa {
    type V = DfaView;

    open spec fn view(&self) -> DfaView {
        DfaView {
            states: Seq::new(self.states@.len(), |i: int| self.states@[i]@),
            init_otherwise: self.init_otherwise,
            init_at_start: self.init_at_start,
            init_after_char: self.init_after_char@,
        }
    }
}

/// Whether the ranges of `s` never start earlier than the one before.
pub open spec fn by_start(s: Seq<(CharRange, usize)>) -> bool {
    forall|i: int, j: int| 0 <= i < j < s.len() ==> (#[trigger] s[i]).0.start <= (#[trigger] s[j]).0.start
}

impl DfaView {
    /// The number of states.
    pub open spec fn num(self) -> int {
        self.states.len() as int
    }

    /// Whether every state that the automaton names is one of its states.
    pub open spec fn wf(self) -> bool {
        &&& forall|s: int, k: int|
            0 <= s < self.states.len() && 0 <= k < self.states[s].transitions.len() ==> (
            #[trigger] self.states[s].transitions[k]).1 < self.num()
        &&& self.init_otherwise is Some ==> self.init_otherwise.unwrap() < self.num()
        &&& self.init_at_start is Some ==> self.init_at_start.unwrap() < self.num()
        &&& forall|k: int|
            0 <= k < self.init_after_char.len() ==> (#[trigger] self.init_after_char[k]).1
                < self.num()
    }

    /// The automaton with one more state, which accepts as `accept` says.
    pub open spec fn push_state(self, accept: DfaAccept) -> DfaView {
        DfaView {
            states: self.states.push(DfaStateView { transitions: Seq::empty(), accept }),
            init_otherwise: self.init_otherwise,
            init_at_start: self.init_at_start,
            init_after_char: self.init_after_char,
        }
    }

    /// The automaton with one more transition.
    pub open spec fn add_transition(self, from: int, to: usize, range: CharRange) -> DfaView {
        DfaView {
            states: self.states.update(
                from,
                DfaStateView {
                    transitions: self.states[from].transitions.push((range, to)),
                    accept: self.states[from].accept,
                },
            ),
            init_otherwise: self.init_otherwise,
            init_at_start: self.init_at_start,
            init_after_char: self.init_after_char,
        }
    }
}

/// The transitions of `v` by the start of their ranges; transitions with ranges of the
/// same start stay in their order.
pub fn sorted_by_start(v: &CharMap<usize>) -> (r: CharMap<usize>)
    ensures
        by_start(r@),
        r@.to_multiset() == v@.to_multiset(),
        by_start(v@) ==> r@ == v@,
{
    let mut out: Vec<(CharRange, usize)> = Vec::new();
    let mut i: usize = 0;
    proof {
        assert(v@.take(0) =~= Seq::empty());
    }
    while i < v.len()
        invariant
            i <= v@.len(),
            by_start(out@),
            out@.to_multiset() == v@.take(i as int).to_multiset(),
            by_start(v@) ==> out@ == v@.take(i as int),
        decreases v@.len() - i,
    {
        let e = *v.get(i);
        let mut p: usize = out.len();
        while p > 0 && out[p - 1].0.start > e.0.start
            invariant
                p <= out.len(),
                forall|k: int| p <= k < out.len() ==> (#[trigger] out@[k]).0.start > e.0.start,
            decreases p,
        {
            p -= 1;
        }
        let ghost before = out@;
        out.insert(p, e);
        proof {
            let t0 = v@.take(i as int);
            let t1 = v@.take(i as int + 1);
            assert(t1 =~= t0.push(e));
            assert(t1 =~= t0.insert(t0.len() as int, e));
            to_multiset_insert(before, p as int, e);
            to_multiset_insert(t0, t0.len() as int, e);
            assert forall|a: int, b: int| 0 <= a < b < out@.len() implies (#[trigger] out@[a]).0.start <= (
            #[trigger] out@[b]).0.start by {
                if b < p {
                    assert(before[a].0.start <= before[b].0.start);
                } else if b == p {
                    if p > 0 {
                        assert(before[a].0.start <= before[p - 1].0.start);
                    }
                } else if a < p {
                    assert(before[a].0.start <= before[b - 1].0.start);
                } else if a == p {
                    assert(before[b - 1].0.start > e.0.start);
                } else {
                    assert(before[a - 1].0.start <= before[b - 1].0.start);
                }
            }
            if by_start(v@) {
                if p < before.len() {
                    assert(before[p as int] == v@[p as int]);
                    assert(v@[p as int].0.start <= v@[i as int].0.start);
                }
                assert(out@ =~= t1);
            }
        }
        i += 1;
    }
    assert(v@.take(i as int) =~= v@);
    CharMap::from_vec(out)
}

impl Dfa {
    /// An automaton without states.
    pub fn new() -> (r: Dfa)
        ensures
            r@.states.len() == 0,
            r@.init_otherwise is None,
            r@.init_at_start is None,
            r@.init_after_char.len() == 0,
            r@.wf(),
    {
        Dfa {
            states: Vec::new(),
            init_otherwise: None,
            init_at_start: None,
            init_after_char: CharMap::new(),
        }
    }

    /// The number of states.
    pub fn num_states(&self) -> (n: usize)
        ensures
            n == self@.num(),
    {
        self.states.len()
    }

    /// Adds a state without transitions.
    pub fn add_state(&mut self, accept: DfaAccept)
        ensures
            final(self)@ == old(self)@.push_state(accept),
    {
        self.states.push(DfaState { transitions: CharMap::new(), accept });
        assert(self@.states =~= old(self)@.push_state(accept).states);
    }

    /// Adds a transition from `from` to `to` on the characters of `range`.
    pub fn add_transition(&mut self, from: usize, to: usize, range: CharRange)
        requires
            from < old(self)@.num(),
        ensures
            final(self)@ == old(self)@.add_transition(from as int, to, range),
    {
        self.states[from].transitions.push(range, to);
        assert(self@.states =~= old(self)@.add_transition(from as int, to, range).states);
    }

    /// Puts the transitions of each state in the order of their ranges, for a search by
    /// bisection.
    pub fn sort_transitions(&mut self)
        ensures
            final(self)@.states.len() == old(self)@.states.len(),
            final(self)@.init_otherwise == old(self)@.init_otherwise,
            final(self)@.init_at_start == old(self)@.init_at_start,
            final(self)@.init_after_char == old(self)@.init_after_char,
            forall|s: int|
                0 <= s < old(self)@.states.len() ==> {
                    &&& (#[trigger] final(self)@.states[s]).accept == old(self)@.states[s].accept
                    &&& by_start(final(self)@.states[s].transitions)
                    &&& final(self)@.states[s].transitions.to_multiset() == old(
                        self,
                    )@.states[s].transitions.to_multiset()
                    &&& by_start(old(self)@.states[s].transitions) ==> final(self)@.states[s].transitions == old(self)@.states[s].transitions
                },
    {
        let n = self.states.len();
        let ghost a = self@;
        let mut i: usize = 0;
        while i < n
            invariant
                i <= n,
                n == self.states@.len(),
                a.states.len() == n,
                self@.init_otherwise == a.init_otherwise,
                self@.init_at_start == a.init_at_start,
                self@.init_after_char == a.init_after_char,
                forall|s: int| i <= s < n ==> #[trigger] self@.states[s] == a.states[s],
                forall|s: int|
                    0 <= s < i ==> {
                        &&& (#[trigger] self@.states[s]).accept == a.states[s].accept
                        &&& by_start(self@.states[s].transitions)
                        &&& self@.states[s].transitions.to_multiset()
                            == a.states[s].transitions.to_multiset()
                        &&& by_start(a.states[s].transitions) ==> self@.states[s].transitions
                            == a.states[s].transitions
                    },
            decreases n - i,
        {
            let ghost before = self@;
            let sorted = sorted_by_start(&self.states[i].transitions);
            self.states[i].transitions = sorted;
            proof {
                let b = self@;
                assert forall|s: int| i + 1 <= s < n implies #[trigger] b.states[s] == a.states[s] by {
                    assert(before.states[s] == a.states[s]);
                }
                assert forall|s: int| 0 <= s < i + 1 implies {
                    &&& (#[trigger] b.states[s]).accept == a.states[s].accept
                    &&& by_start(b.states[s].transitions)
                    &&& b.states[s].transitions.to_multiset() == a.states[s].transitions.to_multiset()
                    &&& by_start(a.states[s].transitions) ==> b.states[s].transitions
                        == a.states[s].transitions
                } by {
                    if s < i {
                        assert(b.states[s] == before.states[s]);
                    } else {
                        assert(before.states[s] == a.states[s]);
                    }
                }
            }
            i += 1;
        }
    }
}

} // verus!
