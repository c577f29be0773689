//! What a set of states accepts, and where it can go.

use crate::char_map::{
    is_atoms, is_grouping, keys_disjoint, keys_have, lemma_maps_to_push, maps_to, sets_of, CharMap,
    CharMultiMap, CharRange,
};
use crate::graph::{closed, lemma_reach_least_fixed_point, reach_from};
use crate::nfa::{index_set, lemma_index_set, Nfa, NfaView};
use crate::state_set::{below, sorted, StateSet};
use crate::transition::{predicates_view, Accept, AcceptView, DfaAccept, Predicate, PredicateView};
use vstd::prelude::*;

verus! {

impl NfaView {
    /// Whether one of `states` accepts at the end of the input.
    pub open spec fn accepts_at_eoi(self, states: Seq<usize>) -> bool {
        exists|k: int| 0 <= k < states.len() && self.states[(#[trigger] states[k]) as int].accept.at_eoi
    }

    /// Whether one of `states` accepts before the code point `c`.
    pub open spec fn accepts_before(self, states: Seq<usize>, c: u32) -> bool {
        exists|k: int| 0 <= k < states.len() && self.states[(#[trigger] states[k]) as int].accept.has(c)
    }

    /// The byte-level profiles of `states` in one, taken in their order.
    pub open spec fn dfa_accept_of(self, states: Seq<usize>) -> DfaAccept
        decreases states.len(),
    {
        if states.len() == 0 {
            DfaAccept::never_spec()
        } else {
            self.dfa_accept_of(states.drop_last()).union_shortest_spec(
                self.states[states.last() as int].dfa_accept,
            )
        }
    }

    /// The predicate transitions out of `states`, state by state.
    pub open spec fn predicates_of(self, states: Seq<usize>) -> Seq<(PredicateView, usize)>
        decreases states.len(),
    {
        if states.len() == 0 {
            Seq::empty()
        } else {
            self.predicates_of(states.drop_last())
                + self.states[states.last() as int].transitions.predicates
        }
    }

    /// The consuming transitions out of `states`, state by state.
    pub open spec fn consuming_of(self, states: Seq<usize>) -> Seq<(CharRange, usize)>
        decreases states.len(),
    {
        if states.len() == 0 {
            Seq::empty()
        } else {
            self.consuming_of(states.drop_last())
                + self.states[states.last() as int].transitions.consuming
        }
    }

    /// The states to which a consuming transition on `c` leads from one of `states`.
    pub open spec fn step_set(self, states: Seq<usize>, c: u32) -> Set<int> {
        Set::new(
            |t: int| 0 <= t <= usize::MAX && maps_to(self.consuming_of(states), c, t as usize),
        )
    }

    /// The states in which the automaton can be once it has read `c` in one of `states`:
    /// what a consuming transition on `c` leads to, and what ε-transitions reach from there.
    pub open spec fn after(self, states: Seq<usize>, c: u32) -> Set<int> {
        Set::new(|t: int| reach_from(self.rel(false), self.step_set(states, c), t))
    }
}

/// Whether `t` lists what the automaton reads in one of `states` and where it is then: its
/// ranges are the stretches of code points on which the consuming transitions out of
/// `states` do not change, in increasing order, and beside each stands the set of states
/// that these transitions and ε-transitions behind them lead to, in increasing order.
pub open spec fn is_transitions(a: NfaView, states: Seq<usize>, t: Seq<(CharRange, Seq<usize>)>) -> bool {
    &&& is_atoms(a.consuming_of(states), t)
    &&& forall|k: int| 0 <= k < t.len() ==> sorted((#[trigger] t[k]).1) && below(t[k].1, a.num())
    &&& forall|k: int, c: u32|
        0 <= k < t.len() && #[trigger] t[k].0.has(c) ==> index_set(t[k].1) == a.after(states, c)
}

/// What the automaton reads in one of `states`, and where it is then, is listed in one way
/// only.
pub proof fn lemma_transitions_unique(
    a: NfaView,
    states: Seq<usize>,
    t: Seq<(CharRange, Seq<usize>)>,
    u: Seq<(CharRange, Seq<usize>)>,
)
    requires
        is_transitions(a, states, t),
        is_transitions(a, states, u),
    ensures
        t == u,
{
    crate::char_map::lemma_atoms_unique(a.consuming_of(states), t, u);
    assert forall|k: int| 0 <= k < t.len() implies t[k] == u[k] by {
        let c = t[k].0.start;
        assert(t[k].0.has(c));
        assert(u[k].0.has(c));
        assert(index_set(t[k].1) == index_set(u[k].1));
        assert forall|x: usize| t[k].1.contains(x) <==> u[k].1.contains(x) by {
            lemma_index_set(t[k].1, x);
            lemma_index_set(u[k].1, x);
        }
        crate::state_set::lemma_sorted_unique(t[k].1, u[k].1);
    }
    assert(t =~= u);
}

/// Where two lists of transitions lead, one behind the other.
pub proof fn lemma_concat_maps_to(a: Seq<(CharRange, usize)>, b: Seq<(CharRange, usize)>, c: u32, t: usize)
    ensures
        maps_to(a + b, c, t) <==> (maps_to(a, c, t) || maps_to(b, c, t)),
{
    let m = a + b;
    if maps_to(a, c, t) {
        let k = choose|k: int| 0 <= k < a.len() && (#[trigger] a[k]).0.has(c) && a[k].1 == t;
        assert(m[k].0.has(c) && m[k].1 == t);
    }
    if maps_to(b, c, t) {
        let k = choose|k: int| 0 <= k < b.len() && (#[trigger] b[k]).0.has(c) && b[k].1 == t;
        assert(m[a.len() + k].0.has(c) && m[a.len() + k].1 == t);
    }
    if maps_to(m, c, t) {
        let k = choose|k: int| 0 <= k < m.len() && (#[trigger] m[k]).0.has(c) && m[k].1 == t;
        if k < a.len() {
            assert(a[k].0.has(c) && a[k].1 == t);
        } else {
            assert(b[k - a.len()].0.has(c) && b[k - a.len()].1 == t);
        }
    }
}

/// A consuming transition out of `states` leads to a state of the automaton.
pub proof fn lemma_consuming_of_below(a: NfaView, states: Seq<usize>)
    requires
        a.wf(),
        below(states, a.num()),
    ensures
        forall|k: int|
            0 <= k < a.consuming_of(states).len() ==> (#[trigger] a.consuming_of(states)[k]).1
                < a.num(),
    decreases states.len(),
{
    if states.len() > 0 {
        let rest = states.drop_last();
        lemma_consuming_of_below(a, rest);
        let s = states.last() as int;
        assert(states[states.len() - 1] < a.num());
        assert(a.states[s].transitions.wf(a.num()));
        let m = a.consuming_of(states);
        let r = a.consuming_of(rest);
        assert forall|k: int| 0 <= k < m.len() implies (#[trigger] m[k]).1 < a.num() by {
            if k < r.len() {
                assert(r[k].1 < a.num());
            } else {
                assert(a.states[s].transitions.consuming[k - r.len()].1 < a.num());
            }
        }
    }
}

impl Nfa {
    /// When one of `states` accepts.
    pub fn accept(&self, states: &StateSet) -> (r: Accept)
        requires
            self.wf(),
            below(states@, self@.num()),
        ensures
            r.wf(),
            r@.at_eoi == self@.accepts_at_eoi(states@),
            forall|c: u32|
                #![trigger r@.has(c)]
                #![trigger self@.accepts_before(states@, c)]
                r@.has(c) <==> self@.accepts_before(states@, c),
    {
        let mut acc = Accept::never();
        let mut k: usize = 0;
        proof {
            assert forall|c: u32| !acc@.has(c) by {}
        }
        while k < states.len()
            invariant
                k <= states.len(),
                self.wf(),
                below(states@, self@.num()),
                acc.wf(),
                acc@.at_eoi == self@.accepts_at_eoi(states@.take(k as int)),
                forall|c: u32|
                    #![trigger acc@.has(c)]
                    #![trigger self@.accepts_before(states@.take(k as int), c)]
                    acc@.has(c) <==> self@.accepts_before(states@.take(k as int), c),
            decreases states.len() - k,
        {
            let s = states[k];
            proof {
                assert(states@[k as int] < self@.num());
                assert(self@.states[s as int] == self.states@[s as int]@);
                assert(self@.states[s as int].accept.wf());
            }
            let ghost before = acc@;
            let next = acc.union(&self.states[s].accept);
            proof {
                let t0 = states@.take(k as int);
                let t1 = states@.take(k as int + 1);
                let sv = self@.states[s as int].accept;
                assert(t1 =~= t0.push(s));
                assert(next@.is_union(before, sv));
                if self@.accepts_at_eoi(t0) {
                    let j = choose|j: int|
                        0 <= j < t0.len() && self@.states[(#[trigger] t0[j]) as int].accept.at_eoi;
                    assert(self@.states[t1[j] as int].accept.at_eoi);
                }
                if sv.at_eoi {
                    assert(self@.states[t1[k as int] as int].accept.at_eoi);
                }
                if self@.accepts_at_eoi(t1) {
                    let j = choose|j: int|
                        0 <= j < t1.len() && self@.states[(#[trigger] t1[j]) as int].accept.at_eoi;
                    if j < k {
                        assert(self@.states[t0[j] as int].accept.at_eoi);
                    }
                }
                assert forall|c: u32|
                    #![trigger next@.has(c)]
                    #![trigger self@.accepts_before(t1, c)]
                    next@.has(c) <==> self@.accepts_before(t1, c) by {
                    assert(next@.has(c) <==> (before.has(c) || sv.has(c)));
                    assert(before.has(c) <==> self@.accepts_before(t0, c));
                    if self@.accepts_before(t0, c) {
                        let j = choose|j: int|
                            0 <= j < t0.len() && self@.states[(#[trigger] t0[j]) as int].accept.has(
                                c,
                            );
                        assert(self@.states[t1[j] as int].accept.has(c));
                    }
                    if sv.has(c) {
                        assert(self@.states[t1[k as int] as int].accept.has(c));
                    }
                    if self@.accepts_before(t1, c) {
                        let j = choose|j: int|
                            0 <= j < t1.len() && self@.states[(#[trigger] t1[j]) as int].accept.has(
                                c,
                            );
                        if j < k {
                            assert(self@.states[t0[j] as int].accept.has(c));
                        }
                    }
                }
            }
            acc = next;
            k += 1;
        }
        assert(states@.take(k as int) =~= states@);
        acc
    }

    /// When one of `states` accepts, once the automaton is lowered to bytes.
    pub fn dfa_accept(&self, states: &StateSet) -> (r: DfaAccept)
        requires
            below(states@, self@.num()),
        ensures
            r == self@.dfa_accept_of(states@),
    {
        let mut acc = DfaAccept::never();
        let mut k: usize = 0;
        while k < states.len()
            invariant
                k <= states.len(),
                below(states@, self@.num()),
                acc == self@.dfa_accept_of(states@.take(k as int)),
            decreases states.len() - k,
        {
            let s = states[k];
            proof {
                assert(states@[k as int] < self@.num());
                assert(self@.states[s as int] == self.states@[s as int]@);
                let t1 = states@.take(k as int + 1);
                assert(t1.drop_last() =~= states@.take(k as int));
            }
            acc = acc.union_shortest(&self.states[s].dfa_accept);
            k += 1;
        }
        assert(states@.take(k as int) =~= states@);
        acc
    }

    /// The predicate transitions out of `states`, state by state.
    pub fn predicates(&self, states: &StateSet) -> (r: Vec<(Predicate, usize)>)
        requires
            below(states@, self@.num()),
        ensures
            predicates_view(r@) == self@.predicates_of(states@),
    {
        let mut out: Vec<(Predicate, usize)> = Vec::new();
        let mut k: usize = 0;
        assert(predicates_view(out@) =~= Seq::empty());
        while k < states.len()
            invariant
                k <= states.len(),
                below(states@, self@.num()),
                predicates_view(out@) == self@.predicates_of(states@.take(k as int)),
            decreases states.len() - k,
        {
            let s = states[k];
            proof {
                assert(states@[k as int] < self@.num());
                assert(self@.states[s as int] == self.states@[s as int]@);
                let t1 = states@.take(k as int + 1);
                assert(t1.drop_last() =~= states@.take(k as int));
            }
            let ps = &self.states[s].transitions.predicates;
            let ghost base = predicates_view(out@);
            let mut j: usize = 0;
            while j < ps.len()
                invariant
                    j <= ps.len(),
                    predicates_view(out@) == base + predicates_view(ps@).take(j as int),
                decreases ps.len() - j,
            {
                let ghost before = predicates_view(out@);
                let p = ps[j].0.clone();
                out.push((p, ps[j].1));
                proof {
                    assert(predicates_view(out@) =~= before.push(predicates_view(ps@)[j as int]));
                    assert(predicates_view(ps@).take(j as int + 1) =~= predicates_view(ps@).take(
                        j as int,
                    ).push(predicates_view(ps@)[j as int]));
                    assert(predicates_view(out@) =~= base + predicates_view(ps@).take(j as int + 1));
                }
                j += 1;
            }
            assert(predicates_view(ps@).take(j as int) =~= predicates_view(ps@));
            k += 1;
        }
        assert(states@.take(k as int) =~= states@);
        out
    }

    /// The consuming transitions out of `states`, state by state.
    fn consuming(&self, states: &StateSet) -> (r: CharMultiMap)
        requires
            below(states@, self@.num()),
        ensures
            r@ == self@.consuming_of(states@),
    {
        let mut out = CharMultiMap::new();
        let mut k: usize = 0;
        while k < states.len()
            invariant
                k <= states.len(),
                below(states@, self@.num()),
                out@ == self@.consuming_of(states@.take(k as int)),
            decreases states.len() - k,
        {
            let s = states[k];
            proof {
                assert(states@[k as int] < self@.num());
                assert(self@.states[s as int] == self.states@[s as int]@);
                let t1 = states@.take(k as int + 1);
                assert(t1.drop_last() =~= states@.take(k as int));
            }
            let cs = &self.states[s].transitions.consuming;
            let ghost base = out@;
            let mut j: usize = 0;
            while j < cs.len()
                invariant
                    j <= cs@.len(),
                    out@ == base + cs@.take(j as int),
                decreases cs@.len() - j,
            {
                let e = cs.get(j);
                let ghost before = out@;
                out.push(e.0, e.1);
                proof {
                    assert(cs@.take(j as int + 1) =~= cs@.take(j as int).push(e));
                    assert(out@ =~= base + cs@.take(j as int + 1));
                }
                j += 1;
            }
            assert(cs@.take(j as int) =~= cs@);
            k += 1;
        }
        assert(states@.take(k as int) =~= states@);
        out
    }

    /// The consuming transitions out of `states`, as a map from ranges of code points to the
    /// sets of states that the automaton can be in once it has read one of them.
    pub fn transitions(&self, states: &StateSet) -> (r: CharMap<StateSet>)
        requires
            self.wf(),
            below(states@, self@.num()),
        ensures
            is_transitions(self@, states@, sets_of(r@)),
            is_atoms(self@.consuming_of(states@), r@),
            forall|k: int|
                0 <= k < r@.len() ==> sorted((#[trigger] r@[k]).1@) && below(r@[k].1@, self@.num()),
            forall|k: int, c: u32|
                0 <= k < r@.len() && #[trigger] r@[k].0.has(c) ==> index_set(r@[k].1@)
                    == self@.after(states@, c),
    {
        let all = self.consuming(states);
        let grouped = all.group();
        let mut out: CharMap<StateSet> = CharMap::new();
        let ghost m = self@.consuming_of(states@);
        proof {
            lemma_consuming_of_below(self@, states@);
        }
        let mut k: usize = 0;
        while k < grouped.len()
            invariant
                k <= grouped@.len(),
                self.wf(),
                m == self@.consuming_of(states@),
                is_grouping(m, grouped@),
                forall|q: int| 0 <= q < m.len() ==> (#[trigger] m[q]).1 < self@.num(),
                out@.len() == k,
                forall|q: int| 0 <= q < k ==> (#[trigger] out@[q]).0 == grouped@[q].0,
                forall|q: int|
                    0 <= q < k ==> sorted((#[trigger] out@[q]).1@) && below(out@[q].1@, self@.num()),
                forall|q: int, c: u32|
                    0 <= q < k && #[trigger] out@[q].0.has(c) ==> index_set(out@[q].1@)
                        == self@.after(states@, c),
            decreases grouped@.len() - k,
        {
            let e = grouped.get(k);
            let ghost gk = grouped@[k as int];
            proof {
                assert forall|i: int| 0 <= i < e.1@.len() implies (#[trigger] e.1@[i]) < self@.num() by {
                    assert(e.1@.contains(e.1@[i]));
                    assert(gk.0.has(gk.0.start));
                    assert(maps_to(m, gk.0.start, e.1@[i]));
                    let q = choose|q: int|
                        0 <= q < m.len() && (#[trigger] m[q]).0.has(gk.0.start) && m[q].1
                            == e.1@[i];
                    assert(m[q].1 < self@.num());
                }
            }
            let closure = self.eps_closure(&e.1);
            let ghost before = out@;
            out.push(e.0, closure);
            proof {
                assert forall|q: int, c: u32|
                    0 <= q < k + 1 && #[trigger] out@[q].0.has(c) implies index_set(out@[q].1@)
                    == self@.after(states@, c) by {
                    if q < k {
                        assert(before[q].0.has(c));
                    } else {
                        assert(gk.0.has(c));
                        assert forall|t: int|
                            index_set(e.1@).contains(t) <==> self@.step_set(states@, c).contains(
                                t,
                            ) by {
                            if 0 <= t <= usize::MAX {
                                lemma_index_set(e.1@, t as usize);
                                assert(e.1@.contains(t as usize) <==> maps_to(m, c, t as usize));
                            }
                        }
                        assert(index_set(e.1@) =~= self@.step_set(states@, c));
                        assert(self@.eps_closure(e.1@) =~= self@.after(states@, c));
                    }
                }
            }
            k += 1;
        }
        proof {
            assert(keys_disjoint(out@)) by {
                assert forall|i: int| 0 <= i < out@.len() implies (#[trigger] out@[i]).0.start
                    <= out@[i].0.end by {
                    assert(grouped@[i].0.start <= grouped@[i].0.end);
                }
                assert forall|i: int, j: int| 0 <= i < j < out@.len() implies (
                #[trigger] out@[i]).0.end < (#[trigger] out@[j]).0.start by {
                    assert(grouped@[i].0.end < grouped@[j].0.start);
                }
            }
            assert forall|q: int| 0 <= q < out@.len() implies {
                &&& (#[trigger] out@[q]).0.start == 0 || crate::char_map::is_boundary(
                    m,
                    out@[q].0.start,
                )
                &&& out@[q].0.end == u32::MAX || crate::char_map::is_boundary(
                    m,
                    (out@[q].0.end + 1) as u32,
                )
                &&& forall|b: u32|
                    out@[q].0.start < b && b <= out@[q].0.end ==> !crate::char_map::is_boundary(
                        m,
                        b,
                    )
                &&& exists|t: usize| maps_to(m, out@[q].0.start, t)
            } by {
                assert(out@[q].0 == grouped@[q].0);
            }
            assert forall|c: u32, t: usize| #[trigger] maps_to(m, c, t) implies keys_have(
                out@,
                c,
            ) by {
                assert(keys_have(grouped@, c));
                let q = choose|q: int| 0 <= q < grouped@.len() && (#[trigger] grouped@[q]).0.has(c);
                assert(out@[q].0.has(c));
            }
            crate::char_map::lemma_atoms_sets(m, out@);
            let t = sets_of(out@);
            assert forall|k: int| 0 <= k < t.len() implies sorted((#[trigger] t[k]).1) && below(
                t[k].1,
                self@.num(),
            ) by {
                assert(t[k].1 == out@[k].1@);
            }
            assert forall|k: int, c: u32| 0 <= k < t.len() && #[trigger] t[k].0.has(c) implies index_set(
                t[k].1,
            ) == self@.after(states@, c) by {
                assert(out@[k].0.has(c));
            }
        }
        out
    }
}

/// The ε-closure of a set of states is the least set that holds the states and that no
/// ε-transition leaves.
pub proof fn lemma_eps_closure_least_fixed_point(a: NfaView, states: Seq<usize>)
    ensures
        index_set(states).subset_of(a.eps_closure(states)),
        closed(a.rel(false), a.eps_closure(states)),
        forall|t: Set<int>|
            index_set(states).subset_of(t) && #[trigger] closed(a.rel(false), t) ==> a.eps_closure(
                states,
            ).subset_of(t),
{
    lemma_reach_least_fixed_point(a.rel(false), index_set(states));
}

} // verus!
