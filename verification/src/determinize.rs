//! The subset construction: from an automaton without predicates to a deterministic one.

use crate::char_map::{is_atoms, is_boundary, keys_disjoint, keys_have, maps_to, CharMap, CharRange};
use crate::dfa::{by_start, Dfa, DfaView};
use crate::error::Error;
use crate::graph::{lemma_reaches_refl, reach_from, reaches};
use crate::nfa::{index_set, lemma_index_set, Nfa, NfaView};
use crate::state_set::{below, sorted, StateSet};
use crate::transition::DfaAccept;
use vstd::prelude::*;

verus! {

/// The views of a list of sets of states.
pub open spec fn sets_view(v: Seq<Vec<usize>>) -> Seq<Seq<usize>> {
    Seq::new(v.len(), |i: int| v[i]@)
}

/// The entries of `init_after_char` below `upto` that give a state of the deterministic
/// automaton: those with a state of their own, and all of them if a match may start
/// anywhere.
pub open spec fn after_char_seeds(a: NfaView, upto: int) -> Seq<(CharRange, Seq<usize>)>
    decreases upto,
{
    if upto <= 0 {
        Seq::empty()
    } else {
        let e = a.init_after_char[upto - 1];
        let rest = after_char_seeds(a, upto - 1);
        if e.1.len() > 0 || a.init.len() > 0 {
            rest.push(e)
        } else {
            rest
        }
    }
}

impl NfaView {
    /// Whether `set` holds the states in which the automaton can be where a match starts:
    /// anywhere, at the beginning of the input, or behind a character of some range.
    pub open spec fn is_seed(self, set: Set<int>) -> bool {
        ||| set == self.eps_closure(self.init)
        ||| set == self.eps_closure(self.init_at_start)
        ||| exists|k: int|
            0 <= k < self.init_after_char.len() && set == self.eps_closure(
                (#[trigger] self.init_after_char[k]).1,
            ).union(self.eps_closure(self.init))
    }

    /// Whether `set` holds the states in which the automaton can be after some input.
    pub open spec fn reachable_set(self, set: Set<int>) -> bool {
        exists|seed: Set<int>, w: Seq<u32>| self.is_seed(seed) && set == #[trigger] self.run(seed, w)
    }
}

/// Whether `family` is more than `max` sets of states in which `a` can be after some input,
/// none empty and no two the same.
pub open spec fn too_many(a: NfaView, family: Seq<Seq<usize>>, max: int) -> bool {
    &&& family.len() > max
    &&& forall|i: int|
        0 <= i < family.len() ==> sorted(#[trigger] family[i]) && family[i].len() > 0
            && a.reachable_set(index_set(family[i]))
    &&& forall|i: int, j: int|
        0 <= i < j < family.len() ==> #[trigger] family[i] != #[trigger] family[j]
}

/// Whether the sets of `sets` are sets of states of `a`, in increasing order, none empty
/// and no two the same, one for each state of `d`, which accepts as its set does. Each
/// holds the states in which `a` can be after some input.
pub open spec fn table_ok(a: NfaView, d: DfaView, sets: Seq<Seq<usize>>) -> bool {
    &&& forall|i: int| 0 <= i < sets.len() ==> a.reachable_set(index_set(#[trigger] sets[i]))
    &&& d.states.len() == sets.len()
    &&& forall|i: int|
        0 <= i < sets.len() ==> sorted(#[trigger] sets[i]) && below(sets[i], a.num()) && sets[i].len()
            > 0
    &&& forall|i: int, j: int| 0 <= i < j < sets.len() ==> #[trigger] sets[i] != #[trigger] sets[j]
    &&& forall|i: int|
        0 <= i < sets.len() ==> (#[trigger] d.states[i]).accept == a.dfa_accept_of(sets[i])
}

/// Whether the transitions of the state `i` of `d` are those of its set: one for each
/// stretch of characters on which the states of the set have the same transitions, to
/// the state of `d` whose set holds what these lead to, and what ε-transitions reach from
/// there.
pub open spec fn complete(a: NfaView, d: DfaView, sets: Seq<Seq<usize>>, i: int) -> bool {
    &&& is_atoms(a.consuming_of(sets[i]), d.states[i].transitions)
    &&& forall|k: int, c: u32|
        0 <= k < d.states[i].transitions.len() && #[trigger] d.states[i].transitions[k].0.has(c)
            ==> d.states[i].transitions[k].1 < sets.len() && index_set(
            sets[d.states[i].transitions[k].1 as int],
        ) == a.after(sets[i], c)
}

/// Whether the initial states of `d` are those that the initial states of `a` give: the
/// state whose set is what ε-transitions reach from them, if that is any state at all.
pub open spec fn seeds_ok(a: NfaView, d: DfaView, sets: Seq<Seq<usize>>) -> bool {
    &&& match d.init_otherwise {
        Some(i) => i < sets.len() && index_set(sets[i as int]) == a.eps_closure(a.init),
        None => a.init.len() == 0,
    }
    &&& match d.init_at_start {
        Some(i) => i < sets.len() && index_set(sets[i as int]) == a.eps_closure(a.init_at_start),
        None => a.init_at_start.len() == 0,
    }
    &&& after_char_ok(a, d.init_after_char, sets, a.init_after_char.len() as int)
}

/// The same for the states in which a match may start behind a character, as far as the
/// entry `upto` of `init_after_char`: such a state has, besides, what a match that starts
/// anywhere has.
pub open spec fn after_char_ok(
    a: NfaView,
    iac: Seq<(CharRange, usize)>,
    sets: Seq<Seq<usize>>,
    upto: int,
) -> bool {
    &&& iac.len() == after_char_seeds(a, upto).len()
    &&& forall|k: int|
        0 <= k < iac.len() ==> (#[trigger] iac[k]).0 == after_char_seeds(a, upto)[k].0 && iac[k].1
            < sets.len() && index_set(sets[iac[k].1 as int]) == a.eps_closure(
            after_char_seeds(a, upto)[k].1,
        ).union(a.eps_closure(a.init))
}

/// Whether `d` is the subset construction of `a` with the sets `sets`.
pub open spec fn is_subset_construction(a: NfaView, d: DfaView, sets: Seq<Seq<usize>>) -> bool {
    &&& table_ok(a, d, sets)
    &&& seeds_ok(a, d, sets)
    &&& forall|i: int| 0 <= i < sets.len() ==> complete(a, d, sets, i)
}

/// The ranges alone decide whether a map has the stretches of another.
pub proof fn lemma_atoms_same_keys<T, U>(
    m: Seq<(CharRange, usize)>,
    g: Seq<(CharRange, T)>,
    h: Seq<(CharRange, U)>,
)
    requires
        is_atoms(m, g),
        h.len() == g.len(),
        forall|k: int| 0 <= k < g.len() ==> (#[trigger] h[k]).0 == g[k].0,
    ensures
        is_atoms(m, h),
{
    assert forall|i: int| 0 <= i < h.len() implies (#[trigger] h[i]).0.start <= h[i].0.end by {
        assert(g[i].0.start <= g[i].0.end);
    }
    assert forall|i: int, j: int| 0 <= i < j < h.len() implies (#[trigger] h[i]).0.end < (
    #[trigger] h[j]).0.start by {
        assert(g[i].0.end < g[j].0.start);
    }
    assert forall|k: int| 0 <= k < h.len() implies {
        &&& (#[trigger] h[k]).0.start == 0 || is_boundary(m, h[k].0.start)
        &&& h[k].0.end == u32::MAX || is_boundary(m, (h[k].0.end + 1) as u32)
        &&& forall|b: u32| h[k].0.start < b && b <= h[k].0.end ==> !is_boundary(m, b)
        &&& exists|t: usize| maps_to(m, h[k].0.start, t)
    } by {
        assert(h[k].0 == g[k].0);
    }
    assert forall|c: u32, t: usize| #[trigger] maps_to(m, c, t) implies keys_have(h, c) by {
        assert(keys_have(g, c));
        let q = choose|q: int| 0 <= q < g.len() && (#[trigger] g[q]).0.has(c);
        assert(h[q].0.has(c));
    }
}

/// What ε-transitions reach from a set of states holds the set.
pub proof fn lemma_closure_holds(a: NfaView, from: Seq<usize>)
    ensures
        index_set(from).subset_of(a.eps_closure(from)),
        from.len() == 0 ==> a.eps_closure(from) =~= Set::empty(),
{
    assert forall|s: int| index_set(from).contains(s) implies a.eps_closure(from).contains(s) by {
        lemma_reaches_refl(a.rel(false), s);
    }
}

/// What holds while the deterministic automaton is built: the states on the list `active`
/// have no transitions yet, the state `cur` is getting its own, and the others have them
/// all.
pub open spec fn building(
    a: NfaView,
    d: DfaView,
    sets: Seq<Seq<usize>>,
    active: Seq<usize>,
    cur: int,
) -> bool {
    &&& table_ok(a, d, sets)
    &&& forall|k: int| 0 <= k < active.len() ==> (#[trigger] active[k]) < sets.len()
    &&& forall|k: int, l: int| 0 <= k < l < active.len() ==> active[k] != active[l]
    &&& forall|i: int|
        0 <= i < sets.len() ==> if active.contains(i as usize) {
            (#[trigger] d.states[i]).transitions.len() == 0
        } else {
            i == cur || complete(a, d, sets, i)
        }
}

/// Whether the initial states of `d` are right as far as the entry `upto` of
/// `init_after_char`, where `other` and `at_start` tell whether the first two are set
/// already.
pub open spec fn seeded(
    a: NfaView,
    d: DfaView,
    sets: Seq<Seq<usize>>,
    other: bool,
    at_start: bool,
    upto: int,
) -> bool {
    &&& if other {
        match d.init_otherwise {
            Some(i) => i < sets.len() && index_set(sets[i as int]) == a.eps_closure(a.init),
            None => a.init.len() == 0,
        }
    } else {
        d.init_otherwise is None
    }
    &&& if at_start {
        match d.init_at_start {
            Some(i) => i < sets.len() && index_set(sets[i as int]) == a.eps_closure(
                a.init_at_start,
            ),
            None => a.init_at_start.len() == 0,
        }
    } else {
        d.init_at_start is None
    }
    &&& after_char_ok(a, d.init_after_char, sets, upto)
}

/// A further set leaves what was complete so.
pub proof fn lemma_complete_push(a: NfaView, d: DfaView, sets: Seq<Seq<usize>>, i: int, s: Seq<usize>, acc: DfaAccept)
    requires
        d.states.len() == sets.len(),
        0 <= i < sets.len(),
        complete(a, d, sets, i),
    ensures
        complete(a, d.push_state(acc), sets.push(s), i),
{
    let d2 = d.push_state(acc);
    let s2 = sets.push(s);
    assert(d2.states[i] == d.states[i]);
    assert(s2[i] == sets[i]);
    assert forall|k: int, c: u32|
        0 <= k < d2.states[i].transitions.len() && #[trigger] d2.states[i].transitions[k].0.has(
            c,
        ) implies d2.states[i].transitions[k].1 < s2.len() && index_set(
        s2[d2.states[i].transitions[k].1 as int],
    ) == a.after(s2[i], c) by {
        assert(d.states[i].transitions[k].0.has(c));
        assert(s2[d.states[i].transitions[k].1 as int] == sets[d.states[i].transitions[k].1 as int]);
    }
}

/// A new state, put on the list, leaves the building as it was.
pub proof fn lemma_building_push(
    a: NfaView,
    d: DfaView,
    sets: Seq<Seq<usize>>,
    active: Seq<usize>,
    cur: int,
    s: Seq<usize>,
)
    requires
        building(a, d, sets, active, cur),
        table_ok(a, d.push_state(a.dfa_accept_of(s)), sets.push(s)),
        sets.len() < usize::MAX,
    ensures
        building(
            a,
            d.push_state(a.dfa_accept_of(s)),
            sets.push(s),
            active.push(sets.len() as usize),
            cur,
        ),
{
    let acc = a.dfa_accept_of(s);
    let d2 = d.push_state(acc);
    let s2 = sets.push(s);
    let n = sets.len() as usize;
    let a2 = active.push(n);
    assert forall|k: int| 0 <= k < a2.len() implies (#[trigger] a2[k]) < s2.len() by {
        if k < active.len() {
            assert(active[k] < sets.len());
        }
    }
    assert forall|k: int, l: int| 0 <= k < l < a2.len() implies a2[k] != a2[l] by {
        if l < active.len() {
            assert(active[k] != active[l]);
        } else {
            assert(active[k] < sets.len());
        }
    }
    assert forall|i: int| 0 <= i < s2.len() implies if a2.contains(i as usize) {
        (#[trigger] d2.states[i]).transitions.len() == 0
    } else {
        i == cur || complete(a, d2, s2, i)
    } by {
        if i < sets.len() {
            assert(d2.states[i] == d.states[i]);
            if active.contains(i as usize) {
                let k = choose|k: int| 0 <= k < active.len() && active[k] == i as usize;
                assert(a2[k] == i as usize);
            } else {
                if a2.contains(i as usize) {
                    let k = choose|k: int| 0 <= k < a2.len() && a2[k] == i as usize;
                    assert(active[k] == i as usize);
                }
                if i != cur {
                    lemma_complete_push(a, d, sets, i, s, acc);
                }
            }
        } else {
            assert(a2[active.len() as int] == n);
        }
    }
}

/// A new state leaves the initial states as they were.
pub proof fn lemma_seeded_push(
    a: NfaView,
    d: DfaView,
    sets: Seq<Seq<usize>>,
    other: bool,
    at_start: bool,
    upto: int,
    s: Seq<usize>,
    acc: DfaAccept,
)
    requires
        seeded(a, d, sets, other, at_start, upto),
    ensures
        seeded(a, d.push_state(acc), sets.push(s), other, at_start, upto),
{
    let d2 = d.push_state(acc);
    let s2 = sets.push(s);
    if d.init_otherwise is Some {
        assert(other ==> s2[d.init_otherwise.unwrap() as int] == sets[d.init_otherwise.unwrap() as int]);
    }
    if d.init_at_start is Some {
        assert(at_start ==> s2[d.init_at_start.unwrap() as int]
            == sets[d.init_at_start.unwrap() as int]);
    }
    let iac = d.init_after_char;
    assert forall|k: int| 0 <= k < iac.len() implies (#[trigger] iac[k]).0 == after_char_seeds(
        a,
        upto,
    )[k].0 && iac[k].1 < s2.len() && index_set(s2[iac[k].1 as int]) == a.eps_closure(
        after_char_seeds(a, upto)[k].1,
    ).union(a.eps_closure(a.init)) by {
        assert(s2[iac[k].1 as int] == sets[iac[k].1 as int]);
    }
}

/// A transition out of the state that is getting its own leaves the other states as they were.
pub proof fn lemma_building_edge(
    a: NfaView,
    d: DfaView,
    sets: Seq<Seq<usize>>,
    active: Seq<usize>,
    cur: int,
    to: usize,
    range: CharRange,
)
    requires
        building(a, d, sets, active, cur),
        0 <= cur < sets.len(),
        !active.contains(cur as usize),
    ensures
        building(a, d.add_transition(cur, to, range), sets, active, cur),
{
    let d2 = d.add_transition(cur, to, range);
    assert forall|i: int| 0 <= i < sets.len() implies (#[trigger] d2.states[i]).accept
        == a.dfa_accept_of(sets[i]) by {
        assert(d.states[i].accept == a.dfa_accept_of(sets[i]));
    }
    assert forall|i: int| 0 <= i < sets.len() implies if active.contains(i as usize) {
        (#[trigger] d2.states[i]).transitions.len() == 0
    } else {
        i == cur || complete(a, d2, sets, i)
    } by {
        if i != cur {
            assert(d2.states[i] == d.states[i]);
            if !active.contains(i as usize) {
                assert(complete(a, d, sets, i));
            }
        }
    }
}

/// Without states no entry of `init_after_char` gives a state.
pub proof fn lemma_no_seeds(a: NfaView, upto: int)
    requires
        a.wf(),
        a.num() == 0,
        0 <= upto <= a.init_after_char.len(),
    ensures
        after_char_seeds(a, upto).len() == 0,
    decreases upto,
{
    if upto > 0 {
        lemma_no_seeds(a, upto - 1);
        let e = a.init_after_char[upto - 1];
        assert(below(e.1, 0));
        if e.1.len() > 0 {
            assert(e.1[0] < 0);
        }
        if a.init.len() > 0 {
            assert(a.init[0] < 0);
        }
    }
}

/// What the building holds depends on the states of the deterministic automaton only.
pub proof fn lemma_building_same_states(
    a: NfaView,
    d1: DfaView,
    d2: DfaView,
    sets: Seq<Seq<usize>>,
    active: Seq<usize>,
    cur: int,
)
    requires
        building(a, d1, sets, active, cur),
        d2.states == d1.states,
    ensures
        building(a, d2, sets, active, cur),
{
    assert forall|i: int| 0 <= i < sets.len() implies if active.contains(i as usize) {
        (#[trigger] d2.states[i]).transitions.len() == 0
    } else {
        i == cur || complete(a, d2, sets, i)
    } by {
        if !active.contains(i as usize) && i != cur {
            assert(complete(a, d1, sets, i));
        }
    }
}


/// Whether every state that `d` names is one of the sets, and the construction is under
/// way with them.
pub open spec fn under_way(
    a: NfaView,
    d: DfaView,
    sets: Seq<Seq<usize>>,
    active: Seq<usize>,
    cur: int,
    other: bool,
    at_start: bool,
    upto: int,
) -> bool {
    &&& building(a, d, sets, active, cur)
    &&& seeded(a, d, sets, other, at_start, upto)
    &&& d.wf()
    &&& cur >= 0 ==> cur < sets.len() && !active.contains(cur as usize)
}

impl Nfa {
    /// The state of `dfa` for the set `s`: the one that has this set, or else a new one,
    /// which is put on the list `active` of the states whose transitions are yet to come.
    fn add_dfa_state(
        &self,
        s: StateSet,
        dfa: &mut Dfa,
        sets: &mut Vec<StateSet>,
        active: &mut Vec<usize>,
        max_states: usize,
        Ghost(cur): Ghost<int>,
        Ghost(other): Ghost<bool>,
        Ghost(at_start): Ghost<bool>,
        Ghost(upto): Ghost<int>,
    ) -> (r: Result<usize, Error>)
        requires
            sorted(s@),
            below(s@, self@.num()),
            s@.len() > 0,
            self@.reachable_set(index_set(s@)),
            under_way(
                self@,
                old(dfa)@,
                sets_view(old(sets)@),
                old(active)@,
                cur,
                other,
                at_start,
                upto,
            ),
        ensures
            match r {
                Ok(idx) => {
                    &&& idx < final(sets)@.len()
                    &&& final(sets)@[idx as int]@ == s@
                    &&& under_way(
                        self@,
                        final(dfa)@,
                        sets_view(final(sets)@),
                        final(active)@,
                        cur,
                        other,
                        at_start,
                        upto,
                    )
                    &&& final(dfa)@.init_otherwise == old(dfa)@.init_otherwise
                    &&& final(dfa)@.init_at_start == old(dfa)@.init_at_start
                    &&& final(dfa)@.init_after_char == old(dfa)@.init_after_char
                    &&& forall|i: int|
                        0 <= i < old(sets)@.len() ==> final(sets)@[i] == old(sets)@[i] && final(dfa)@.states[i] == old(dfa)@.states[i]
                    &&& if idx < old(sets)@.len() {
                        final(sets)@ == old(sets)@ && final(dfa)@ == old(dfa)@ && final(active)@ == old(
                            active,
                        )@
                    } else {
                        &&& idx == old(sets)@.len()
                        &&& old(sets)@.len() < max_states
                        &&& final(sets)@ == old(sets)@.push(s)
                        &&& final(dfa)@ == old(dfa)@.push_state(self@.dfa_accept_of(s@))
                        &&& final(active)@ == old(active)@.push(idx)
                    }
                },
                Err(e) => {
                    &&& e == Error::TooManyStates
                    &&& final(sets)@ == old(sets)@
                    &&& final(dfa)@ == old(dfa)@
                    &&& final(active)@ == old(active)@
                    &&& too_many(self@, sets_view(old(sets)@).push(s@), max_states as int)
                },
            },
    {
        let ghost sv = sets_view(sets@);
        let ghost d0 = dfa@;
        let ghost a0 = active@;
        let mut i: usize = 0;
        while i < sets.len()
            invariant
                i <= sets.len(),
                *sets == *old(sets),
                *dfa == *old(dfa),
                *active == *old(active),
                under_way(self@, dfa@, sets_view(sets@), active@, cur, other, at_start, upto),
                forall|k: int| 0 <= k < i ==> (#[trigger] sets@[k])@ != s@,
            decreases sets.len() - i,
        {
            if crate::state_set::same(&sets[i], &s) {
                return Ok(i);
            }
            i += 1;
        }
        if dfa.num_states() >= max_states {
            proof {
                let family = sv.push(s@);
                assert forall|k: int| 0 <= k < family.len() implies sorted(#[trigger] family[k])
                    && family[k].len() > 0 && self@.reachable_set(index_set(family[k])) by {
                    if k < sv.len() {
                        assert(sorted(sv[k]));
                    }
                }
                assert forall|k: int, j: int| 0 <= k < j < family.len() implies #[trigger] family[k]
                    != #[trigger] family[j] by {
                    if j < sv.len() {
                        assert(sv[k] != sv[j]);
                    } else {
                        assert(sv[k] == sets@[k]@);
                    }
                }
            }
            return Err(Error::TooManyStates);
        }
        let idx = sets.len();
        let acc = self.dfa_accept(&s);
        dfa.add_state(acc);
        sets.push(s);
        active.push(idx);
        proof {
            let sv2 = sets_view(sets@);
            assert(sv2 =~= sv.push(s@));
            assert(table_ok(self@, dfa@, sv2)) by {
                assert forall|k: int| 0 <= k < sv2.len() implies sorted(#[trigger] sv2[k]) && below(
                    sv2[k],
                    self@.num(),
                ) && sv2[k].len() > 0 by {
                    if k < sv.len() {
                        assert(sv2[k] == sv[k]);
                    }
                }
                assert forall|k: int| 0 <= k < sv2.len() implies self@.reachable_set(
                    index_set(#[trigger] sv2[k]),
                ) by {
                    if k < sv.len() {
                        assert(sv2[k] == sv[k]);
                    }
                }
                assert forall|k: int, j: int| 0 <= k < j < sv2.len() implies #[trigger] sv2[k]
                    != #[trigger] sv2[j] by {
                    if j < sv.len() {
                        assert(sv2[k] == sv[k] && sv2[j] == sv[j]);
                    } else {
                        assert(sv2[k] == old(sets)@[k]@);
                    }
                }
                assert forall|k: int| 0 <= k < sv2.len() implies (#[trigger] dfa@.states[k]).accept
                    == self@.dfa_accept_of(sv2[k]) by {
                    if k < sv.len() {
                        assert(sv2[k] == sv[k]);
                        assert(dfa@.states[k] == d0.states[k]);
                    }
                }
            }
            lemma_building_push(self@, d0, sv, a0, cur, s@);
            lemma_seeded_push(self@, d0, sv, other, at_start, upto, s@, acc);
            assert(dfa@.wf()) by {
                let d2 = dfa@;
                assert forall|x: int, q: int|
                    0 <= x < d2.states.len() && 0 <= q < d2.states[x].transitions.len() implies (
                #[trigger] d2.states[x].transitions[q]).1 < d2.num() by {
                    if x < d0.states.len() {
                        assert(d2.states[x] == d0.states[x]);
                        assert(d0.states[x].transitions[q].1 < d0.num());
                    }
                }
                assert forall|q: int| 0 <= q < d2.init_after_char.len() implies (
                #[trigger] d2.init_after_char[q]).1 < d2.num() by {
                    assert(d0.init_after_char[q].1 < d0.num());
                }
            }
            if cur >= 0 {
                if active@.contains(cur as usize) {
                    let q = choose|q: int| 0 <= q < active@.len() && active@[q] == cur as usize;
                    if q < a0.len() {
                        assert(a0[q] == cur as usize);
                    }
                }
            }
        }
        Ok(idx)
    }

    /// Gives the state `state_idx` of `dfa` its transitions, and `dfa` the states that they
    /// lead to.
    fn add_dfa_transitions(
        &self,
        state_idx: usize,
        dfa: &mut Dfa,
        sets: &mut Vec<StateSet>,
        active: &mut Vec<usize>,
        max_states: usize,
    ) -> (r: Result<(), Error>)
        requires
            self.wf(),
            under_way(
                self@,
                old(dfa)@,
                sets_view(old(sets)@),
                old(active)@,
                state_idx as int,
                true,
                true,
                self@.init_after_char.len() as int,
            ),
            old(dfa)@.states[state_idx as int].transitions.len() == 0,
        ensures
            r is Err ==> r == Err::<(), Error>(Error::TooManyStates) && exists|
                family: Seq<Seq<usize>>,
            | #[trigger] too_many(self@, family, max_states as int),
            r is Ok ==> {
                &&& under_way(
                    self@,
                    final(dfa)@,
                    sets_view(final(sets)@),
                    final(active)@,
                    -1,
                    true,
                    true,
                    self@.init_after_char.len() as int,
                )
                &&& final(sets)@.len() >= old(sets)@.len()
                &&& final(sets)@.len() > old(sets)@.len() ==> final(sets)@.len() <= max_states
                &&& final(sets)@.len() == old(sets)@.len() ==> final(active)@.len() == old(
                    active,
                )@.len()
            },
    {
        let ghost a = self@;
        let ghost n_before = sets@.len();
        let ghost ac0 = active@;
        let ghost upto = a.init_after_char.len() as int;
        proof {
            assert(sets_view(sets@)[state_idx as int] == sets@[state_idx as int]@);
            assert(below(sets_view(sets@)[state_idx as int], a.num()));
        }
        let trans = self.transitions(&sets[state_idx]);
        let ghost cur_set = sets@[state_idx as int]@;
        let ghost m = a.consuming_of(cur_set);
        let mut j: usize = 0;
        while j < trans.len()
            invariant
                j <= trans@.len(),
                self@ == a,
                upto == a.init_after_char.len(),
                state_idx < sets@.len(),
                cur_set == sets@[state_idx as int]@,
                m == a.consuming_of(cur_set),
                is_atoms(m, trans@),
                forall|q: int|
                    0 <= q < trans@.len() ==> sorted((#[trigger] trans@[q]).1@) && below(
                        trans@[q].1@,
                        a.num(),
                    ),
                forall|q: int, c: u32|
                    0 <= q < trans@.len() && #[trigger] trans@[q].0.has(c) ==> index_set(
                        trans@[q].1@,
                    ) == a.after(cur_set, c),
                under_way(a, dfa@, sets_view(sets@), active@, state_idx as int, true, true, upto),
                sets@.len() >= n_before,
                sets@.len() > n_before ==> sets@.len() <= max_states,
                sets@.len() == n_before ==> active@.len() == ac0.len(),
                dfa@.states[state_idx as int].transitions.len() == j,
                forall|q: int|
                    0 <= q < j ==> (#[trigger] dfa@.states[state_idx as int].transitions[q]).0
                        == trans@[q].0 && dfa@.states[state_idx as int].transitions[q].1
                        < sets@.len() && sets@[dfa@.states[state_idx as int].transitions[q].1 as int]@
                        == trans@[q].1@,
            decreases trans@.len() - j,
        {
            let e = trans.get(j);
            let range = e.0;
            let target = crate::state_set::copy(&e.1);
            proof {
                lemma_target_nonempty(a, cur_set, trans@, j as int);
                let c = e.0.start;
                assert(trans@[j as int].0.has(c));
                let sv = sets_view(sets@);
                assert(sv[state_idx as int] == cur_set);
                assert(a.reachable_set(index_set(sv[state_idx as int])));
                assert(below(sv[state_idx as int], a.num()));
                lemma_reachable_step(a, cur_set, c);
            }
            let ghost d0 = dfa@;
            let ghost s0 = sets@;
            let target_idx = match self.add_dfa_state(
                target,
                dfa,
                sets,
                active,
                max_states,
                Ghost(state_idx as int),
                Ghost(true),
                Ghost(true),
                Ghost(upto),
            ) {
                Ok(i) => i,
                Err(e) => {
                    return Err(e);
                },
            };
            let ghost d1 = dfa@;
            dfa.add_transition(state_idx, target_idx, range);
            proof {
                let d2 = dfa@;
                let sv = sets_view(sets@);
                lemma_building_edge(a, d1, sv, active@, state_idx as int, target_idx, range);
                lemma_seeded_same_inits(a, d1, d2, sv, true, true, upto);
                assert(d2.wf()) by {
                    assert forall|s: int, q: int|
                        0 <= s < d2.states.len() && 0 <= q < d2.states[s].transitions.len() implies (
                    #[trigger] d2.states[s].transitions[q]).1 < d2.num() by {
                        if s == state_idx {
                            if q < d1.states[s].transitions.len() {
                                assert(d1.states[s].transitions[q].1 < d1.num());
                            }
                        } else {
                            assert(d2.states[s] == d1.states[s]);
                            assert(d1.states[s].transitions[q].1 < d1.num());
                        }
                    }
                    assert forall|q: int| 0 <= q < d2.init_after_char.len() implies (
                    #[trigger] d2.init_after_char[q]).1 < d2.num() by {
                        assert(d1.init_after_char[q].1 < d1.num());
                    }
                }
                assert forall|q: int| 0 <= q < j + 1 implies (
                #[trigger] d2.states[state_idx as int].transitions[q]).0 == trans@[q].0
                    && d2.states[state_idx as int].transitions[q].1 < sets@.len()
                    && sets@[d2.states[state_idx as int].transitions[q].1 as int]@
                    == trans@[q].1@ by {
                    if q < j {
                        assert(d1.states[state_idx as int] == d0.states[state_idx as int]);
                        assert(d2.states[state_idx as int].transitions[q]
                            == d0.states[state_idx as int].transitions[q]);
                        assert(sets@[d0.states[state_idx as int].transitions[q].1 as int]
                            == s0[d0.states[state_idx as int].transitions[q].1 as int]);
                    }
                }
            }
            j += 1;
        }
        proof {
            let d = dfa@;
            let sv = sets_view(sets@);
            let tr = d.states[state_idx as int].transitions;
            lemma_atoms_same_keys(m, trans@, tr);
            assert(complete(a, d, sv, state_idx as int)) by {
                assert forall|q: int, c: u32|
                    0 <= q < tr.len() && #[trigger] tr[q].0.has(c) implies tr[q].1 < sv.len()
                    && index_set(sv[tr[q].1 as int]) == a.after(sv[state_idx as int], c) by {
                    assert(trans@[q].0.has(c));
                    assert(sv[tr[q].1 as int] == sets@[tr[q].1 as int]@);
                }
            }
            assert(building(a, d, sv, active@, -1));
        }
        Ok(())
    }
}

/// A stretch of characters on which a set of states has transitions leads somewhere.
pub proof fn lemma_target_nonempty(
    a: NfaView,
    cur_set: Seq<usize>,
    trans: Seq<(CharRange, Vec<usize>)>,
    j: int,
)
    requires
        0 <= j < trans.len(),
        is_atoms(a.consuming_of(cur_set), trans),
        forall|q: int, c: u32|
            0 <= q < trans.len() && #[trigger] trans[q].0.has(c) ==> index_set(trans[q].1@)
                == a.after(cur_set, c),
    ensures
        trans[j].1@.len() > 0,
{
    let m = a.consuming_of(cur_set);
    let c = trans[j].0.start;
    assert(trans[j].0.has(c));
    let t = choose|t: usize| maps_to(m, c, t);
    assert(a.step_set(cur_set, c).contains(t as int));
    lemma_reaches_refl(a.rel(false), t as int);
    assert(a.after(cur_set, c).contains(t as int));
    assert(index_set(trans[j].1@).contains(t as int));
}

/// The transitions have no part in whether the initial states are right.
pub proof fn lemma_seeded_same_inits(
    a: NfaView,
    d1: DfaView,
    d2: DfaView,
    sets: Seq<Seq<usize>>,
    other: bool,
    at_start: bool,
    upto: int,
)
    requires
        seeded(a, d1, sets, other, at_start, upto),
        d2.init_otherwise == d1.init_otherwise,
        d2.init_at_start == d1.init_at_start,
        d2.init_after_char == d1.init_after_char,
    ensures
        seeded(a, d2, sets, other, at_start, upto),
{
}

/// What ε-transitions reach from a set of states is empty if and only if the set is.
pub proof fn lemma_closure_len(a: NfaView, from: Seq<usize>, cl: Seq<usize>)
    requires
        index_set(cl) == a.eps_closure(from),
    ensures
        (cl.len() == 0) == (from.len() == 0),
{
    lemma_closure_holds(a, from);
    if from.len() > 0 {
        assert(index_set(from).contains(from[0] as int));
        assert(index_set(cl).contains(from[0] as int));
    }
    if cl.len() > 0 {
        assert(index_set(cl).contains(cl[0] as int));
    }
}

/// Popping a state off the list makes it the state that gets its transitions.
pub proof fn lemma_building_pop(a: NfaView, d: DfaView, sets: Seq<Seq<usize>>, active: Seq<usize>)
    requires
        building(a, d, sets, active, -1),
        active.len() > 0,
        sets.len() <= usize::MAX,
    ensures
        building(a, d, sets, active.drop_last(), active.last() as int),
        !active.drop_last().contains(active.last()),
        active.last() < sets.len(),
        d.states[active.last() as int].transitions.len() == 0,
{
    let rest = active.drop_last();
    let x = active.last();
    assert(active[active.len() - 1] == x);
    assert(active.contains(x));
    if rest.contains(x) {
        let q = choose|q: int| 0 <= q < rest.len() && rest[q] == x;
        assert(active[q] != active[active.len() - 1]);
    }
    assert forall|i: int| 0 <= i < sets.len() implies if rest.contains(i as usize) {
        (#[trigger] d.states[i]).transitions.len() == 0
    } else {
        i == x || complete(a, d, sets, i)
    } by {
        if rest.contains(i as usize) {
            let q = choose|q: int| 0 <= q < rest.len() && rest[q] == i as usize;
            assert(active[q] == i as usize);
            assert(active.contains(i as usize));
        } else if i != x {
            if active.contains(i as usize) {
                let q = choose|q: int| 0 <= q < active.len() && active[q] == i as usize;
                assert(rest[q] == i as usize);
            }
        }
    }
    assert forall|q: int, l: int| 0 <= q < l < rest.len() implies rest[q] != rest[l] by {
        assert(active[q] != active[l]);
    }
    assert forall|q: int| 0 <= q < rest.len() implies (#[trigger] rest[q]) < sets.len() by {
        assert(active[q] < sets.len());
    }
}

/// The sets of two kinds of initial states, taken together.
pub proof fn lemma_union_closure(
    a: NfaView,
    own: Seq<usize>,
    cl: Seq<usize>,
    other: Seq<usize>,
    init: Seq<usize>,
)
    requires
        index_set(cl) == a.eps_closure(own),
        index_set(other) == a.eps_closure(a.init),
        below(cl, a.num()),
        below(other, a.num()),
        forall|x: usize|
            #![trigger init.contains(x)]
            init.contains(x) <==> (cl.contains(x) || other.contains(x)),
    ensures
        index_set(init) == a.eps_closure(own).union(a.eps_closure(a.init)),
        below(init, a.num()),
        (init.len() == 0) == (own.len() == 0 && a.init.len() == 0),
{
    assert forall|t: int|
        index_set(init).contains(t) <==> a.eps_closure(own).union(a.eps_closure(a.init)).contains(
            t,
        ) by {
        if 0 <= t <= usize::MAX {
            lemma_index_set(init, t as usize);
            lemma_index_set(cl, t as usize);
            lemma_index_set(other, t as usize);
        }
    }
    assert(index_set(init) =~= a.eps_closure(own).union(a.eps_closure(a.init)));
    assert forall|i: int| 0 <= i < init.len() implies (#[trigger] init[i]) < a.num() by {
        assert(init.contains(init[i]));
        if cl.contains(init[i]) {
            let j = choose|j: int| 0 <= j < cl.len() && cl[j] == init[i];
            assert(cl[j] < a.num());
        } else {
            let j = choose|j: int| 0 <= j < other.len() && other[j] == init[i];
            assert(other[j] < a.num());
        }
    }
    lemma_closure_len(a, own, cl);
    lemma_closure_len(a, a.init, other);
    if cl.len() > 0 {
        assert(cl.contains(cl[0]));
        assert(init.contains(cl[0]));
    }
    if other.len() > 0 {
        assert(other.contains(other[0]));
        assert(init.contains(other[0]));
    }
    if init.len() > 0 {
        assert(init.contains(init[0]));
    }
}

impl Nfa {
    /// A deterministic automaton for the automaton, by the subset construction: a state of
    /// it stands for a set of states of this one. Fails when it would have more than
    /// `max_states` states.
    ///
    /// Predicate transitions are not followed: remove them first.
    pub fn determinize(&self, max_states: usize) -> (r: Result<Dfa, Error>)
        requires
            self.wf(),
        ensures
            match r {
                Ok(d) => {
                    &&& d@.wf()
                    &&& exists|sets: Seq<Seq<usize>>| #[trigger] is_subset_construction(self@, d@, sets)
                    &&& d@.num() > 0 ==> d@.num() <= max_states
                    &&& forall|s: int|
                        0 <= s < d@.states.len() ==> by_start((#[trigger] d@.states[s]).transitions)
                },
                Err(e) => e == Error::TooManyStates && exists|family: Seq<Seq<usize>>| #[trigger]
                    too_many(self@, family, max_states as int),
            },
    {
        let ghost a = self@;
        let ghost upto = a.init_after_char.len() as int;
        if self.states.len() == 0 {
            let d = Dfa::new();
            proof {
                let sets = Seq::<Seq<usize>>::empty();
                lemma_no_seeds(a, upto);
                if a.init.len() > 0 {
                    assert(a.init[0] < 0);
                }
                if a.init_at_start.len() > 0 {
                    assert(a.init_at_start[0] < 0);
                }
                assert(is_subset_construction(a, d@, sets));
            }
            return Ok(d);
        }
        let mut ret = Dfa::new();
        let mut sets: Vec<StateSet> = Vec::new();
        let mut active: Vec<usize> = Vec::new();
        let init_other = self.eps_closure(&self.init);
        proof {
            lemma_closure_len(a, a.init, init_other@);
            assert(under_way(a, ret@, sets_view(sets@), active@, -1, false, false, 0));
            lemma_seed_reachable(a, a.eps_closure(a.init));
        }
        if init_other.len() > 0 {
            let idx = match self.add_dfa_state(
                crate::state_set::copy(&init_other),
                &mut ret,
                &mut sets,
                &mut active,
                max_states,
                Ghost(-1),
                Ghost(false),
                Ghost(false),
                Ghost(0),
            ) {
                Ok(i) => i,
                Err(e) => {
                    return Err(e);
                },
            };
            let ghost d1 = ret@;
            ret.init_otherwise = Some(idx);
            proof {
                lemma_building_same_states(a, d1, ret@, sets_view(sets@), active@, -1);
                assert(sets_view(sets@)[idx as int] == sets@[idx as int]@);
            }
        }
        proof {
            assert(under_way(a, ret@, sets_view(sets@), active@, -1, true, false, 0));
        }
        let init_at_start = self.eps_closure(&self.init_at_start);
        proof {
            lemma_closure_len(a, a.init_at_start, init_at_start@);
            lemma_seed_reachable(a, a.eps_closure(a.init_at_start));
        }
        if init_at_start.len() > 0 {
            let idx = match self.add_dfa_state(
                crate::state_set::copy(&init_at_start),
                &mut ret,
                &mut sets,
                &mut active,
                max_states,
                Ghost(-1),
                Ghost(true),
                Ghost(false),
                Ghost(0),
            ) {
                Ok(i) => i,
                Err(e) => {
                    return Err(e);
                },
            };
            let ghost d1 = ret@;
            ret.init_at_start = Some(idx);
            proof {
                lemma_building_same_states(a, d1, ret@, sets_view(sets@), active@, -1);
                assert(sets_view(sets@)[idx as int] == sets@[idx as int]@);
            }
        }
        proof {
            assert(under_way(a, ret@, sets_view(sets@), active@, -1, true, true, 0));
        }
        let mut k: usize = 0;
        while k < self.init_after_char.len()
            invariant
                k <= self.init_after_char@.len(),
                self@ == a,
                self.wf(),
                sorted(init_other@),
                below(init_other@, a.num()),
                index_set(init_other@) == a.eps_closure(a.init),
                under_way(a, ret@, sets_view(sets@), active@, -1, true, true, k as int),
                sets@.len() > 0 ==> sets@.len() <= max_states,
            decreases self.init_after_char@.len() - k,
        {
            let e = self.init_after_char.get(k);
            let range = e.0;
            proof {
                assert(a.init_after_char[k as int] == (e.0, e.1@));
                assert(below(a.init_after_char[k as int].1, a.num()));
            }
            let mut init = self.eps_closure(&e.1);
            let ghost cl = init@;
            crate::state_set::union_with(&mut init, &init_other);
            proof {
                lemma_union_closure(a, e.1@, cl, init_other@, init@);
                assert(a.is_seed(index_set(init@))) by {
                    assert(a.init_after_char[k as int].1 == e.1@);
                }
                lemma_seed_reachable(a, index_set(init@));
            }
            if init.len() > 0 {
                let ghost iv = init@;
                let idx = match self.add_dfa_state(
                    init,
                    &mut ret,
                    &mut sets,
                    &mut active,
                    max_states,
                    Ghost(-1),
                    Ghost(true),
                    Ghost(true),
                    Ghost(k as int),
                ) {
                    Ok(i) => i,
                    Err(e) => {
                        return Err(e);
                    },
                };
                let ghost d1 = ret@;
                ret.init_after_char.push(range, idx);
                proof {
                    let d2 = ret@;
                    let sv = sets_view(sets@);
                    lemma_building_same_states(a, d1, d2, sv, active@, -1);
                    let seeds0 = after_char_seeds(a, k as int);
                    let seeds1 = after_char_seeds(a, k as int + 1);
                    assert(seeds1 == seeds0.push(a.init_after_char[k as int]));
                    assert(d2.init_after_char == d1.init_after_char.push((range, idx)));
                    assert(sv[idx as int] == iv);
                    assert forall|q: int| 0 <= q < d2.init_after_char.len() implies (
                    #[trigger] d2.init_after_char[q]).0 == seeds1[q].0 && d2.init_after_char[q].1
                        < sv.len() && index_set(sv[d2.init_after_char[q].1 as int])
                        == a.eps_closure(seeds1[q].1).union(a.eps_closure(a.init)) by {
                        if q < d1.init_after_char.len() {
                            assert(d1.init_after_char[q].0 == seeds0[q].0);
                        }
                    }
                }
            } else {
                proof {
                    let seeds0 = after_char_seeds(a, k as int);
                    let seeds1 = after_char_seeds(a, k as int + 1);
                    assert(seeds1 == seeds0);
                }
            }
            k += 1;
        }
        while active.len() > 0
            invariant
                self@ == a,
                self.wf(),
                upto == a.init_after_char.len(),
                under_way(a, ret@, sets_view(sets@), active@, -1, true, true, upto),
                sets@.len() > 0 ==> sets@.len() <= max_states,
            decreases max_states - sets@.len(), active@.len(),
        {
            let ghost ac0 = active@;
            proof {
                assert(sets_view(sets@).len() == sets.len());
                lemma_building_pop(a, ret@, sets_view(sets@), ac0);
            }
            let state_idx = active.pop().unwrap();
            proof {
                assert(active@ == ac0.drop_last());
            }
            match self.add_dfa_transitions(state_idx, &mut ret, &mut sets, &mut active, max_states) {
                Ok(()) => {},
                Err(e) => {
                    return Err(e);
                },
            }
        }
        let ghost d0 = ret@;
        ret.sort_transitions();
        proof {
            let d = ret@;
            let sv = sets_view(sets@);
            assert forall|i: int| 0 <= i < sv.len() implies #[trigger] d.states[i] == d0.states[i] by {
                assert(!active@.contains(i as usize));
                assert(complete(a, d0, sv, i));
                assert(keys_disjoint(d0.states[i].transitions));
                let t = d0.states[i].transitions;
                assert forall|x: int, y: int| 0 <= x < y < t.len() implies (#[trigger] t[x]).0.start <= (
                #[trigger] t[y]).0.start by {
                    assert(t[x].0.end < t[y].0.start);
                    assert(t[x].0.start <= t[x].0.end);
                }
            }
            assert(d.states =~= d0.states);
            assert(d == d0);
            assert(is_subset_construction(a, d, sv)) by {
                assert forall|i: int| 0 <= i < sv.len() implies complete(a, d, sv, i) by {
                    assert(!active@.contains(i as usize));
                }
            }
        }
        Ok(ret)
    }
}

/// The states in which the automaton can be where a match starts are states in which it
/// can be after some input: after none.
pub proof fn lemma_seed_reachable(a: NfaView, seed: Set<int>)
    requires
        a.is_seed(seed),
    ensures
        a.reachable_set(seed),
{
    let w = Seq::<u32>::empty();
    assert(seed == a.run(seed, w));
}

/// Where the automaton can go on `c` from where it can be after some input, it can be
/// after some input.
pub proof fn lemma_reachable_step(a: NfaView, states: Seq<usize>, c: u32)
    requires
        below(states, a.num()),
        a.reachable_set(index_set(states)),
    ensures
        a.reachable_set(a.after(states, c)),
{
    let (seed, w) = choose|seed: Set<int>, w: Seq<u32>|
        a.is_seed(seed) && index_set(states) == #[trigger] a.run(seed, w);
    crate::subset::lemma_after_set(a, states, c);
    let w2 = w.push(c);
    assert(w2.drop_last() =~= w);
    assert(a.run(seed, w2) == a.after_set(a.run(seed, w), c));
}

} // verus!
