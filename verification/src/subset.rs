//! What the subset construction is good for: the deterministic automaton is, after every
//! input, in the state that stands for the states in which the other automaton can be.

use crate::char_map::{is_atoms, keys_have, maps_to, CharMap, CharRange};
use crate::determinize::{
    after_char_ok, after_char_seeds, complete, is_subset_construction, seeds_ok, table_ok, too_many,
};
use crate::dfa::DfaView;
use crate::graph::{lemma_reaches_refl, reach_from, reaches};
use crate::moves::lemma_concat_maps_to;
use crate::nfa::{index_set, NfaView};
use crate::state_set::{below, lemma_sorted_unique, sorted};
use crate::transition::DfaAccept;
use vstd::prelude::*;

verus! {

impl NfaView {
    /// Whether a consuming transition on `c` leads from `s` to `t`.
    pub open spec fn consumes(self, s: int, c: u32, t: int) -> bool {
        0 <= s < self.states.len() && 0 <= t <= usize::MAX && maps_to(
            self.states[s].transitions.consuming,
            c,
            t as usize,
        )
    }

    /// The states in which the automaton can be once it has read `c` in a state of `from`.
    pub open spec fn after_set(self, from: Set<int>, c: u32) -> Set<int> {
        Set::new(
            |t: int|
                reach_from(
                    self.rel(false),
                    Set::new(|x: int| exists|s: int| from.contains(s) && #[trigger] self.consumes(s, c, x)),
                    t,
                ),
        )
    }

    /// The states in which the automaton can be once it has read `w`, if it was in a state
    /// of `from` before.
    pub open spec fn run(self, from: Set<int>, w: Seq<u32>) -> Set<int>
        decreases w.len(),
    {
        if w.len() == 0 {
            from
        } else {
            self.after_set(self.run(from, w.drop_last()), w.last())
        }
    }

    /// Whether `acc` is when one of the states of `set` accepts over bytes: at the end of
    /// the input or otherwise if one of them does, and as far behind as any of them.
    pub open spec fn is_profile(self, set: Set<int>, acc: DfaAccept) -> bool {
        &&& acc.at_eoi <==> exists|s: int|
            set.contains(s) && (#[trigger] self.states[s]).dfa_accept.at_eoi
        &&& acc.otherwise <==> exists|s: int|
            set.contains(s) && (#[trigger] self.states[s]).dfa_accept.otherwise
        &&& forall|s: int|
            set.contains(s) ==> (#[trigger] self.states[s]).dfa_accept.bytes_behind
                <= acc.bytes_behind
        &&& acc.bytes_behind == 0 || exists|s: int|
            set.contains(s) && (#[trigger] self.states[s]).dfa_accept.bytes_behind
                == acc.bytes_behind
    }
}

impl DfaView {
    /// The state that follows `s` on `c`, if there is one.
    pub open spec fn next(self, s: Option<usize>, c: u32) -> Option<usize> {
        match s {
            Some(s) => CharMap::<usize>::find_spec(self.states[s as int].transitions, c),
            None => None,
        }
    }

    /// The state in which the automaton is once it has read `w`, if it was in `s` before;
    /// `None` if it has nowhere to go.
    pub open spec fn run(self, s: Option<usize>, w: Seq<u32>) -> Option<usize>
        decreases w.len(),
    {
        if w.len() == 0 {
            s
        } else {
            self.next(self.run(s, w.drop_last()), w.last())
        }
    }
}

/// What a map gives for a character is the value of an entry that holds it; it gives
/// nothing if no entry holds it.
pub proof fn lemma_find(m: Seq<(CharRange, usize)>, c: u32)
    ensures
        match CharMap::<usize>::find_spec(m, c) {
            Some(v) => exists|k: int| 0 <= k < m.len() && (#[trigger] m[k]).0.has(c) && m[k].1 == v,
            None => !keys_have(m, c),
        },
    decreases m.len(),
{
    if m.len() > 0 && !m[0].0.has(c) {
        let r = m.skip(1);
        lemma_find(r, c);
        match CharMap::<usize>::find_spec(m, c) {
            Some(v) => {
                let k = choose|k: int| 0 <= k < r.len() && (#[trigger] r[k]).0.has(c) && r[k].1 == v;
                assert(m[k + 1].0.has(c) && m[k + 1].1 == v);
            },
            None => {
                if keys_have(m, c) {
                    let k = choose|k: int| 0 <= k < m.len() && (#[trigger] m[k]).0.has(c);
                    assert(r[k - 1].0.has(c));
                }
            },
        }
    } else if m.len() > 0 {
        assert(m[0].0.has(c) && m[0].1 == m[0].1);
    }
}

/// The consuming transitions out of a list of states are those of its states.
pub proof fn lemma_consuming_of(a: NfaView, states: Seq<usize>, c: u32, t: usize)
    requires
        below(states, a.num()),
    ensures
        maps_to(a.consuming_of(states), c, t) <==> exists|k: int|
            0 <= k < states.len() && a.consumes((#[trigger] states[k]) as int, c, t as int),
    decreases states.len(),
{
    if states.len() > 0 {
        let rest = states.drop_last();
        let s = states.last() as int;
        lemma_consuming_of(a, rest, c, t);
        lemma_concat_maps_to(a.consuming_of(rest), a.states[s].transitions.consuming, c, t);
        assert(states[states.len() - 1] < a.num());
        if exists|k: int| 0 <= k < rest.len() && a.consumes((#[trigger] rest[k]) as int, c, t as int) {
            let k = choose|k: int|
                0 <= k < rest.len() && a.consumes((#[trigger] rest[k]) as int, c, t as int);
            assert(a.consumes(states[k] as int, c, t as int));
        }
        if a.consumes(s, c, t as int) {
            assert(a.consumes(states[states.len() - 1] as int, c, t as int));
        }
        if exists|k: int|
            0 <= k < states.len() && a.consumes((#[trigger] states[k]) as int, c, t as int) {
            let k = choose|k: int|
                0 <= k < states.len() && a.consumes((#[trigger] states[k]) as int, c, t as int);
            if k < rest.len() {
                assert(a.consumes(rest[k] as int, c, t as int));
            }
        }
    }
}

/// Where a list of states goes on a character is where its set of states goes.
pub proof fn lemma_after_set(a: NfaView, states: Seq<usize>, c: u32)
    requires
        below(states, a.num()),
    ensures
        a.after(states, c) == a.after_set(index_set(states), c),
        a.step_set(states, c) == Set::new(
            |x: int| exists|s: int| index_set(states).contains(s) && #[trigger] a.consumes(s, c, x),
        ),
{
    let from = index_set(states);
    let step = Set::new(|x: int| exists|s: int| from.contains(s) && #[trigger] a.consumes(s, c, x));
    assert forall|x: int| a.step_set(states, c).contains(x) <==> step.contains(x) by {
        if 0 <= x <= usize::MAX {
            lemma_consuming_of(a, states, c, x as usize);
        }
        if a.step_set(states, c).contains(x) {
            let k = choose|k: int|
                0 <= k < states.len() && a.consumes((#[trigger] states[k]) as int, c, x);
            assert(from.contains(states[k] as int));
        }
        if step.contains(x) {
            let s = choose|s: int| from.contains(s) && #[trigger] a.consumes(s, c, x);
            let k = choose|k: int| 0 <= k < states.len() && #[trigger] states[k] == s;
            assert(a.consumes(states[k] as int, c, x));
        }
    }
    assert(a.step_set(states, c) =~= step);
    assert(a.after(states, c) =~= a.after_set(from, c));
}

/// Nothing is reached from no state.
pub proof fn lemma_after_empty(a: NfaView, c: u32)
    ensures
        a.after_set(Set::empty(), c) == Set::<int>::empty(),
{
    let step = Set::new(
        |x: int| exists|s: int| Set::<int>::empty().contains(s) && #[trigger] a.consumes(s, c, x),
    );
    assert forall|t: int| !a.after_set(Set::empty(), c).contains(t) by {
        if reach_from(a.rel(false), step, t) {
            let o = choose|o: int| step.contains(o) && #[trigger] reaches(a.rel(false), o, t);
            assert(step.contains(o));
        }
    }
    assert(a.after_set(Set::empty(), c) =~= Set::<int>::empty());
}

/// One step of the deterministic automaton is one step of the sets of states.
pub proof fn lemma_subset_step(a: NfaView, d: DfaView, sets: Seq<Seq<usize>>, i: int, c: u32)
    requires
        a.wf(),
        is_subset_construction(a, d, sets),
        0 <= i < sets.len(),
        i <= usize::MAX,
    ensures
        match d.next(Some(i as usize), c) {
            Some(j) => j < sets.len() && index_set(sets[j as int]) == a.after_set(
                index_set(sets[i]),
                c,
            ),
            None => a.after_set(index_set(sets[i]), c) == Set::<int>::empty(),
        },
{
    let tr = d.states[i].transitions;
    let m = a.consuming_of(sets[i]);
    assert(complete(a, d, sets, i));
    lemma_find(tr, c);
    lemma_after_set(a, sets[i], c);
    match d.next(Some(i as usize), c) {
        Some(j) => {
            let k = choose|k: int| 0 <= k < tr.len() && (#[trigger] tr[k]).0.has(c) && tr[k].1 == j;
            assert(d.states[i].transitions[k].0.has(c));
        },
        None => {
            let step = a.step_set(sets[i], c);
            assert forall|t: int| !a.after(sets[i], c).contains(t) by {
                if reach_from(a.rel(false), step, t) {
                    let o = choose|o: int| step.contains(o) && #[trigger] reaches(a.rel(false), o, t);
                    assert(maps_to(m, c, o as usize));
                    assert(keys_have(tr, c));
                }
            }
            assert(a.after(sets[i], c) =~= Set::<int>::empty());
        },
    }
}

/// After every input the deterministic automaton is in the state whose set holds the
/// states in which the other automaton can be; it has nowhere to go if and only if the
/// other cannot be anywhere.
pub proof fn lemma_subset_run(a: NfaView, d: DfaView, sets: Seq<Seq<usize>>, i: int, w: Seq<u32>)
    requires
        a.wf(),
        is_subset_construction(a, d, sets),
        0 <= i < sets.len(),
        sets.len() <= usize::MAX,
    ensures
        match d.run(Some(i as usize), w) {
            Some(j) => j < sets.len() && index_set(sets[j as int]) == a.run(index_set(sets[i]), w),
            None => a.run(index_set(sets[i]), w) == Set::<int>::empty(),
        },
    decreases w.len(),
{
    if w.len() > 0 {
        let v = w.drop_last();
        let c = w.last();
        lemma_subset_run(a, d, sets, i, v);
        match d.run(Some(i as usize), v) {
            Some(j) => {
                lemma_subset_step(a, d, sets, j as int, c);
            },
            None => {
                lemma_after_empty(a, c);
            },
        }
    }
}

/// How a list of states accepts over bytes is how its set of states does.
pub proof fn lemma_profile(a: NfaView, states: Seq<usize>)
    ensures
        a.is_profile(index_set(states), a.dfa_accept_of(states)),
    decreases states.len(),
{
    let set = index_set(states);
    let acc = a.dfa_accept_of(states);
    if states.len() > 0 {
        let rest = states.drop_last();
        let x = states.last() as int;
        lemma_profile(a, rest);
        let racc = a.dfa_accept_of(rest);
        let rset = index_set(rest);
        let xa = a.states[x].dfa_accept;
        assert forall|s: int| set.contains(s) <==> (rset.contains(s) || s == x) by {
            if set.contains(s) {
                let k = choose|k: int| 0 <= k < states.len() && #[trigger] states[k] == s;
                if k < rest.len() {
                    assert(rest[k] == s);
                }
            }
            if rset.contains(s) {
                let k = choose|k: int| 0 <= k < rest.len() && #[trigger] rest[k] == s;
                assert(states[k] == s);
            }
            if s == x {
                assert(states[states.len() - 1] == s);
            }
        }
        if racc.at_eoi {
            let s = choose|s: int| rset.contains(s) && (#[trigger] a.states[s]).dfa_accept.at_eoi;
            assert(set.contains(s) && a.states[s].dfa_accept.at_eoi);
        }
        if xa.at_eoi {
            assert(set.contains(x) && a.states[x].dfa_accept.at_eoi);
        }
        if racc.otherwise {
            let s = choose|s: int| rset.contains(s) && (#[trigger] a.states[s]).dfa_accept.otherwise;
            assert(set.contains(s) && a.states[s].dfa_accept.otherwise);
        }
        if xa.otherwise {
            assert(set.contains(x) && a.states[x].dfa_accept.otherwise);
        }
        if acc.bytes_behind != 0 {
            if xa.bytes_behind == acc.bytes_behind {
                assert(set.contains(x) && a.states[x].dfa_accept.bytes_behind == acc.bytes_behind);
            } else {
                let s = choose|s: int|
                    rset.contains(s) && (#[trigger] a.states[s]).dfa_accept.bytes_behind
                        == racc.bytes_behind;
                assert(set.contains(s) && a.states[s].dfa_accept.bytes_behind == acc.bytes_behind);
            }
        }
    }
}

/// The deterministic automaton accepts what the other automaton accepts: from the state
/// of a set of states it is, after every input, in a state that accepts as the states do
/// in which the other automaton can then be, and it has nowhere to go if and only if the
/// other cannot be anywhere.
pub proof fn lemma_determinize_accepts(
    a: NfaView,
    d: DfaView,
    sets: Seq<Seq<usize>>,
    i: int,
    w: Seq<u32>,
)
    requires
        a.wf(),
        is_subset_construction(a, d, sets),
        0 <= i < sets.len(),
        sets.len() <= usize::MAX,
    ensures
        match d.run(Some(i as usize), w) {
            Some(j) => j < sets.len() && a.is_profile(
                a.run(index_set(sets[i]), w),
                d.states[j as int].accept,
            ),
            None => a.run(index_set(sets[i]), w) == Set::<int>::empty(),
        },
{
    lemma_subset_run(a, d, sets, i, w);
    match d.run(Some(i as usize), w) {
        Some(j) => {
            lemma_profile(a, sets[j as int]);
        },
        None => {},
    }
}

/// The same from where a match starts anywhere, and from where it starts at the beginning
/// of the input: the deterministic automaton has a state to start in if and only if the
/// other automaton has one, and accepts from there as the other does.
pub proof fn lemma_determinize_from_start(a: NfaView, d: DfaView, sets: Seq<Seq<usize>>, w: Seq<u32>)
    requires
        a.wf(),
        is_subset_construction(a, d, sets),
        sets.len() <= usize::MAX,
    ensures
        match d.init_otherwise {
            Some(i) => match d.run(Some(i), w) {
                Some(j) => j < sets.len() && a.is_profile(
                    a.run(a.eps_closure(a.init), w),
                    d.states[j as int].accept,
                ),
                None => a.run(a.eps_closure(a.init), w) == Set::<int>::empty(),
            },
            None => a.init.len() == 0,
        },
        match d.init_at_start {
            Some(i) => match d.run(Some(i), w) {
                Some(j) => j < sets.len() && a.is_profile(
                    a.run(a.eps_closure(a.init_at_start), w),
                    d.states[j as int].accept,
                ),
                None => a.run(a.eps_closure(a.init_at_start), w) == Set::<int>::empty(),
            },
            None => a.init_at_start.len() == 0,
        },
{
    assert(seeds_ok(a, d, sets));
    match d.init_otherwise {
        Some(i) => {
            lemma_determinize_accepts(a, d, sets, i as int, w);
        },
        None => {},
    }
    match d.init_at_start {
        Some(i) => {
            lemma_determinize_accepts(a, d, sets, i as int, w);
        },
        None => {},
    }
}

/// From no state the automaton gets nowhere.
pub proof fn lemma_run_empty(a: NfaView, w: Seq<u32>)
    ensures
        a.run(Set::empty(), w) == Set::<int>::empty(),
    decreases w.len(),
{
    if w.len() > 0 {
        lemma_run_empty(a, w.drop_last());
        lemma_after_empty(a, w.last());
    }
}

/// An entry of `init_after_char` that gives a state is among those that do.
pub proof fn lemma_seed_index(a: NfaView, upto: int, k: int)
    requires
        0 <= k < upto <= a.init_after_char.len(),
        a.init_after_char[k].1.len() > 0 || a.init.len() > 0,
    ensures
        exists|q: int|
            0 <= q < after_char_seeds(a, upto).len() && #[trigger] after_char_seeds(a, upto)[q]
                == a.init_after_char[k],
    decreases upto,
{
    let cur = after_char_seeds(a, upto);
    if k == upto - 1 {
        assert(cur[cur.len() - 1] == a.init_after_char[k]);
    } else {
        lemma_seed_index(a, upto - 1, k);
        let rest = after_char_seeds(a, upto - 1);
        let q = choose|q: int| 0 <= q < rest.len() && #[trigger] rest[q] == a.init_after_char[k];
        assert(cur[q] == a.init_after_char[k]);
    }
}

/// Every set of states in which the automaton can be after some input, if it holds any
/// state, is the set of a state of the deterministic automaton.
pub proof fn lemma_determinize_complete(a: NfaView, d: DfaView, sets: Seq<Seq<usize>>, set: Set<int>)
    requires
        a.wf(),
        is_subset_construction(a, d, sets),
        sets.len() <= usize::MAX,
        a.reachable_set(set),
        set != Set::<int>::empty(),
    ensures
        exists|j: int| 0 <= j < sets.len() && index_set(#[trigger] sets[j]) == set,
{
    let (seed, w) = choose|seed: Set<int>, w: Seq<u32>|
        a.is_seed(seed) && set == #[trigger] a.run(seed, w);
    assert(seeds_ok(a, d, sets));
    let start: Option<usize> = if seed == a.eps_closure(a.init) {
        d.init_otherwise
    } else if seed == a.eps_closure(a.init_at_start) {
        d.init_at_start
    } else {
        let k = choose|k: int|
            0 <= k < a.init_after_char.len() && seed == a.eps_closure(
                (#[trigger] a.init_after_char[k]).1,
            ).union(a.eps_closure(a.init));
        if a.init_after_char[k].1.len() > 0 || a.init.len() > 0 {
            lemma_seed_index(a, a.init_after_char.len() as int, k);
            let seeds = after_char_seeds(a, a.init_after_char.len() as int);
            let q = choose|q: int| 0 <= q < seeds.len() && #[trigger] seeds[q] == a.init_after_char[k];
            assert(d.init_after_char[q].1 < sets.len());
            Some(d.init_after_char[q].1)
        } else {
            None
        }
    };
    match start {
        Some(i) => {
            assert(i < sets.len() && index_set(sets[i as int]) == seed);
            lemma_subset_run(a, d, sets, i as int, w);
            let j = d.run(Some(i), w).unwrap();
            assert(index_set(sets[j as int]) == set);
        },
        None => {
            assert(seed =~= Set::<int>::empty()) by {
                crate::determinize::lemma_closure_holds(a, a.init);
                crate::determinize::lemma_closure_holds(a, a.init_at_start);
                if !(seed == a.eps_closure(a.init)) && !(seed == a.eps_closure(a.init_at_start)) {
                    let k = choose|k: int|
                        0 <= k < a.init_after_char.len() && seed == a.eps_closure(
                            (#[trigger] a.init_after_char[k]).1,
                        ).union(a.eps_closure(a.init));
                    crate::determinize::lemma_closure_holds(a, a.init_after_char[k].1);
                }
            }
            lemma_run_empty(a, w);
        },
    }
}

/// As many different numbers below `n` as one likes are at most `n`.
pub proof fn lemma_pigeonhole(f: Seq<int>, n: int)
    requires
        0 <= n,
        forall|i: int| 0 <= i < f.len() ==> 0 <= (#[trigger] f[i]) && f[i] < n,
        forall|i: int, j: int| 0 <= i < j < f.len() ==> f[i] != f[j],
    ensures
        f.len() <= n,
    decreases n,
{
    if f.len() > 0 {
        if n == 0 {
            assert(0 <= f[0] && f[0] < n);
        } else {
            let g = if exists|p: int| 0 <= p < f.len() && f[p] == n - 1 {
                let p = choose|p: int| 0 <= p < f.len() && f[p] == n - 1;
                f.remove(p)
            } else {
                f
            };
            assert forall|i: int| 0 <= i < g.len() implies 0 <= (#[trigger] g[i]) && g[i] < n - 1 by {
                if exists|p: int| 0 <= p < f.len() && f[p] == n - 1 {
                    let p = choose|p: int| 0 <= p < f.len() && f[p] == n - 1;
                    if i < p {
                        assert(g[i] == f[i]);
                        assert(f[i] != f[p]);
                    } else {
                        assert(g[i] == f[i + 1]);
                        assert(f[p] != f[i + 1]);
                    }
                } else {
                    assert(f[i] != n - 1);
                }
            }
            assert forall|i: int, j: int| 0 <= i < j < g.len() implies g[i] != g[j] by {
                if exists|p: int| 0 <= p < f.len() && f[p] == n - 1 {
                    let p = choose|p: int| 0 <= p < f.len() && f[p] == n - 1;
                    let i2 = if i < p { i } else { i + 1 };
                    let j2 = if j < p { j } else { j + 1 };
                    assert(g[i] == f[i2] && g[j] == f[j2]);
                    assert(f[i2] != f[j2]);
                }
            }
            lemma_pigeonhole(g, n - 1);
        }
    }
}

/// The deterministic automaton has a state for each set of states in which the other can
/// be after some input: where it was built, the sets were not too many.
pub proof fn lemma_determinize_not_too_many(
    a: NfaView,
    d: DfaView,
    sets: Seq<Seq<usize>>,
    family: Seq<Seq<usize>>,
    max: int,
)
    requires
        a.wf(),
        is_subset_construction(a, d, sets),
        sets.len() <= usize::MAX,
        too_many(a, family, max),
    ensures
        sets.len() > max,
{
    let f = Seq::new(
        family.len(),
        |i: int| choose|j: int| 0 <= j < sets.len() && index_set(#[trigger] sets[j]) == index_set(family[i]),
    );
    assert forall|i: int| 0 <= i < f.len() implies 0 <= (#[trigger] f[i]) && f[i] < sets.len()
        && sets[f[i]] == family[i] by {
        assert(family[i].len() > 0);
        assert(index_set(family[i]).contains(family[i][0] as int));
        lemma_determinize_complete(a, d, sets, index_set(family[i]));
        let j = f[i];
        assert(0 <= j < sets.len() && index_set(sets[j]) == index_set(family[i]));
        assert(table_ok(a, d, sets));
        assert(sorted(sets[j]));
        assert forall|x: usize| sets[j].contains(x) <==> family[i].contains(x) by {
            crate::nfa::lemma_index_set(sets[j], x);
            crate::nfa::lemma_index_set(family[i], x);
        }
        lemma_sorted_unique(sets[j], family[i]);
    }
    assert forall|i: int, j: int| 0 <= i < j < f.len() implies f[i] != f[j] by {
        assert(sets[f[i]] == family[i]);
        assert(sets[f[j]] == family[j]);
        assert(family[i] != family[j]);
    }
    if max >= 0 {
        lemma_pigeonhole(f, sets.len() as int);
    }
}

} // verus!
