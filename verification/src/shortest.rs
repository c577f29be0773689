//! Cutting away what follows an unconditional accept: for the shortest match it is of no
//! use.

use crate::char_map::{CharMultiMap, CharRange};
use crate::graph::{
    closed, lemma_closed_reaches, lemma_reaches_mono, lemma_reaches_refl, lemma_reaches_step,
    reach_from, reaches,
};
use crate::nfa::{index_set, lemma_wf_with_transitions, Nfa, NfaView, StateView};
use crate::state_set::{below, lemma_sorted_unique, sorted};
use crate::transition::{AcceptView, PredicateView, TransitionsView};
use crate::trim::{
    lemma_rank, lemma_remap_contains, lemma_trim_keeps_live, lemma_trimmed_wf, pair_map, rank,
    rank_map, remap, remap_pairs, target_map,
};
use vstd::prelude::*;

verus! {

impl NfaView {
    /// Whether a state that ε-transitions reach from `s` accepts before the code point `c`.
    pub open spec fn closure_accepts_before(self, s: int, c: u32) -> bool {
        exists|t: int|
            #[trigger] self.eps_closure(seq![s as usize]).contains(t) && 0 <= t
                < self.states.len() && self.states[t].accept.has(c)
    }

    /// Whether a state that ε-transitions reach from `s` accepts at the end of the input.
    pub open spec fn closure_accepts_at_eoi(self, s: int) -> bool {
        exists|t: int|
            #[trigger] self.eps_closure(seq![s as usize]).contains(t) && 0 <= t
                < self.states.len() && self.states[t].accept.at_eoi
    }

    /// Whether the states that ε-transitions reach from `s`, taken together, accept
    /// whatever follows.
    pub open spec fn always_after(self, s: int) -> bool {
        self.closure_accepts_at_eoi(s) && forall|c: u32| #[trigger] self.closure_accepts_before(s, c)
    }

    /// The state `s` without what is of no use to the shortest match: without its consuming
    /// and predicate transitions if it accepts whatever follows, by itself or through
    /// ε-transitions, and without its ε-transitions if it does so by itself.
    pub open spec fn cut_state(self, s: int) -> StateView {
        let st = self.states[s];
        StateView {
            transitions: TransitionsView {
                consuming: if self.always_after(s) {
                    Seq::empty()
                } else {
                    st.transitions.consuming
                },
                eps: if st.accept == AcceptView::always() {
                    Seq::empty()
                } else {
                    st.transitions.eps
                },
                predicates: if self.always_after(s) {
                    Seq::empty()
                } else {
                    st.transitions.predicates
                },
            },
            accept: st.accept,
            dfa_accept: st.dfa_accept,
        }
    }

    /// The automaton as it is for the search of the shortest match: with every state cut
    /// so, and then without the states through which no match can pass.
    pub open spec fn optimized(self) -> NfaView {
        self.shortest_cut().trimmed(self.shortest_cut().live_seq())
    }

    /// The automaton with every state cut so.
    pub open spec fn shortest_cut(self) -> NfaView {
        NfaView {
            states: Seq::new(self.states.len(), |s: int| self.cut_state(s)),
            init: self.init,
            init_at_start: self.init_at_start,
            init_after_char: self.init_after_char,
        }
    }
}

/// Whether the two automata have the same ε-transitions and the same acceptance.
pub open spec fn same_eps(a: NfaView, b: NfaView) -> bool {
    &&& a.states.len() == b.states.len()
    &&& forall|s: int|
        0 <= s < a.states.len() ==> (#[trigger] a.states[s]).transitions.eps
            == b.states[s].transitions.eps && a.states[s].accept == b.states[s].accept
}

/// With the same ε-transitions and the same acceptance, the same states accept whatever
/// follows.
pub proof fn lemma_same_eps(a: NfaView, b: NfaView, s: int)
    requires
        same_eps(a, b),
    ensures
        a.eps_closure(seq![s as usize]) == b.eps_closure(seq![s as usize]),
        a.always_after(s) == b.always_after(s),
{
    let ea = a.rel(false);
    let eb = b.rel(false);
    assert forall|x: int, y: int| #[trigger] ea(x, y) <==> eb(x, y) by {
        if 0 <= x < a.states.len() {
            assert(a.states[x].transitions.eps == b.states[x].transitions.eps);
        }
    }
    let from = index_set(seq![s as usize]);
    assert forall|t: int| reach_from(ea, from, t) <==> reach_from(eb, from, t) by {
        if reach_from(ea, from, t) {
            let o = choose|o: int| from.contains(o) && #[trigger] reaches(ea, o, t);
            lemma_reaches_mono(ea, eb, o, t);
        }
        if reach_from(eb, from, t) {
            let o = choose|o: int| from.contains(o) && #[trigger] reaches(eb, o, t);
            lemma_reaches_mono(eb, ea, o, t);
        }
    }
    let ca = a.eps_closure(seq![s as usize]);
    let cb = b.eps_closure(seq![s as usize]);
    assert(ca =~= cb);
    assert forall|t: int| 0 <= t < a.states.len() implies (#[trigger] a.states[t]).accept
        == b.states[t].accept by {}
    if a.closure_accepts_at_eoi(s) {
        let t = choose|t: int|
            #[trigger] ca.contains(t) && 0 <= t < a.states.len() && a.states[t].accept.at_eoi;
        assert(cb.contains(t) && b.states[t].accept.at_eoi);
    }
    if b.closure_accepts_at_eoi(s) {
        let t = choose|t: int|
            #[trigger] cb.contains(t) && 0 <= t < b.states.len() && b.states[t].accept.at_eoi;
        assert(ca.contains(t) && a.states[t].accept.at_eoi);
    }
    assert forall|c: u32| a.closure_accepts_before(s, c) == b.closure_accepts_before(s, c) by {
        if a.closure_accepts_before(s, c) {
            let t = choose|t: int|
                #[trigger] ca.contains(t) && 0 <= t < a.states.len() && a.states[t].accept.has(c);
            assert(cb.contains(t) && b.states[t].accept.has(c));
        }
        if b.closure_accepts_before(s, c) {
            let t = choose|t: int|
                #[trigger] cb.contains(t) && 0 <= t < b.states.len() && b.states[t].accept.has(c);
            assert(ca.contains(t) && a.states[t].accept.has(c));
        }
    }
    if a.always_after(s) {
        assert forall|c: u32| #[trigger] b.closure_accepts_before(s, c) by {
            assert(a.closure_accepts_before(s, c));
        }
    }
    if b.always_after(s) {
        assert forall|c: u32| #[trigger] a.closure_accepts_before(s, c) by {
            assert(b.closure_accepts_before(s, c));
        }
    }
}

impl Nfa {
    /// Whether the states that ε-transitions reach from `s`, taken together, accept
    /// whatever follows.
    fn accepts_always_after(&self, s: usize) -> (b: bool)
        requires
            self.wf(),
            s < self@.num(),
        ensures
            b == self@.always_after(s as int),
    {
        let closure = self.eps_closure_single(s);
        let acc = self.accept(&closure);
        let b = acc.is_always();
        proof {
            let cl = self@.eps_closure(seq![s]);
            assert(index_set(closure@) == cl);
            if acc@.at_eoi {
                let k = choose|k: int|
                    0 <= k < closure@.len() && self@.states[(
                    #[trigger] closure@[k]) as int].accept.at_eoi;
                assert(index_set(closure@).contains(closure@[k] as int));
                assert(cl.contains(closure@[k] as int));
                assert(closure@[k] < self@.num());
                assert(cl == self@.eps_closure(seq![(s as int) as usize]));
                assert(self@.closure_accepts_at_eoi(s as int));
            }
            if self@.closure_accepts_at_eoi(s as int) {
                let t = choose|t: int|
                    #[trigger] cl.contains(t) && 0 <= t < self@.states.len()
                        && self@.states[t].accept.at_eoi;
                assert(index_set(closure@).contains(t));
                let k = choose|k: int| 0 <= k < closure@.len() && #[trigger] closure@[k] == t;
                assert(self@.states[closure@[k] as int].accept.at_eoi);
                assert(self@.accepts_at_eoi(closure@));
            }
            assert forall|c: u32| acc@.has(c) <==> self@.closure_accepts_before(s as int, c) by {
                assert(acc@.has(c) <==> self@.accepts_before(closure@, c));
                if self@.accepts_before(closure@, c) {
                    let k = choose|k: int|
                        0 <= k < closure@.len() && self@.states[(
                        #[trigger] closure@[k]) as int].accept.has(c);
                    assert(index_set(closure@).contains(closure@[k] as int));
                    assert(cl.contains(closure@[k] as int));
                    assert(closure@[k] < self@.num());
                    assert(cl == self@.eps_closure(seq![(s as int) as usize]));
                    assert(self@.closure_accepts_before(s as int, c));
                }
                if self@.closure_accepts_before(s as int, c) {
                    let t = choose|t: int|
                        #[trigger] cl.contains(t) && 0 <= t < self@.states.len()
                            && self@.states[t].accept.has(c);
                    assert(index_set(closure@).contains(t));
                    let k = choose|k: int| 0 <= k < closure@.len() && #[trigger] closure@[k] == t;
                    assert(self@.states[closure@[k] as int].accept.has(c));
                    assert(self@.accepts_before(closure@, c));
                }
            }
            if b {
                assert forall|c: u32| #[trigger] self@.closure_accepts_before(s as int, c) by {
                    assert(acc@.has(c));
                }
            }
            if self@.always_after(s as int) {
                assert forall|c: u32| acc@.has(c) by {
                    assert(self@.closure_accepts_before(s as int, c));
                }
            }
        }
        b
    }

    /// Removes the transitions that follow an unconditional accept, and then the states
    /// through which no match can pass any more.
    pub fn optimize_for_shortest_match(&mut self)
        requires
            old(self).wf(),
        ensures
            final(self)@ == old(self)@.shortest_cut().trimmed(
                old(self)@.shortest_cut().live_seq(),
            ),
            old(self)@.shortest_cut().live_seq_ok(),
            final(self).wf(),
    {
        let n = self.states.len();
        let ghost a = self@;
        let mut idx: usize = 0;
        while idx < n
            invariant
                idx <= n,
                n == self.states@.len(),
                a.wf(),
                a.states.len() == n,
                self.wf(),
                same_eps(a, self@),
                self@.init == a.init,
                self@.init_at_start == a.init_at_start,
                self@.init_after_char == a.init_after_char,
                forall|s: int|
                    0 <= s < n ==> (#[trigger] self@.states[s]).dfa_accept == a.states[s].dfa_accept,
                forall|s: int|
                    0 <= s < idx ==> (#[trigger] self@.states[s]).transitions.consuming
                        == a.cut_state(s).transitions.consuming && self@.states[s].transitions.predicates
                        == a.cut_state(s).transitions.predicates,
                forall|s: int|
                    idx <= s < n ==> (#[trigger] self@.states[s]).transitions == a.states[s].transitions,
            decreases n - idx,
        {
            let ghost before = self@;
            proof {
                lemma_same_eps(a, before, idx as int);
            }
            if self.accepts_always_after(idx) {
                self.states[idx].transitions.predicates.clear();
                self.states[idx].transitions.consuming = CharMultiMap::new();
                proof {
                    let t = TransitionsView {
                        consuming: Seq::empty(),
                        eps: before.states[idx as int].transitions.eps,
                        predicates: Seq::empty(),
                    };
                    assert(self@.states[idx as int].transitions.predicates =~= Seq::empty());
                    assert(self@.states =~= before.states.update(
                        idx as int,
                        before.states[idx as int].with_transitions(t),
                    ));
                    assert(before.states[idx as int].transitions.wf(n as int));
                    lemma_wf_with_transitions(before, idx as int, t);
                    assert(self@ == before.with_state(
                        idx as int,
                        before.states[idx as int].with_transitions(t),
                    ));
                }
            }
            idx += 1;
        }
        let ghost mid = self@;
        idx = 0;
        while idx < n
            invariant
                idx <= n,
                n == self.states@.len(),
                a.wf(),
                a.states.len() == n,
                self.wf(),
                mid.states.len() == n,
                self@.init == a.init,
                self@.init_at_start == a.init_at_start,
                self@.init_after_char == a.init_after_char,
                forall|s: int|
                    0 <= s < n ==> (#[trigger] self@.states[s]).dfa_accept == a.states[s].dfa_accept
                        && self@.states[s].accept == a.states[s].accept,
                forall|s: int|
                    0 <= s < n ==> (#[trigger] self@.states[s]).transitions.consuming
                        == a.cut_state(s).transitions.consuming && self@.states[s].transitions.predicates
                        == a.cut_state(s).transitions.predicates,
                forall|s: int|
                    0 <= s < idx ==> (#[trigger] self@.states[s]).transitions.eps == a.cut_state(
                        s,
                    ).transitions.eps,
                forall|s: int|
                    idx <= s < n ==> (#[trigger] self@.states[s]).transitions.eps
                        == a.states[s].transitions.eps,
            decreases n - idx,
        {
            let ghost before = self@;
            proof {
                assert(before.states[idx as int].accept.wf());
                assert(before.states[idx as int] == self.states@[idx as int]@);
            }
            if self.states[idx].accept.is_always() {
                self.states[idx].transitions.eps.clear();
                proof {
                    let t = TransitionsView {
                        consuming: before.states[idx as int].transitions.consuming,
                        eps: Seq::empty(),
                        predicates: before.states[idx as int].transitions.predicates,
                    };
                    assert(self@.states =~= before.states.update(
                        idx as int,
                        before.states[idx as int].with_transitions(t),
                    ));
                    assert(before.states[idx as int].transitions.wf(n as int));
                    lemma_wf_with_transitions(before, idx as int, t);
                    assert(self@ == before.with_state(
                        idx as int,
                        before.states[idx as int].with_transitions(t),
                    ));
                }
            }
            idx += 1;
        }
        proof {
            assert(self@.states =~= a.shortest_cut().states);
            assert(self@ == a.shortest_cut());
        }
        self.trim_unreachable();
    }
}

/// A state through which a match can pass is a state of the automaton.
pub proof fn lemma_live_in_range(a: NfaView, s: int)
    requires
        a.wf(),
        a.is_live(s),
    ensures
        0 <= s < a.num(),
{
    let e = a.rel(true);
    let f = choose|f: int| a.is_accepting(f) && #[trigger] reaches(e, s, f);
    let p = choose|p: Seq<int>| #[trigger] crate::graph::is_path(e, p) && p[0] == s && p[p.len() - 1] == f;
    if p.len() > 1 {
        assert(e(p[0], p[1]));
    }
}

/// The states below `n` through which a match can pass, in increasing order.
pub open spec fn live_below(a: NfaView, n: int) -> Seq<usize>
    decreases n,
{
    if n <= 0 {
        Seq::empty()
    } else if a.is_live(n - 1) {
        live_below(a, n - 1).push((n - 1) as usize)
    } else {
        live_below(a, n - 1)
    }
}

/// `live_below` lists the states below `n` through which a match can pass.
pub proof fn lemma_live_below(a: NfaView, n: int)
    requires
        0 <= n <= usize::MAX,
    ensures
        sorted(live_below(a, n)),
        below(live_below(a, n), n),
        forall|s: int|
            #[trigger] index_set(live_below(a, n)).contains(s) <==> (0 <= s < n && a.is_live(s)),
    decreases n,
{
    if n > 0 {
        lemma_live_below(a, n - 1);
        let r = live_below(a, n - 1);
        let q = live_below(a, n);
        assert forall|s: int| #[trigger] index_set(q).contains(s) <==> (0 <= s < n && a.is_live(s)) by {
            if index_set(q).contains(s) {
                let k = choose|k: int| 0 <= k < q.len() && #[trigger] q[k] == s;
                if k < r.len() {
                    assert(r[k] == s);
                    assert(index_set(r).contains(s));
                }
            }
            if 0 <= s < n && a.is_live(s) {
                if s < n - 1 {
                    assert(index_set(r).contains(s));
                    let k = choose|k: int| 0 <= k < r.len() && #[trigger] r[k] == s;
                    assert(q[k] == s);
                } else {
                    assert(q[q.len() - 1] == s);
                }
            }
        }
        assert forall|i: int, j: int| 0 <= i < j < q.len() implies q[i] < q[j] by {
            if j == r.len() {
                assert(r[i] < n - 1);
            }
        }
    }
}

/// Every well-formed automaton has the list of the states through which a match can pass.
pub proof fn lemma_live_exists(a: NfaView)
    requires
        a.wf(),
        a.num() <= usize::MAX,
    ensures
        a.live_seq_ok(),
{
    let k = live_below(a, a.num());
    lemma_live_below(a, a.num());
    assert forall|s: int| #[trigger] index_set(k).contains(s) <==> a.is_live(s) by {
        if a.is_live(s) {
            lemma_live_in_range(a, s);
        }
    }
    assert(sorted(k) && below(k, a.num()) && forall|s: int| #[trigger]
        index_set(k).contains(s) <==> a.is_live(s));
}

/// Cutting leaves the automaton well formed.
pub proof fn lemma_cut_wf(a: NfaView)
    requires
        a.wf(),
    ensures
        a.shortest_cut().wf(),
{
    let c = a.shortest_cut();
    assert forall|s: int| 0 <= s < c.states.len() implies (#[trigger] c.states[s]).transitions.wf(
        c.num(),
    ) && c.states[s].accept.wf() by {
        assert(a.states[s].transitions.wf(a.num()));
    }
}

/// With every state in its place, the list of the targets that stay is the list.
pub proof fn lemma_remap_identity(s: Seq<usize>, map: Seq<Option<usize>>)
    requires
        below(s, map.len() as int),
        forall|x: int| 0 <= x < map.len() ==> #[trigger] map[x] == Some(x as usize),
    ensures
        remap(s, map) == s,
    decreases s.len(),
{
    if s.len() > 0 {
        let rest = s.drop_last();
        lemma_remap_identity(rest, map);
        assert(s[s.len() - 1] < map.len());
        assert(target_map(map)(s.last()) == Some(s.last()));
        assert(remap(s, map) =~= remap(rest, map) + seq![s.last()]);
        assert(s =~= rest + seq![s.last()]);
    } else {
        assert(remap(s, map) =~= s);
    }
}

/// The same for transitions that carry a label.
pub proof fn lemma_remap_pairs_identity<A>(s: Seq<(A, usize)>, map: Seq<Option<usize>>)
    requires
        forall|k: int| 0 <= k < s.len() ==> (#[trigger] s[k]).1 < map.len(),
        forall|x: int| 0 <= x < map.len() ==> #[trigger] map[x] == Some(x as usize),
    ensures
        remap_pairs(s, map) == s,
    decreases s.len(),
{
    if s.len() > 0 {
        let rest = s.drop_last();
        assert forall|k: int| 0 <= k < rest.len() implies (#[trigger] rest[k]).1 < map.len() by {
            assert(s[k].1 < map.len());
        }
        lemma_remap_pairs_identity(rest, map);
        assert(s[s.len() - 1].1 < map.len());
        assert(pair_map::<A>(map)(s.last()) == Some(s.last()));
        assert(remap_pairs(s, map) =~= remap_pairs(rest, map) + seq![s.last()]);
        assert(s =~= rest + seq![s.last()]);
    } else {
        assert(remap_pairs(s, map) =~= s);
    }
}

/// Trimming an automaton whose states all stay changes nothing.
pub proof fn lemma_trim_all(b: NfaView, keep: Seq<usize>)
    requires
        b.wf(),
        keep.len() == b.num(),
        forall|j: int| 0 <= j < keep.len() ==> #[trigger] keep[j] == j,
    ensures
        b.trimmed(keep) == b,
{
    let n = b.num();
    let map = rank_map(keep, n);
    assert(sorted(keep));
    assert forall|x: int| 0 <= x < map.len() implies #[trigger] map[x] == Some(x as usize) by {
        assert(keep[x] == x);
        lemma_rank(keep, x);
    }
    let t = b.trimmed(keep);
    assert forall|j: int| 0 <= j < n implies t.states[j] == b.states[j] by {
        let tr = b.states[j].transitions;
        assert(tr.wf(n));
        assert(keep[j] == j);
        lemma_remap_identity(tr.eps, map);
        lemma_remap_pairs_identity(tr.consuming, map);
        lemma_remap_pairs_identity(tr.predicates, map);
    }
    assert(t.states =~= b.states);
    lemma_remap_identity(b.init, map);
    lemma_remap_identity(b.init_at_start, map);
    assert forall|k: int| 0 <= k < b.init_after_char.len() implies t.init_after_char[k]
        == b.init_after_char[k] by {
        assert(below(b.init_after_char[k].1, n));
        lemma_remap_identity(b.init_after_char[k].1, map);
    }
    assert(t.init_after_char =~= b.init_after_char);
}

/// An ε-transition of a trimmed automaton is one of the automaton, between the states
/// that stayed.
pub proof fn lemma_trim_eps_back(c: NfaView, keep: Seq<usize>, x: int, y: int)
    requires
        c.wf(),
        sorted(keep),
        below(keep, c.num()),
        c.trimmed(keep).eps_edge(x, y),
    ensures
        0 <= x < keep.len(),
        0 <= y < keep.len(),
        c.eps_edge(keep[x] as int, keep[y] as int),
{
    let b = c.trimmed(keep);
    let map = rank_map(keep, c.num());
    let ce = c.states[keep[x] as int].transitions.eps;
    let be = b.states[x].transitions.eps;
    assert(be == remap(ce, map));
    let k = choose|k: int| 0 <= k < be.len() && #[trigger] be[k] == y;
    assert(be.contains(y as usize));
    lemma_remap_contains(ce, map, y as usize);
    let q = choose|q: int| 0 <= q < ce.len() && target_map(map)(#[trigger] ce[q]) == Some(y as usize);
    let t = ce[q] as int;
    assert(map[t] == Some(y as usize));
    assert(map[t] == rank(keep, t));
    let j = choose|j: int| 0 <= j < keep.len() && #[trigger] keep[j] == t;
    lemma_rank(keep, j);
    assert(j == y);
    assert(ce[q] == keep[y]);
}

/// What ε-transitions reach in a trimmed automaton, they reach in the automaton.
pub proof fn lemma_trim_closure_back(c: NfaView, keep: Seq<usize>, x: int, y: int)
    requires
        c.wf(),
        sorted(keep),
        below(keep, c.num()),
        0 <= x < keep.len(),
        reaches(c.trimmed(keep).rel(false), x, y),
    ensures
        0 <= y < keep.len(),
        reaches(c.rel(false), keep[x] as int, keep[y] as int),
{
    let b = c.trimmed(keep);
    let eb = b.rel(false);
    let ec = c.rel(false);
    let t = Set::new(
        |z: int| 0 <= z < keep.len() && reaches(ec, keep[x] as int, keep[z] as int),
    );
    lemma_reaches_refl(ec, keep[x] as int);
    assert forall|u: int, v: int| t.contains(u) && #[trigger] eb(u, v) implies t.contains(v) by {
        lemma_trim_eps_back(c, keep, u, v);
        lemma_reaches_step(ec, keep[x] as int, keep[u] as int, keep[v] as int);
    }
    lemma_closed_reaches(eb, t, x, y);
}

/// A state that accepts whatever follows after cutting and trimming did so before.
pub proof fn lemma_always_back(a: NfaView, keep: Seq<usize>, j: int)
    requires
        a.wf(),
        sorted(keep),
        below(keep, a.num()),
        0 <= j < keep.len(),
        a.shortest_cut().trimmed(keep).always_after(j),
    ensures
        a.always_after(keep[j] as int),
{
    let c = a.shortest_cut();
    let b = c.trimmed(keep);
    lemma_cut_wf(a);
    crate::trim::lemma_sorted_index_le(keep, j);
    let ea = a.rel(false);
    let ec = c.rel(false);
    assert forall|u: int, v: int| #[trigger] ec(u, v) implies ea(u, v) by {
        if 0 <= u < a.states.len() {
            let ce = c.states[u].transitions.eps;
            let k = choose|k: int| 0 <= k < ce.len() && #[trigger] ce[k] == v;
            assert(a.states[u].transitions.eps[k] == v);
        }
    }
    let clb = b.eps_closure(seq![j as usize]);
    let cla = a.eps_closure(seq![keep[j]]);
    assert forall|t: int| clb.contains(t) implies 0 <= t < keep.len() && cla.contains(
        keep[t] as int,
    ) by {
        let o = choose|o: int|
            index_set(seq![j as usize]).contains(o) && #[trigger] reaches(b.rel(false), o, t);
        let q = choose|q: int| 0 <= q < 1 && #[trigger] seq![j as usize][q] == o;
        assert(o == j);
        lemma_trim_closure_back(c, keep, j, t);
        lemma_reaches_mono(ec, ea, keep[j] as int, keep[t] as int);
        assert(seq![keep[j]][0] == keep[j]);
        assert(index_set(seq![keep[j]]).contains(keep[j] as int));
    }
    assert(a.closure_accepts_at_eoi(keep[j] as int)) by {
        let t = choose|t: int|
            #[trigger] clb.contains(t) && 0 <= t < b.states.len() && b.states[t].accept.at_eoi;
        assert(cla.contains(keep[t] as int));
        assert(b.states[t].accept == a.states[keep[t] as int].accept);
        assert(a.eps_closure(seq![(keep[j] as int) as usize]) == cla);
    }
    assert forall|ch: u32| #[trigger] a.closure_accepts_before(keep[j] as int, ch) by {
        assert(b.closure_accepts_before(j, ch));
        let t = choose|t: int|
            #[trigger] clb.contains(t) && 0 <= t < b.states.len() && b.states[t].accept.has(ch);
        assert(cla.contains(keep[t] as int));
        assert(b.states[t].accept == a.states[keep[t] as int].accept);
        assert(a.eps_closure(seq![(keep[j] as int) as usize]) == cla);
    }
}

/// Cutting an automaton that was cut and trimmed changes nothing.
pub proof fn lemma_cut_again(a: NfaView, keep: Seq<usize>)
    requires
        a.wf(),
        sorted(keep),
        below(keep, a.num()),
    ensures
        a.shortest_cut().trimmed(keep).shortest_cut() == a.shortest_cut().trimmed(keep),
{
    let c = a.shortest_cut();
    let b = c.trimmed(keep);
    let map = rank_map(keep, c.num());
    let d = b.shortest_cut();
    assert forall|j: int| 0 <= j < b.states.len() implies d.states[j] == b.states[j] by {
        let x = keep[j] as int;
        assert(keep[j] < a.num());
        let st = b.states[j];
        if b.always_after(j) {
            lemma_always_back(a, keep, j);
            assert(c.states[x].transitions.consuming =~= Seq::empty());
            assert(c.states[x].transitions.predicates =~= Seq::empty());
            assert(remap_pairs::<CharRange>(Seq::empty(), map) =~= Seq::empty());
            assert(remap_pairs::<PredicateView>(Seq::empty(), map) =~= Seq::empty());
            assert(st.transitions.consuming =~= Seq::empty());
            assert(st.transitions.predicates =~= Seq::empty());
        }
        if st.accept == AcceptView::always() {
            assert(c.states[x].accept == AcceptView::always());
            assert(c.states[x].transitions.eps =~= Seq::empty());
            assert(remap(Seq::empty(), map) =~= Seq::empty());
            assert(st.transitions.eps =~= Seq::empty());
        }
        assert(d.states[j].transitions.consuming =~= st.transitions.consuming);
        assert(d.states[j].transitions.eps =~= st.transitions.eps);
        assert(d.states[j].transitions.predicates =~= st.transitions.predicates);
    }
    assert(d.states =~= b.states);
}

/// Optimizing for the shortest match twice gives what optimizing once gives.
pub proof fn lemma_optimize_idempotent(a: NfaView)
    requires
        a.wf(),
        a.num() <= usize::MAX,
    ensures
        ({
            let b = a.shortest_cut().trimmed(a.shortest_cut().live_seq());
            b.shortest_cut().trimmed(b.shortest_cut().live_seq()) == b
        }),
{
    let c = a.shortest_cut();
    lemma_cut_wf(a);
    lemma_live_exists(c);
    let keep = c.live_seq();
    let b = c.trimmed(keep);
    lemma_trimmed_wf(c, keep);
    lemma_trim_keeps_live(c, keep);
    lemma_cut_again(a, keep);
    assert(b.shortest_cut() == b);
    crate::trim::lemma_sorted_index_le_all(keep, c.num());
    lemma_live_exists(b);
    let k2 = b.live_seq();
    let iota = Seq::new(b.states.len(), |j: int| j as usize);
    assert forall|x: usize| k2.contains(x) <==> iota.contains(x) by {
        crate::nfa::lemma_index_set(k2, x);
        if k2.contains(x) {
            lemma_live_in_range(b, x as int);
            assert(iota[x as int] == x);
        }
        if iota.contains(x) {
            let j = choose|j: int| 0 <= j < iota.len() && iota[j] == x;
            assert(b.is_live(j));
        }
    }
    lemma_sorted_unique(k2, iota);
    lemma_trim_all(b, k2);
}

} // verus!
