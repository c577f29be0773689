//! How often a transition stands in an automaton, and how often in the automaton reversed.

use crate::char_map::CharRange;
use crate::nfa::NfaView;
use crate::transition::PredicateView;
use vstd::prelude::*;

verus! {

/// How often `x` stands in `s`.
pub open spec fn count_of<A>(s: Seq<A>, x: A) -> nat
    decreases s.len(),
{
    if s.len() == 0 {
        0
    } else {
        count_of(s.drop_last(), x) + if s.last() == x {
            1nat
        } else {
            0nat
        }
    }
}

/// One more element is counted once more where it is the one that is counted.
pub proof fn lemma_count_push<A>(s: Seq<A>, e: A, x: A)
    ensures
        count_of(s.push(e), x) == count_of(s, x) + if e == x {
            1nat
        } else {
            0nat
        },
{
    assert(s.push(e).drop_last() =~= s);
}

/// What a sequence holds is what is counted in it at least once.
pub proof fn lemma_count_contains<A>(s: Seq<A>, x: A)
    ensures
        count_of(s, x) > 0 <==> s.contains(x),
    decreases s.len(),
{
    if s.len() > 0 {
        let d = s.drop_last();
        lemma_count_contains(d, x);
        if d.contains(x) {
            let i = choose|i: int| 0 <= i < d.len() && d[i] == x;
            assert(s[i] == x);
        }
        if s.last() == x {
            assert(s[s.len() - 1] == x);
        }
        if s.contains(x) {
            let i = choose|i: int| 0 <= i < s.len() && s[i] == x;
            if i < s.len() - 1 {
                assert(d[i] == x);
            }
        }
    }
}

impl NfaView {
    /// How many consuming transitions on `g` lead from `s` to `t`.
    pub open spec fn consuming_count(self, s: int, g: CharRange, t: usize) -> nat {
        count_of(self.states[s].transitions.consuming, (g, t))
    }

    /// How many ε-transitions lead from `s` to `t`.
    pub open spec fn eps_count(self, s: int, t: usize) -> nat {
        count_of(self.states[s].transitions.eps, t)
    }

    /// How many predicate transitions under `p` lead from `s` to `t`.
    pub open spec fn predicate_count(self, s: int, p: PredicateView, t: usize) -> nat {
        count_of(self.states[s].transitions.predicates, (p, t))
    }

    /// Whether every transition leads to a state of the automaton.
    pub open spec fn targets_below(self) -> bool {
        &&& forall|s: int, k: int|
            0 <= s < self.states.len() && 0 <= k < self.states[s].transitions.consuming.len() ==> (
            #[trigger] self.states[s].transitions.consuming[k]).1 < self.num()
        &&& forall|s: int, k: int|
            0 <= s < self.states.len() && 0 <= k < self.states[s].transitions.eps.len() ==> (
            #[trigger] self.states[s].transitions.eps[k]) < self.num()
        &&& forall|s: int, k: int|
            0 <= s < self.states.len() && 0 <= k < self.states[s].transitions.predicates.len() ==> (
            #[trigger] self.states[s].transitions.predicates[k]).1 < self.num()
    }
}

/// Whether `b` has what `r` has and, turned round, the first `kc` consuming transitions of
/// the state `s` of `a`, its first `ke` ε-transitions and its first `kp` predicate
/// transitions, each as often as it stands there.
pub open spec fn turned(a: NfaView, r: NfaView, b: NfaView, s: int, kc: int, ke: int, kp: int) -> bool {
    let tr = a.states[s].transitions;
    &&& b.states.len() == r.states.len()
    &&& forall|t: int, g: CharRange, s2: usize|
        0 <= t < r.states.len() ==> #[trigger] b.consuming_count(t, g, s2) == r.consuming_count(
            t,
            g,
            s2,
        ) + if s2 == s {
            count_of(tr.consuming.take(kc), (g, t as usize))
        } else {
            0nat
        }
    &&& forall|t: int, s2: usize|
        0 <= t < r.states.len() ==> #[trigger] b.eps_count(t, s2) == r.eps_count(t, s2) + if s2
            == s {
            count_of(tr.eps.take(ke), t as usize)
        } else {
            0nat
        }
    &&& forall|t: int, p: PredicateView, s2: usize|
        0 <= t < r.states.len() ==> #[trigger] b.predicate_count(t, p, s2) == r.predicate_count(
            t,
            p,
            s2,
        ) + if s2 == s {
            count_of(tr.predicates.take(kp), (p, t as usize))
        } else {
            0nat
        }
}

/// What the consuming transitions of a state add to an automaton once they are turned
/// round.
pub proof fn lemma_turn_consuming(a: NfaView, r: NfaView, s: int, k: int)
    requires
        a.targets_below(),
        a.num() <= usize::MAX,
        r.num() == a.num(),
        0 <= s < a.num(),
        0 <= k <= a.states[s].transitions.consuming.len(),
    ensures
        turned(a, r, a.turn_consuming(r, s, k), s, k, 0, 0),
    decreases k,
{
    let tr = a.states[s].transitions;
    let b = a.turn_consuming(r, s, k);
    assert(tr.eps.take(0) =~= Seq::empty());
    assert(tr.predicates.take(0) =~= Seq::empty());
    if k == 0 {
        assert(tr.consuming.take(0) =~= Seq::empty());
    } else {
        lemma_turn_consuming(a, r, s, k - 1);
        let b0 = a.turn_consuming(r, s, k - 1);
        let e = tr.consuming[k - 1];
        assert(e.1 < a.num());
        assert(b == b0.add_transition(e.1 as int, s as usize, e.0));
        assert(tr.consuming.take(k) =~= tr.consuming.take(k - 1).push(e));
        assert forall|t: int, g: CharRange, s2: usize| 0 <= t < r.states.len() implies #[trigger] b.consuming_count(
            t,
            g,
            s2,
        ) == r.consuming_count(t, g, s2) + if s2 == s {
            count_of(tr.consuming.take(k), (g, t as usize))
        } else {
            0nat
        } by {
            assert(b0.consuming_count(t, g, s2) == r.consuming_count(t, g, s2) + if s2 == s {
                count_of(tr.consuming.take(k - 1), (g, t as usize))
            } else {
                0nat
            });
            lemma_count_push(tr.consuming.take(k - 1), e, (g, t as usize));
            if t == e.1 {
                lemma_count_push(b0.states[t].transitions.consuming, (e.0, s as usize), (g, s2));
            }
        }
        assert forall|t: int, s2: usize| 0 <= t < r.states.len() implies #[trigger] b.eps_count(t, s2)
            == r.eps_count(t, s2) + if s2 == s {
            count_of(tr.eps.take(0), t as usize)
        } else {
            0nat
        } by {
            assert(b0.eps_count(t, s2) == r.eps_count(t, s2));
        }
        assert forall|t: int, p: PredicateView, s2: usize| 0 <= t < r.states.len() implies #[trigger] b.predicate_count(
            t,
            p,
            s2,
        ) == r.predicate_count(t, p, s2) + if s2 == s {
            count_of(tr.predicates.take(0), (p, t as usize))
        } else {
            0nat
        } by {
            assert(b0.predicate_count(t, p, s2) == r.predicate_count(t, p, s2));
        }
    }
}

/// What the ε-transitions of a state add to an automaton once they are turned round.
pub proof fn lemma_turn_eps(a: NfaView, r: NfaView, s: int, k: int)
    requires
        a.targets_below(),
        a.num() <= usize::MAX,
        r.num() == a.num(),
        0 <= s < a.num(),
        0 <= k <= a.states[s].transitions.eps.len(),
    ensures
        turned(a, r, a.turn_eps(r, s, k), s, 0, k, 0),
    decreases k,
{
    let tr = a.states[s].transitions;
    let b = a.turn_eps(r, s, k);
    assert(tr.consuming.take(0) =~= Seq::empty());
    assert(tr.predicates.take(0) =~= Seq::empty());
    if k == 0 {
        assert(tr.eps.take(0) =~= Seq::empty());
    } else {
        lemma_turn_eps(a, r, s, k - 1);
        let b0 = a.turn_eps(r, s, k - 1);
        let e = tr.eps[k - 1];
        assert(e < a.num());
        assert(b == b0.add_eps(e as int, s as usize));
        assert(tr.eps.take(k) =~= tr.eps.take(k - 1).push(e));
        assert forall|t: int, g: CharRange, s2: usize| 0 <= t < r.states.len() implies #[trigger] b.consuming_count(
            t,
            g,
            s2,
        ) == r.consuming_count(t, g, s2) + if s2 == s {
            count_of(tr.consuming.take(0), (g, t as usize))
        } else {
            0nat
        } by {
            assert(b0.consuming_count(t, g, s2) == r.consuming_count(t, g, s2));
        }
        assert forall|t: int, s2: usize| 0 <= t < r.states.len() implies #[trigger] b.eps_count(t, s2)
            == r.eps_count(t, s2) + if s2 == s {
            count_of(tr.eps.take(k), t as usize)
        } else {
            0nat
        } by {
            assert(b0.eps_count(t, s2) == r.eps_count(t, s2) + if s2 == s {
                count_of(tr.eps.take(k - 1), t as usize)
            } else {
                0nat
            });
            lemma_count_push(tr.eps.take(k - 1), e, t as usize);
            if t == e {
                lemma_count_push(b0.states[t].transitions.eps, s as usize, s2);
            }
        }
        assert forall|t: int, p: PredicateView, s2: usize| 0 <= t < r.states.len() implies #[trigger] b.predicate_count(
            t,
            p,
            s2,
        ) == r.predicate_count(t, p, s2) + if s2 == s {
            count_of(tr.predicates.take(0), (p, t as usize))
        } else {
            0nat
        } by {
            assert(b0.predicate_count(t, p, s2) == r.predicate_count(t, p, s2));
        }
    }
}

/// What the predicate transitions of a state add to an automaton once they are turned
/// round.
pub proof fn lemma_turn_predicates(a: NfaView, r: NfaView, s: int, k: int)
    requires
        a.targets_below(),
        a.num() <= usize::MAX,
        r.num() == a.num(),
        0 <= s < a.num(),
        0 <= k <= a.states[s].transitions.predicates.len(),
    ensures
        turned(a, r, a.turn_predicates(r, s, k), s, 0, 0, k),
    decreases k,
{
    let tr = a.states[s].transitions;
    let b = a.turn_predicates(r, s, k);
    assert(tr.consuming.take(0) =~= Seq::empty());
    assert(tr.eps.take(0) =~= Seq::empty());
    if k == 0 {
        assert(tr.predicates.take(0) =~= Seq::empty());
    } else {
        lemma_turn_predicates(a, r, s, k - 1);
        let b0 = a.turn_predicates(r, s, k - 1);
        let e = tr.predicates[k - 1];
        assert(e.1 < a.num());
        assert(b == b0.add_predicate(e.1 as int, s as usize, e.0));
        assert(tr.predicates.take(k) =~= tr.predicates.take(k - 1).push(e));
        assert forall|t: int, g: CharRange, s2: usize| 0 <= t < r.states.len() implies #[trigger] b.consuming_count(
            t,
            g,
            s2,
        ) == r.consuming_count(t, g, s2) + if s2 == s {
            count_of(tr.consuming.take(0), (g, t as usize))
        } else {
            0nat
        } by {
            assert(b0.consuming_count(t, g, s2) == r.consuming_count(t, g, s2));
        }
        assert forall|t: int, s2: usize| 0 <= t < r.states.len() implies #[trigger] b.eps_count(t, s2)
            == r.eps_count(t, s2) + if s2 == s {
            count_of(tr.eps.take(0), t as usize)
        } else {
            0nat
        } by {
            assert(b0.eps_count(t, s2) == r.eps_count(t, s2));
        }
        assert forall|t: int, p: PredicateView, s2: usize| 0 <= t < r.states.len() implies #[trigger] b.predicate_count(
            t,
            p,
            s2,
        ) == r.predicate_count(t, p, s2) + if s2 == s {
            count_of(tr.predicates.take(k), (p, t as usize))
        } else {
            0nat
        } by {
            assert(b0.predicate_count(t, p, s2) == r.predicate_count(t, p, s2) + if s2 == s {
                count_of(tr.predicates.take(k - 1), (p, t as usize))
            } else {
                0nat
            });
            lemma_count_push(tr.predicates.take(k - 1), e, (p, t as usize));
            if t == e.1 {
                lemma_count_push(b0.states[t].transitions.predicates, (e.0, s as usize), (p, s2));
            }
        }
    }
}

/// What the transitions of a state add to an automaton once they are turned round.
pub proof fn lemma_turn_state(a: NfaView, r: NfaView, s: int)
    requires
        a.targets_below(),
        a.num() <= usize::MAX,
        r.num() == a.num(),
        0 <= s < a.num(),
    ensures
        turned(
            a,
            r,
            a.turn_state(r, s),
            s,
            a.states[s].transitions.consuming.len() as int,
            a.states[s].transitions.eps.len() as int,
            a.states[s].transitions.predicates.len() as int,
        ),
{
    let tr = a.states[s].transitions;
    let kc = tr.consuming.len() as int;
    let ke = tr.eps.len() as int;
    let kp = tr.predicates.len() as int;
    let b0 = a.turn_consuming(r, s, kc);
    let b1 = a.turn_eps(b0, s, ke);
    let b2 = a.turn_predicates(b1, s, kp);
    lemma_turn_consuming(a, r, s, kc);
    lemma_turn_eps(a, b0, s, ke);
    lemma_turn_predicates(a, b1, s, kp);
    assert(tr.consuming.take(0) =~= Seq::empty());
    assert(tr.eps.take(0) =~= Seq::empty());
    assert(tr.predicates.take(0) =~= Seq::empty());
    assert forall|t: int, g: CharRange, s2: usize| 0 <= t < r.states.len() implies #[trigger] b2.consuming_count(
        t,
        g,
        s2,
    ) == r.consuming_count(t, g, s2) + if s2 == s {
        count_of(tr.consuming.take(kc), (g, t as usize))
    } else {
        0nat
    } by {
        assert(b2.consuming_count(t, g, s2) == b1.consuming_count(t, g, s2));
        assert(b1.consuming_count(t, g, s2) == b0.consuming_count(t, g, s2));
    }
    assert forall|t: int, s2: usize| 0 <= t < r.states.len() implies #[trigger] b2.eps_count(t, s2)
        == r.eps_count(t, s2) + if s2 == s {
        count_of(tr.eps.take(ke), t as usize)
    } else {
        0nat
    } by {
        assert(b2.eps_count(t, s2) == b1.eps_count(t, s2));
        assert(b0.eps_count(t, s2) == r.eps_count(t, s2));
    }
    assert forall|t: int, p: PredicateView, s2: usize| 0 <= t < r.states.len() implies #[trigger] b2.predicate_count(
        t,
        p,
        s2,
    ) == r.predicate_count(t, p, s2) + if s2 == s {
        count_of(tr.predicates.take(kp), (p, t as usize))
    } else {
        0nat
    } by {
        assert(b1.predicate_count(t, p, s2) == b0.predicate_count(t, p, s2));
        assert(b0.predicate_count(t, p, s2) == r.predicate_count(t, p, s2));
    }
}

/// Whether `r` has each transition of the states of `a` below `k` turned round, as often as
/// `a` has it, and nothing else.
pub open spec fn counts_turned(a: NfaView, r: NfaView, k: int) -> bool {
    &&& r.states.len() == a.states.len()
    &&& forall|t: int, g: CharRange, s: usize|
        0 <= t < a.states.len() ==> #[trigger] r.consuming_count(t, g, s) == if s < k {
            a.consuming_count(s as int, g, t as usize)
        } else {
            0nat
        }
    &&& forall|t: int, s: usize|
        0 <= t < a.states.len() ==> #[trigger] r.eps_count(t, s) == if s < k {
            a.eps_count(s as int, t as usize)
        } else {
            0nat
        }
    &&& forall|t: int, p: PredicateView, s: usize|
        0 <= t < a.states.len() ==> #[trigger] r.predicate_count(t, p, s) == if s < k {
            a.predicate_count(s as int, p, t as usize)
        } else {
            0nat
        }
}

/// The transitions of the first states turned round are those transitions, each as often
/// as it was there.
pub proof fn lemma_turn_upto(a: NfaView, k: int)
    requires
        a.targets_below(),
        a.num() <= usize::MAX,
        0 <= k <= a.num(),
    ensures
        counts_turned(a, a.turn_upto(k), k),
    decreases k,
{
    if k > 0 {
        let s = k - 1;
        let r = a.turn_upto(k - 1);
        let b = a.turn_upto(k);
        let tr = a.states[s].transitions;
        lemma_turn_upto(a, k - 1);
        lemma_turn_state(a, r, s);
        assert(b == a.turn_state(r, s));
        assert(tr.consuming.take(tr.consuming.len() as int) =~= tr.consuming);
        assert(tr.eps.take(tr.eps.len() as int) =~= tr.eps);
        assert(tr.predicates.take(tr.predicates.len() as int) =~= tr.predicates);
        assert forall|t: int, g: CharRange, s2: usize| 0 <= t < a.states.len() implies #[trigger] b.consuming_count(
            t,
            g,
            s2,
        ) == if s2 < k {
            a.consuming_count(s2 as int, g, t as usize)
        } else {
            0nat
        } by {
            assert(r.consuming_count(t, g, s2) == if s2 < k - 1 {
                a.consuming_count(s2 as int, g, t as usize)
            } else {
                0nat
            });
        }
        assert forall|t: int, s2: usize| 0 <= t < a.states.len() implies #[trigger] b.eps_count(t, s2)
            == if s2 < k {
            a.eps_count(s2 as int, t as usize)
        } else {
            0nat
        } by {
            assert(r.eps_count(t, s2) == if s2 < k - 1 {
                a.eps_count(s2 as int, t as usize)
            } else {
                0nat
            });
        }
        assert forall|t: int, p: PredicateView, s2: usize| 0 <= t < a.states.len() implies #[trigger] b.predicate_count(
            t,
            p,
            s2,
        ) == if s2 < k {
            a.predicate_count(s2 as int, p, t as usize)
        } else {
            0nat
        } by {
            assert(r.predicate_count(t, p, s2) == if s2 < k - 1 {
                a.predicate_count(s2 as int, p, t as usize)
            } else {
                0nat
            });
        }
    }
}

/// An automaton reversed has each transition of the automaton turned round, as often as
/// the automaton has it, and no other; so each of its transitions leads to one of its
/// states.
pub proof fn lemma_reversed_counts(a: NfaView)
    requires
        a.targets_below(),
        a.num() <= usize::MAX,
    ensures
        counts_turned(a, a.reversed_spec(), a.num()),
        a.reversed_spec().targets_below(),
{
    let r = a.reversed_spec();
    lemma_turn_upto(a, a.num());
    assert forall|t: int, k: int|
        0 <= t < r.states.len() && 0 <= k < r.states[t].transitions.consuming.len() implies (
    #[trigger] r.states[t].transitions.consuming[k]).1 < r.num() by {
        let e = r.states[t].transitions.consuming[k];
        assert(r.states[t].transitions.consuming.contains(e));
        lemma_count_contains(r.states[t].transitions.consuming, e);
        assert(r.consuming_count(t, e.0, e.1) > 0);
    }
    assert forall|t: int, k: int|
        0 <= t < r.states.len() && 0 <= k < r.states[t].transitions.eps.len() implies (
    #[trigger] r.states[t].transitions.eps[k]) < r.num() by {
        let e = r.states[t].transitions.eps[k];
        assert(r.states[t].transitions.eps.contains(e));
        lemma_count_contains(r.states[t].transitions.eps, e);
        assert(r.eps_count(t, e) > 0);
    }
    assert forall|t: int, k: int|
        0 <= t < r.states.len() && 0 <= k < r.states[t].transitions.predicates.len() implies (
    #[trigger] r.states[t].transitions.predicates[k]).1 < r.num() by {
        let e = r.states[t].transitions.predicates[k];
        assert(r.states[t].transitions.predicates.contains(e));
        lemma_count_contains(r.states[t].transitions.predicates, e);
        assert(r.predicate_count(t, e.0, e.1) > 0);
    }
}

/// Reversing twice gives each state the transitions that it had, each as often as it had
/// it.
pub proof fn lemma_reverse_twice_counts(a: NfaView)
    requires
        a.wf(),
        a.num() <= usize::MAX,
    ensures
        a.reversed_spec().reversed_spec().num() == a.num(),
        forall|s: int, g: CharRange, t: usize|
            0 <= s < a.num() ==> #[trigger] a.reversed_spec().reversed_spec().consuming_count(s, g, t)
                == a.consuming_count(s, g, t),
        forall|s: int, t: usize|
            0 <= s < a.num() ==> #[trigger] a.reversed_spec().reversed_spec().eps_count(s, t)
                == a.eps_count(s, t),
        forall|s: int, p: PredicateView, t: usize|
            0 <= s < a.num() ==> #[trigger] a.reversed_spec().reversed_spec().predicate_count(s, p, t)
                == a.predicate_count(s, p, t),
{
    let r = a.reversed_spec();
    let c = r.reversed_spec();
    assert(a.targets_below()) by {
        assert forall|s: int| 0 <= s < a.states.len() implies (#[trigger] a.states[s]).transitions.wf(
            a.num(),
        ) by {}
    }
    lemma_reversed_counts(a);
    lemma_reversed_counts(r);
    assert forall|s: int, g: CharRange, t: usize| 0 <= s < a.num() implies #[trigger] c.consuming_count(
        s,
        g,
        t,
    ) == a.consuming_count(s, g, t) by {
        if t < a.num() {
            assert(r.consuming_count(t as int, g, s as usize) == a.consuming_count(s, g, t));
        } else {
            lemma_count_contains(a.states[s].transitions.consuming, (g, t));
        }
    }
    assert forall|s: int, t: usize| 0 <= s < a.num() implies #[trigger] c.eps_count(s, t) == a.eps_count(
        s,
        t,
    ) by {
        if t < a.num() {
            assert(r.eps_count(t as int, s as usize) == a.eps_count(s, t));
        } else {
            lemma_count_contains(a.states[s].transitions.eps, t);
        }
    }
    assert forall|s: int, p: PredicateView, t: usize| 0 <= s < a.num() implies #[trigger] c.predicate_count(
        s,
        p,
        t,
    ) == a.predicate_count(s, p, t) by {
        if t < a.num() {
            assert(r.predicate_count(t as int, p, s as usize) == a.predicate_count(s, p, t));
        } else {
            lemma_count_contains(a.states[s].transitions.predicates, (p, t));
        }
    }
}

} // verus!
