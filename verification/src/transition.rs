//! What an automaton's states carry: acceptance profiles, zero-width predicates, and the
//! three kinds of outgoing transitions.

use crate::char_map::{
    clipped, keys_disjoint, lookup, normalized, ranges_have, sets_of, CharMap, CharMultiMap,
    CharRange, CharSet,
};
use vstd::prelude::*;

verus! {

/// When a state accepts: at the end of the input, and before a character of a given set.
#[derive(Debug)]
pub struct Accept {
    pub at_eoi: bool,
    pub at_char: CharSet,
}

/// An acceptance profile, as contracts see it.
pub struct AcceptView {
    pub at_eoi: bool,
    pub at_char: Seq<CharRange>,
}

impl View for Accept {
    type V = AcceptView;

    open spec fn view(&self) -> AcceptView {
        AcceptView { at_eoi: self.at_eoi, at_char: self.at_char@ }
    }
}

impl AcceptView {
    /// The profile that never accepts.
    pub open spec fn never() -> AcceptView {
        AcceptView { at_eoi: false, at_char: Seq::empty() }
    }

    /// The profile that accepts whatever follows.
    pub open spec fn always() -> AcceptView {
        AcceptView { at_eoi: true, at_char: seq![CharRange { start: 0, end: u32::MAX }] }
    }

    /// Whether the value is well formed: its sets of code points are normalized.
    pub open spec fn wf(self) -> bool {
        normalized(self.at_char)
    }

    /// Whether the profile accepts before the code point `c`.
    pub open spec fn has(self, c: u32) -> bool {
        ranges_have(self.at_char, c)
    }

    /// Whether `self` accepts exactly where `a` or `b` does.
    pub open spec fn is_union(self, a: AcceptView, b: AcceptView) -> bool {
        &&& self.wf()
        &&& self.at_eoi == (a.at_eoi || b.at_eoi)
        &&& forall|c: u32|
            #![trigger self.has(c)]
            #![trigger a.has(c)]
            #![trigger b.has(c)]
            self.has(c) <==> (a.has(c) || b.has(c))
    }
}

impl Clone for Accept {
    fn clone(&self) -> (r: Accept)
        ensures
            r@ == self@,
    {
        Accept { at_eoi: self.at_eoi, at_char: self.at_char.clone() }
    }
}

impl Accept {
    /// Whether the value is well formed: its sets of code points are normalized.
    pub open spec fn wf(self) -> bool {
        self.at_char.wf()
    }

    /// The profile that never accepts.
    pub fn never() -> (r: Accept)
        ensures
            r@ == AcceptView::never(),
            r.wf(),
    {
        Accept { at_eoi: false, at_char: CharSet::new() }
    }

    /// The profile that accepts whatever follows.
    pub fn always() -> (r: Accept)
        ensures
            r@ == AcceptView::always(),
            r.wf(),
    {
        Accept { at_eoi: true, at_char: CharSet::full() }
    }

    /// Whether the profile never accepts.
    pub fn is_never(&self) -> (b: bool)
        requires
            self.wf(),
        ensures
            b == (self@ == AcceptView::never()),
            b == (!self.at_eoi && forall|c: u32| !self@.has(c)),
    {
        let e = self.at_char.is_empty();
        proof {
            assert(e == (self@.at_char =~= Seq::<CharRange>::empty()));
            assert(e == (forall|c: u32| !self.at_char.has(c)));
            if e {
                assert forall|c: u32| !self@.has(c) by {
                    assert(!self.at_char.has(c));
                }
            } else if forall|c: u32| !self@.has(c) {
                assert forall|c: u32| !self.at_char.has(c) by {
                    assert(!self@.has(c));
                }
            }
        }
        !self.at_eoi && e
    }

    /// Whether the profile accepts whatever follows.
    pub fn is_always(&self) -> (b: bool)
        requires
            self.wf(),
        ensures
            b == (self@ == AcceptView::always()),
            b == (self.at_eoi && forall|c: u32| self@.has(c)),
    {
        let f = self.at_char.is_full();
        proof {
            assert(f == (forall|c: u32| self.at_char.has(c)));
            if f {
                assert forall|c: u32| self@.has(c) by {
                    assert(self.at_char.has(c));
                }
            } else if forall|c: u32| self@.has(c) {
                assert forall|c: u32| self.at_char.has(c) by {
                    assert(self@.has(c));
                }
            }
        }
        self.at_eoi && f
    }

    /// The profile that accepts where `self` or `other` does.
    pub fn union(&self, other: &Accept) -> (r: Accept)
        requires
            self.wf(),
            other.wf(),
        ensures
            r.wf(),
            r@.is_union(self@, other@),
    {
        let r = Accept {
            at_eoi: self.at_eoi || other.at_eoi,
            at_char: self.at_char.union(&other.at_char),
        };
        proof {
            assert forall|c: u32|
                #![trigger r@.has(c)]
                #![trigger self@.has(c)]
                #![trigger other@.has(c)]
                r@.has(c) <==> (self@.has(c) || other@.has(c)) by {
                assert(r.at_char.has(c) <==> (self.at_char.has(c) || other.at_char.has(c)));
            }
        }
        r
    }

    /// Whether the two profiles are the same.
    pub fn same(&self, other: &Accept) -> (b: bool)
        ensures
            b == (self@ == other@),
    {
        self.at_eoi == other.at_eoi && self.at_char.same(&other.at_char)
    }
}

/// When a state of a byte automaton accepts, and how many bytes before the current one the
/// match then ends.
#[derive(Clone, Copy, Debug, PartialEq, Eq, Structural)]
pub struct DfaAccept {
    pub at_eoi: bool,
    pub otherwise: bool,
    pub bytes_behind: usize,
}

impl DfaAccept {
    /// The profile that never accepts.
    pub open spec fn never_spec() -> DfaAccept {
        DfaAccept { at_eoi: false, otherwise: false, bytes_behind: 0 }
    }

    /// The profile of either: it accepts where one of the two does, and reports the match
    /// that ends first.
    pub open spec fn union_shortest_spec(self, other: DfaAccept) -> DfaAccept {
        DfaAccept {
            at_eoi: self.at_eoi || other.at_eoi,
            otherwise: self.otherwise || other.otherwise,
            bytes_behind: if self.bytes_behind >= other.bytes_behind {
                self.bytes_behind
            } else {
                other.bytes_behind
            },
        }
    }

    /// The profile that never accepts.
    pub fn never() -> (r: DfaAccept)
        ensures
            r == DfaAccept::never_spec(),
    {
        DfaAccept { at_eoi: false, otherwise: false, bytes_behind: 0 }
    }

    /// The profile that accepts whatever follows, `bytes_behind` bytes back.
    pub fn accept(bytes_behind: usize) -> (r: DfaAccept)
        ensures
            r == (DfaAccept { at_eoi: true, otherwise: true, bytes_behind }),
    {
        DfaAccept { at_eoi: true, otherwise: true, bytes_behind }
    }

    /// Whether the profile never accepts.
    pub fn is_never(&self) -> (b: bool)
        ensures
            b == (!self.at_eoi && !self.otherwise),
    {
        !self.at_eoi && !self.otherwise
    }

    /// The profile of either: it accepts where one of the two does, and reports the match that
    /// ends first.
    pub fn union_shortest(&self, other: &DfaAccept) -> (r: DfaAccept)
        ensures
            r == self.union_shortest_spec(*other),
    {
        DfaAccept {
            at_eoi: self.at_eoi || other.at_eoi,
            otherwise: self.otherwise || other.otherwise,
            bytes_behind: if self.bytes_behind >= other.bytes_behind {
                self.bytes_behind
            } else {
                other.bytes_behind
            },
        }
    }
}

/// One side of a predicate: which neighbouring characters satisfy it, and whether the edge
/// of the input does.
#[derive(Debug)]
pub struct PredicatePart {
    pub chars: CharSet,
    pub at_boundary: bool,
}

/// One side of a predicate, as contracts see it.
pub struct PartView {
    pub chars: Seq<CharRange>,
    pub at_boundary: bool,
}

impl PartView {
    /// Whether the value is well formed: its sets of code points are normalized.
    pub open spec fn wf(self) -> bool {
        normalized(self.chars)
    }

    /// Whether the code point `c` satisfies this side.
    pub open spec fn has(self, c: u32) -> bool {
        ranges_have(self.chars, c)
    }

    /// Whether nothing satisfies this side.
    pub open spec fn is_empty(self) -> bool {
        self.chars.len() == 0 && !self.at_boundary
    }

    /// Whether `self` is satisfied exactly by what satisfies both `a` and `b`.
    pub open spec fn is_intersection(self, a: PartView, b: PartView) -> bool {
        &&& self.wf()
        &&& self.at_boundary == (a.at_boundary && b.at_boundary)
        &&& forall|c: u32|
            #![trigger self.has(c)]
            #![trigger a.has(c)]
            #![trigger b.has(c)]
            self.has(c) <==> (a.has(c) && b.has(c))
    }
}

impl View for PredicatePart {
    type V = PartView;

    open spec fn view(&self) -> PartView {
        PartView { chars: self.chars@, at_boundary: self.at_boundary }
    }
}

impl Clone for PredicatePart {
    fn clone(&self) -> (r: PredicatePart)
        ensures
            r@ == self@,
    {
        PredicatePart { chars: self.chars.clone(), at_boundary: self.at_boundary }
    }
}

impl PredicatePart {
    /// Whether the value is well formed: its sets of code points are normalized.
    pub open spec fn wf(self) -> bool {
        self.chars.wf()
    }

    /// The side that is satisfied by what satisfies both.
    pub fn intersect(&self, other: &PredicatePart) -> (r: PredicatePart)
        requires
            self.wf(),
            other.wf(),
        ensures
            r.wf(),
            r@.is_intersection(self@, other@),
    {
        let r = PredicatePart {
            chars: self.chars.intersect(&other.chars),
            at_boundary: self.at_boundary && other.at_boundary,
        };
        proof {
            assert forall|c: u32|
                #![trigger r@.has(c)]
                #![trigger self@.has(c)]
                #![trigger other@.has(c)]
                r@.has(c) <==> (self@.has(c) && other@.has(c)) by {
                assert(r.chars.has(c) <==> (self.chars.has(c) && other.chars.has(c)));
            }
        }
        r
    }

    /// Whether nothing satisfies this side.
    pub fn is_empty(&self) -> (b: bool)
        requires
            self.wf(),
        ensures
            b == self@.is_empty(),
    {
        self.chars.is_empty() && !self.at_boundary
    }

    /// Whether the two sides are the same.
    pub fn same(&self, other: &PredicatePart) -> (b: bool)
        ensures
            b == (self@ == other@),
    {
        self.at_boundary == other.at_boundary && self.chars.same(&other.chars)
    }
}

/// A zero-width condition on a position of the input: the first part looks at what comes
/// before it, the second at what comes after.
#[derive(Debug)]
pub struct Predicate(pub PredicatePart, pub PredicatePart);

/// A predicate, as contracts see it.
pub struct PredicateView {
    pub behind: PartView,
    pub ahead: PartView,
}

impl PredicateView {
    /// Whether the value is well formed: its sets of code points are normalized.
    pub open spec fn wf(self) -> bool {
        self.behind.wf() && self.ahead.wf()
    }
}

impl View for Predicate {
    type V = PredicateView;

    open spec fn view(&self) -> PredicateView {
        PredicateView { behind: self.0@, ahead: self.1@ }
    }
}

impl Clone for Predicate {
    fn clone(&self) -> (r: Predicate)
        ensures
            r@ == self@,
    {
        Predicate(self.0.clone(), self.1.clone())
    }
}

impl Predicate {
    /// Whether the value is well formed: its sets of code points are normalized.
    pub open spec fn wf(self) -> bool {
        self.0.wf() && self.1.wf()
    }

    /// The predicate that both hold, unless nothing satisfies one of its sides.
    pub fn intersect(&self, other: &Predicate) -> (r: Option<Predicate>)
        requires
            self.wf(),
            other.wf(),
        ensures
            r is Some ==> {
                &&& r.unwrap().wf()
                &&& r.unwrap()@.behind.is_intersection(self@.behind, other@.behind)
                &&& r.unwrap()@.ahead.is_intersection(self@.ahead, other@.ahead)
            },
            r is None <==> ((self@.behind.at_boundary && other@.behind.at_boundary) == false
                && forall|c: u32| !(self@.behind.has(c) && other@.behind.has(c))) || ((
            self@.ahead.at_boundary && other@.ahead.at_boundary) == false && forall|c: u32|
                !(self@.ahead.has(c) && other@.ahead.has(c))),
    {
        let behind = self.0.intersect(&other.0);
        let ahead = self.1.intersect(&other.1);
        let eb = behind.is_empty();
        let ea = ahead.is_empty();
        proof {
            lemma_part_empty(behind@, self@.behind, other@.behind);
            lemma_part_empty(ahead@, self@.ahead, other@.ahead);
        }
        if eb || ea {
            None
        } else {
            Some(Predicate(behind, ahead))
        }
    }

    /// The transitions of `in_trans` on characters that the look-behind allows, and those of
    /// `out_trans` on characters that the look-ahead allows.
    pub fn filter_transitions(
        &self,
        in_trans: &CharMap<Vec<usize>>,
        out_trans: &CharMap<Vec<usize>>,
    ) -> (r: (CharMap<Vec<usize>>, CharMap<Vec<usize>>))
        requires
            self.wf(),
            keys_disjoint(in_trans@),
            keys_disjoint(out_trans@),
        ensures
            sets_of(r.0@) == clipped(sets_of(in_trans@), self@.behind.chars),
            sets_of(r.1@) == clipped(sets_of(out_trans@), self@.ahead.chars),
            keys_disjoint(r.0@),
            keys_disjoint(r.1@),
            forall|c: u32, v: Seq<usize>|
                #![trigger lookup(r.0@, c, v)]
                #![trigger lookup(in_trans@, c, v)]
                lookup(r.0@, c, v) <==> (lookup(in_trans@, c, v) && self@.behind.has(c)),
            forall|c: u32, v: Seq<usize>|
                #![trigger lookup(r.1@, c, v)]
                #![trigger lookup(out_trans@, c, v)]
                lookup(r.1@, c, v) <==> (lookup(out_trans@, c, v) && self@.ahead.has(c)),
    {
        let a = in_trans.intersect(&self.0.chars);
        let b = out_trans.intersect(&self.1.chars);
        proof {
            assert forall|c: u32, v: Seq<usize>|
                #![trigger lookup(a@, c, v)]
                #![trigger lookup(in_trans@, c, v)]
                lookup(a@, c, v) <==> (lookup(in_trans@, c, v) && self@.behind.has(c)) by {
                assert(self.0.chars.has(c) == self@.behind.has(c));
            }
            assert forall|c: u32, v: Seq<usize>|
                #![trigger lookup(b@, c, v)]
                #![trigger lookup(out_trans@, c, v)]
                lookup(b@, c, v) <==> (lookup(out_trans@, c, v) && self@.ahead.has(c)) by {
                assert(self.1.chars.has(c) == self@.ahead.has(c));
            }
        }
        (a, b)
    }

    /// The acceptance that is left of `acc` behind this predicate: at the end of the input
    /// if the look-ahead allows it, and before the characters that it allows.
    pub fn filter_accept(&self, acc: &Accept) -> (r: Accept)
        requires
            self.wf(),
            acc.wf(),
        ensures
            r.wf(),
            filtered_accept(r@, self@, acc@),
    {
        let r = Accept {
            at_eoi: acc.at_eoi && self.1.at_boundary,
            at_char: acc.at_char.intersect(&self.1.chars),
        };
        proof {
            assert forall|c: u32|
                #![trigger r@.has(c)]
                #![trigger acc@.has(c)]
                #![trigger self@.ahead.has(c)]
                r@.has(c) <==> (acc@.has(c) && self@.ahead.has(c)) by {
                assert(r.at_char.has(c) <==> (acc.at_char.has(c) && self.1.chars.has(c)));
            }
        }
        r
    }

    /// Whether the two predicates are the same.
    pub fn same(&self, other: &Predicate) -> (b: bool)
        ensures
            b == (self@ == other@),
    {
        self.0.same(&other.0) && self.1.same(&other.1)
    }
}

/// Whether `r` is what `acc` leaves behind the predicate `p`.
pub open spec fn filtered_accept(r: AcceptView, p: PredicateView, acc: AcceptView) -> bool {
    &&& r.wf()
    &&& r.at_eoi == (acc.at_eoi && p.ahead.at_boundary)
    &&& forall|c: u32|
        #![trigger r.has(c)]
        #![trigger acc.has(c)]
        #![trigger p.ahead.has(c)]
        r.has(c) <==> (acc.has(c) && p.ahead.has(c))
}

/// Nothing satisfies what two sides have in common if and only if nothing satisfies both.
pub proof fn lemma_part_empty(r: PartView, a: PartView, b: PartView)
    requires
        r.is_intersection(a, b),
    ensures
        r.is_empty() <==> ((a.at_boundary && b.at_boundary) == false && forall|c: u32|
            !(a.has(c) && b.has(c))),
{
    if r.chars.len() > 0 {
        let c = r.chars[0].start;
        assert(r.chars[0].has(c));
        assert(r.has(c));
        assert(a.has(c) && b.has(c));
    } else {
        assert forall|c: u32| !(a.has(c) && b.has(c)) by {
            assert(!r.has(c));
        }
    }
}

/// The transitions out of a state.
#[derive(Debug)]
pub struct NfaTransitions {
    /// Transitions that consume a character of a range.
    pub consuming: CharMultiMap,
    /// Transitions that consume nothing.
    pub eps: Vec<usize>,
    /// Transitions that consume nothing and may be taken only where a predicate holds.
    pub predicates: Vec<(Predicate, usize)>,
}

/// The transitions out of a state, as contracts see them.
pub struct TransitionsView {
    pub consuming: Seq<(CharRange, usize)>,
    pub eps: Seq<usize>,
    pub predicates: Seq<(PredicateView, usize)>,
}

/// The views of a list of predicate transitions.
pub open spec fn predicates_view(s: Seq<(Predicate, usize)>) -> Seq<(PredicateView, usize)> {
    Seq::new(s.len(), |i: int| (s[i].0@, s[i].1))
}

impl View for NfaTransitions {
    type V = TransitionsView;

    open spec fn view(&self) -> TransitionsView {
        TransitionsView {
            consuming: self.consuming@,
            eps: self.eps@,
            predicates: predicates_view(self.predicates@),
        }
    }
}

impl TransitionsView {
    /// No transitions.
    pub open spec fn empty() -> TransitionsView {
        TransitionsView { consuming: Seq::empty(), eps: Seq::empty(), predicates: Seq::empty() }
    }

    /// Whether every target is below `n` and every predicate is well formed.
    pub open spec fn wf(self, n: int) -> bool {
        &&& forall|k: int| 0 <= k < self.consuming.len() ==> (#[trigger] self.consuming[k]).1 < n
        &&& forall|k: int| 0 <= k < self.eps.len() ==> (#[trigger] self.eps[k]) < n
        &&& forall|k: int|
            0 <= k < self.predicates.len() ==> (#[trigger] self.predicates[k]).1 < n
                && self.predicates[k].0.wf()
    }
}

impl Clone for NfaTransitions {
    fn clone(&self) -> (r: NfaTransitions)
        ensures
            r@ == self@,
    {
        let eps = crate::state_set::copy(&self.eps);
        let mut predicates: Vec<(Predicate, usize)> = Vec::new();
        let mut i: usize = 0;
        while i < self.predicates.len()
            invariant
                i <= self.predicates.len(),
                predicates@.len() == i,
                forall|k: int|
                    0 <= k < i ==> (#[trigger] predicates@[k]).0@ == self.predicates@[k].0@
                        && predicates@[k].1 == self.predicates@[k].1,
            decreases self.predicates.len() - i,
        {
            let p = self.predicates[i].0.clone();
            predicates.push((p, self.predicates[i].1));
            i += 1;
        }
        let r = NfaTransitions { consuming: self.consuming.clone(), eps, predicates };
        assert(r@.predicates =~= self@.predicates);
        r
    }
}

impl NfaTransitions {
    /// Whether the two have the same transitions in the same order.
    pub fn same(&self, other: &NfaTransitions) -> (b: bool)
        ensures
            b == (self@ == other@),
    {
        if !self.consuming.same(&other.consuming) || !crate::state_set::same(&self.eps, &other.eps) {
            return false;
        }
        if self.predicates.len() != other.predicates.len() {
            assert(self@.predicates.len() != other@.predicates.len());
            return false;
        }
        let mut i: usize = 0;
        while i < self.predicates.len()
            invariant
                i <= self.predicates.len(),
                self.predicates.len() == other.predicates.len(),
                forall|k: int| 0 <= k < i ==> self@.predicates[k] == other@.predicates[k],
            decreases self.predicates.len() - i,
        {
            let a = &self.predicates[i];
            let b = &other.predicates[i];
            if a.1 != b.1 || !a.0.same(&b.0) {
                assert(self@.predicates[i as int] != other@.predicates[i as int]);
                return false;
            }
            i += 1;
        }
        assert(self@.predicates =~= other@.predicates);
        true
    }

    /// No transitions.
    pub fn new() -> (r: NfaTransitions)
        ensures
            r@ == TransitionsView::empty(),
    {
        let r = NfaTransitions {
            consuming: CharMultiMap::new(),
            eps: Vec::new(),
            predicates: Vec::new(),
        };
        assert(r@.predicates =~= Seq::empty());
        r
    }
}

} // verus!
