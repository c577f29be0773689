//! Ranges and sets of code points, and maps keyed by code-point ranges.

use vstd::prelude::*;

verus! {

/// An inclusive range of code points. A range whose `start` exceeds its `end` holds nothing.
#[derive(Clone, Copy, Debug, PartialEq, Eq, Structural)]
pub struct CharRange {
    pub start: u32,
    pub end: u32,
}

/// Whether `i` is a Unicode scalar value: a code point that is no surrogate.
pub open spec fn is_scalar(i: u32) -> bool {
    i <= 0xD7FF || (0xE000 <= i && i <= 0x10FFFF)
}

/// `char::from_u32` gives the character with the given scalar value, and `None` exactly for
/// the surrogates and for what lies above `0x10FFFF`.
pub assume_specification[ char::from_u32 ](i: u32) -> (r: Option<char>)
    ensures
        is_scalar(i) ==> r == Some(i as char),
        !is_scalar(i) ==> r is None,
;

impl CharRange {
    /// Whether the code point `c` lies in this range.
    pub open spec fn has(self, c: u32) -> bool {
        self.start <= c && c <= self.end
    }

    /// Whether the two ranges share a code point.
    pub open spec fn overlaps(self, other: CharRange) -> bool {
        self.start <= other.end && other.start <= self.end && self.start <= self.end && other.start
            <= other.end
    }

    /// Whether this is a range of byte values: it is not empty, and ends at 255 or before.
    pub open spec fn is_byte(self) -> bool {
        self.start <= self.end && self.end <= 255
    }

    /// The range from `start` to `end`, both included.
    pub fn new(start: u32, end: u32) -> (r: CharRange)
        ensures
            r.start == start,
            r.end == end,
    {
        CharRange { start, end }
    }

    /// The range that holds `c` alone.
    pub fn single(c: u32) -> (r: CharRange)
        ensures
            r.start == c,
            r.end == c,
    {
        CharRange { start: c, end: c }
    }

    /// The range of all code points.
    pub fn full() -> (r: CharRange)
        ensures
            r.start == 0,
            r.end == u32::MAX,
    {
        CharRange { start: 0, end: u32::MAX }
    }

    /// Whether this holds nothing.
    pub fn is_empty(&self) -> (b: bool)
        ensures
            b == (self.start > self.end),
    {
        self.start > self.end
    }

    /// Whether the code point `c` is in this.
    pub fn contains(&self, c: u32) -> (b: bool)
        ensures
            b == self.has(c),
    {
        self.start <= c && c <= self.end
    }

    /// What the two ranges share, if anything.
    pub fn intersection(&self, other: &CharRange) -> (r: Option<CharRange>)
        ensures
            r is Some <==> self.overlaps(*other),
            r is Some ==> forall|c: u32| r.unwrap().has(c) <==> (self.has(c) && other.has(c)),
            r is Some ==> r.unwrap().start == if self.start >= other.start {
                self.start
            } else {
                other.start
            },
            r is Some ==> r.unwrap().end == if self.end <= other.end {
                self.end
            } else {
                other.end
            },
    {
        if self.start > self.end || other.start > other.end {
            return None;
        }
        let lo = if self.start >= other.start {
            self.start
        } else {
            other.start
        };
        let hi = if self.end <= other.end {
            self.end
        } else {
            other.end
        };
        if lo <= hi {
            Some(CharRange { start: lo, end: hi })
        } else {
            None
        }
    }

    /// The least and the greatest scalar value of this range, if it has any.
    pub open spec fn char_pair(self) -> Option<(char, char)> {
        let start: u32 = if self.start > 0xD7FF && self.start < 0xE000 {
            0xE000
        } else {
            self.start
        };
        let end: u32 = if self.end > 0x10FFFF {
            0x10FFFF
        } else if self.end < 0xE000 && self.end > 0xD7FF {
            0xD7FF
        } else {
            self.end
        };
        if start > end {
            None
        } else {
            Some((start as char, end as char))
        }
    }

    /// The scalar values of this range, as a pair of its least and its greatest, or `None` if
    /// it holds only surrogates and values above `0x10FFFF`.
    pub fn to_char_pair(&self) -> (r: Option<(char, char)>)
        ensures
            r == self.char_pair(),
            r is Some <==> exists|c: u32| self.has(c) && is_scalar(c),
            r is Some ==> {
                let (lo, hi) = r.unwrap();
                &&& self.has(lo as u32)
                &&& self.has(hi as u32)
                &&& forall|c: u32| self.has(c) && is_scalar(c) ==> lo as u32 <= c && c <= hi as u32
            },
    {
        let start: u32 = if self.start > 0xD7FF && self.start < 0xE000 {
            0xE000
        } else {
            self.start
        };
        let end: u32 = if self.end > 0x10FFFF {
            0x10FFFF
        } else if self.end < 0xE000 && self.end > 0xD7FF {
            0xD7FF
        } else {
            self.end
        };
        if start > end {
            assert forall|c: u32| self.has(c) implies !is_scalar(c) by {}
            None
        } else {
            assert(self.has(start) && is_scalar(start));
            match (char::from_u32(start), char::from_u32(end)) {
                (Some(lo), Some(hi)) => Some((lo, hi)),
                _ => None,
            }
        }
    }
}

/// Whether some range of `rs` holds `c`.
pub open spec fn ranges_have(rs: Seq<CharRange>, c: u32) -> bool {
    exists|i: int| 0 <= i < rs.len() && (#[trigger] rs[i]).has(c)
}

/// Ranges that are non-empty, in increasing order, and neither overlapping nor adjacent: the
/// one way to write a set of code points as a list of ranges.
pub open spec fn normalized(rs: Seq<CharRange>) -> bool {
    &&& forall|i: int| 0 <= i < rs.len() ==> (#[trigger] rs[i]).start <= rs[i].end
    &&& forall|i: int, j: int|
        0 <= i < j < rs.len() ==> (#[trigger] rs[i]).end + 1 < (#[trigger] rs[j]).start
}

/// Whether `out` holds every code point that `a` and `b` share.
pub open spec fn covers(out: Seq<CharRange>, a: CharRange, b: CharRange) -> bool {
    forall|c: u32| a.has(c) && b.has(c) ==> ranges_have(out, c)
}

/// What a list of ranges holds once it has one more range.
pub proof fn lemma_ranges_have_push(rs: Seq<CharRange>, x: CharRange, c: u32)
    ensures
        ranges_have(rs.push(x), c) <==> (ranges_have(rs, c) || x.has(c)),
{
    let p = rs.push(x);
    if ranges_have(rs, c) {
        let i = choose|i: int| 0 <= i < rs.len() && (#[trigger] rs[i]).has(c);
        assert(p[i].has(c));
    }
    if x.has(c) {
        assert(p[rs.len() as int].has(c));
    }
    if ranges_have(p, c) {
        let i = choose|i: int| 0 <= i < p.len() && (#[trigger] p[i]).has(c);
        if i < rs.len() {
            assert(rs[i].has(c));
        }
    }
}

/// A set of code points, held as its normalized list of ranges.
#[derive(Debug)]
pub struct CharSet {
    pub(crate) ranges: Vec<CharRange>,
}

impl View for CharSet {
    type V = Seq<CharRange>;

    closed spec fn view(&self) -> Seq<CharRange> {
        self.ranges@
    }
}

impl Clone for CharSet {
    fn clone(&self) -> (r: CharSet)
        ensures
            r@ == self@,
    {
        CharSet { ranges: self.ranges.clone() }
    }
}

impl CharSet {
    /// Whether the value is well formed: its sets of code points are normalized.
    pub open spec fn wf(self) -> bool {
        normalized(self@)
    }

    /// Whether the code point `c` is in the set.
    pub open spec fn has(self, c: u32) -> bool {
        ranges_have(self@, c)
    }

    /// The empty set.
    pub fn new() -> (r: CharSet)
        ensures
            r@ == Seq::<CharRange>::empty(),
            r.wf(),
    {
        CharSet { ranges: Vec::new() }
    }

    /// The set of all code points.
    pub fn full() -> (r: CharSet)
        ensures
            r@ == seq![CharRange { start: 0, end: u32::MAX }],
            r.wf(),
            forall|c: u32| r.has(c),
    {
        let mut ranges = Vec::new();
        ranges.push(CharRange::full());
        let r = CharSet { ranges };
        assert forall|c: u32| r.has(c) by {
            assert(r@[0].has(c));
        }
        r
    }

    /// The ranges of the set, in increasing order.
    pub fn ranges(&self) -> (r: &Vec<CharRange>)
        ensures
            r@ == self@,
    {
        &self.ranges
    }

    /// Whether this holds nothing.
    pub fn is_empty(&self) -> (b: bool)
        requires
            self.wf(),
        ensures
            b == (self@.len() == 0),
            b == (forall|c: u32| !self.has(c)),
    {
        let b = self.ranges.len() == 0;
        proof {
            if !b {
                assert(self@[0].has(self@[0].start));
                assert(self.has(self@[0].start));
            }
        }
        b
    }

    /// Whether every code point is in the set.
    pub fn is_full(&self) -> (b: bool)
        requires
            self.wf(),
        ensures
            b == (self@ == seq![CharRange { start: 0, end: u32::MAX }]),
            b == (forall|c: u32| self.has(c)),
    {
        let b = self.ranges.len() == 1 && self.ranges[0].start == 0 && self.ranges[0].end
            == u32::MAX;
        proof {
            if b {
                assert(self@ =~= seq![CharRange { start: 0, end: u32::MAX }]);
                assert forall|c: u32| self.has(c) by {
                    assert(self@[0].has(c));
                }
            } else if forall|c: u32| self.has(c) {
                assert forall|c: u32| ranges_have(self@, c) by {
                    assert(self.has(c));
                }
                lemma_full_is_one_range(self@);
            }
        }
        b
    }

    /// Whether the code point `c` is in this.
    pub fn contains(&self, c: u32) -> (b: bool)
        ensures
            b == self.has(c),
    {
        let mut i: usize = 0;
        while i < self.ranges.len()
            invariant
                i <= self.ranges.len(),
                forall|k: int| 0 <= k < i ==> !(#[trigger] self@[k]).has(c),
            decreases self.ranges.len() - i,
        {
            if self.ranges[i].contains(c) {
                return true;
            }
            i += 1;
        }
        false
    }

    /// Adds the code points of `r` to the set.
    pub fn insert(&mut self, r: CharRange)
        requires
            old(self).wf(),
        ensures
            final(self).wf(),
            forall|c: u32|
                #![trigger final(self).has(c)]
                #![trigger old(self).has(c)]
                #![trigger r.has(c)]
                final(self).has(c) <==> (old(self).has(c) || r.has(c)),
    {
        if r.start > r.end {
            return ;
        }
        let mut out: Vec<CharRange> = Vec::new();
        let mut cur = r;
        let mut placed = false;
        let n = self.ranges.len();
        let mut i: usize = 0;
        while i < n
            invariant
                i <= n,
                n == self.ranges.len(),
                self@ == old(self)@,
                normalized(self@),
                normalized(out@),
                cur.start <= cur.end,
                forall|k: int, j: int|
                    0 <= k < out.len() && i <= j < n ==> (#[trigger] out[k]).end + 1 < (
                    #[trigger] self@[j]).start,
                !placed ==> forall|k: int|
                    0 <= k < out.len() ==> (#[trigger] out[k]).end + 1 < cur.start,
                forall|c: u32|
                    #![trigger ranges_have(out@, c)]
                    #![trigger cur.has(c)]
                    #![trigger r.has(c)]
                    (ranges_have(out@, c) || (!placed && cur.has(c))) <==> (ranges_have(
                        self@.take(i as int),
                        c,
                    ) || r.has(c)),
            decreases n - i,
        {
            let x = self.ranges[i];
            let ghost out0 = out@;
            let ghost cur0 = cur;
            let ghost placed0 = placed;
            assert(self@.take(i as int + 1) =~= self@.take(i as int).push(x));
            if placed {
                out.push(x);
                assert forall|c: u32|
                    #![trigger ranges_have(out@, c)]
                    (ranges_have(out@, c) || (!placed && cur.has(c))) <==> (ranges_have(
                        self@.take(i as int + 1),
                        c,
                    ) || r.has(c)) by {
                    lemma_ranges_have_push(out0, x, c);
                    lemma_ranges_have_push(self@.take(i as int), x, c);
                }
            } else if x.end < cur.start && cur.start - x.end > 1 {
                out.push(x);
                assert forall|c: u32|
                    #![trigger ranges_have(out@, c)]
                    (ranges_have(out@, c) || (!placed && cur.has(c))) <==> (ranges_have(
                        self@.take(i as int + 1),
                        c,
                    ) || r.has(c)) by {
                    lemma_ranges_have_push(out0, x, c);
                    lemma_ranges_have_push(self@.take(i as int), x, c);
                }
            } else if cur.end < x.start && x.start - cur.end > 1 {
                out.push(cur);
                out.push(x);
                placed = true;
                assert forall|c: u32|
                    #![trigger ranges_have(out@, c)]
                    (ranges_have(out@, c) || (!placed && cur.has(c))) <==> (ranges_have(
                        self@.take(i as int + 1),
                        c,
                    ) || r.has(c)) by {
                    lemma_ranges_have_push(out0, cur, c);
                    lemma_ranges_have_push(out0.push(cur), x, c);
                    lemma_ranges_have_push(self@.take(i as int), x, c);
                }
            } else {
                let lo = if cur.start <= x.start {
                    cur.start
                } else {
                    x.start
                };
                let hi = if cur.end >= x.end {
                    cur.end
                } else {
                    x.end
                };
                cur = CharRange { start: lo, end: hi };
                assert forall|c: u32|
                    #![trigger ranges_have(out@, c)]
                    (ranges_have(out@, c) || (!placed && cur.has(c))) <==> (ranges_have(
                        self@.take(i as int + 1),
                        c,
                    ) || r.has(c)) by {
                    lemma_ranges_have_push(self@.take(i as int), x, c);
                    assert(cur.has(c) <==> (cur0.has(c) || x.has(c)));
                }
            }
            i += 1;
        }
        assert(self@.take(n as int) =~= self@);
        if !placed {
            let ghost out0 = out@;
            out.push(cur);
            assert forall|c: u32| #[trigger]
                ranges_have(out@, c) <==> (old(self).has(c) || r.has(c)) by {
                lemma_ranges_have_push(out0, cur, c);
            }
        }
        self.ranges = out;
    }

    /// The set of the code points that are in `self` or in `other`.
    pub fn union(&self, other: &CharSet) -> (r: CharSet)
        requires
            self.wf(),
            other.wf(),
        ensures
            r.wf(),
            forall|c: u32|
                #![trigger r.has(c)]
                #![trigger self.has(c)]
                #![trigger other.has(c)]
                r.has(c) <==> (self.has(c) || other.has(c)),
    {
        let mut r = self.clone();
        let n = other.ranges.len();
        let mut i: usize = 0;
        while i < n
            invariant
                i <= n,
                n == other.ranges.len(),
                r.wf(),
                forall|c: u32|
                    #![trigger r.has(c)]
                    #![trigger self.has(c)]
                    r.has(c) <==> (self.has(c) || ranges_have(other@.take(i as int), c)),
            decreases n - i,
        {
            let x = other.ranges[i];
            proof {
                assert(other@.take(i as int + 1) =~= other@.take(i as int).push(x));
                assert forall|c: u32|
                    ranges_have(other@.take(i as int + 1), c) <==> (ranges_have(
                        other@.take(i as int),
                        c,
                    ) || x.has(c)) by {
                    lemma_ranges_have_push(other@.take(i as int), x, c);
                }
            }
            r.insert(x);
            i += 1;
        }
        assert(other@.take(n as int) =~= other@);
        r
    }

    /// The set of the code points that are in both `self` and `other`.
    pub fn intersect(&self, other: &CharSet) -> (r: CharSet)
        requires
            self.wf(),
            other.wf(),
        ensures
            r.wf(),
            forall|c: u32|
                #![trigger r.has(c)]
                #![trigger self.has(c)]
                #![trigger other.has(c)]
                r.has(c) <==> (self.has(c) && other.has(c)),
    {
        let mut out: Vec<CharRange> = Vec::new();
        let n = self.ranges.len();
        let m = other.ranges.len();
        let mut i: usize = 0;
        let mut j: usize = 0;
        while i < n && j < m
            invariant
                i <= n,
                j <= m,
                n == self@.len(),
                m == other@.len(),
                normalized(self@),
                normalized(other@),
                normalized(out@),
                forall|k: int|
                    0 <= k < out.len() ==> (i < n ==> (#[trigger] out[k]).end + 1 < self@[i as int].start)
                        || (j < m ==> out[k].end + 1 < other@[j as int].start),
                forall|k: int|
                    0 <= k < out.len() ==> (i < n ==> (#[trigger] out[k]).end <= self@[i as int].end)
                        && (j < m ==> out[k].end <= other@[j as int].end),
                forall|c: u32|
                    ranges_have(out@, c) ==> ranges_have(self@, c) && ranges_have(other@, c),
                forall|p: int, q: int|
                    0 <= p < n && 0 <= q < m ==> (i <= p && j <= q) || #[trigger] covers(
                        out@,
                        self@[p],
                        other@[q],
                    ),
            decreases (n - i) + (m - j),
        {
            let a = self.ranges[i];
            let b = other.ranges[j];
            let ghost out0 = out@;
            match a.intersection(&b) {
                Some(x) => {
                    out.push(x);
                    proof {
                        assert forall|c: u32| ranges_have(out@, c) implies ranges_have(self@, c)
                            && ranges_have(other@, c) by {
                            lemma_ranges_have_push(out0, x, c);
                            if x.has(c) {
                                assert(self@[i as int].has(c));
                                assert(other@[j as int].has(c));
                            }
                        }
                        assert forall|c: u32| ranges_have(out0, c) implies ranges_have(out@, c) by {
                            lemma_ranges_have_push(out0, x, c);
                        }
                        assert forall|c: u32| x.has(c) implies ranges_have(out@, c) by {
                            lemma_ranges_have_push(out0, x, c);
                        }
                    }
                },
                None => {},
            }
            proof {
                let ghost ni: int = if a.end <= b.end { i + 1 } else { i as int };
                let ghost nj: int = if a.end <= b.end { j as int } else { j + 1 };
                assert forall|p: int, q: int| 0 <= p < n && 0 <= q < m implies (ni <= p && nj <= q)
                    || #[trigger] covers(out@, self@[p], other@[q]) by {
                    if !(ni <= p && nj <= q) {
                        if i <= p && j <= q {
                            if a.end <= b.end {
                                if j < q {
                                    assert(other@[j as int].end + 1 < other@[q].start);
                                } else {
                                    assert forall|c: u32| a.has(c) && b.has(c) implies ranges_have(
                                        out@,
                                        c,
                                    ) by {
                                        assert(out@[out@.len() - 1].has(c));
                                    }
                                }
                            } else {
                                if i < p {
                                    assert(self@[i as int].end + 1 < self@[p].start);
                                } else {
                                    assert forall|c: u32| a.has(c) && b.has(c) implies ranges_have(
                                        out@,
                                        c,
                                    ) by {
                                        assert(out@[out@.len() - 1].has(c));
                                    }
                                }
                            }
                        } else {
                            assert(covers(out0, self@[p], other@[q]));
                            assert forall|c: u32|
                                self@[p].has(c) && other@[q].has(c) implies ranges_have(out@, c) by {
                                assert(ranges_have(out0, c));
                                let k = choose|k: int|
                                    0 <= k < out0.len() && (#[trigger] out0[k]).has(c);
                                assert(out@[k].has(c));
                            }
                        }
                    }
                }
            }
            if a.end <= b.end {
                i += 1;
            } else {
                j += 1;
            }
        }
        let r = CharSet { ranges: out };
        proof {
            assert forall|c: u32|
                #![trigger r.has(c)]
                #![trigger self.has(c)]
                #![trigger other.has(c)]
                r.has(c) <==> (self.has(c) && other.has(c)) by {
                if self.has(c) && other.has(c) {
                    let p = choose|p: int| 0 <= p < self@.len() && (#[trigger] self@[p]).has(c);
                    let q = choose|q: int| 0 <= q < other@.len() && (#[trigger] other@[q]).has(c);
                    assert(covers(out@, self@[p], other@[q]));
                }
            }
        }
        r
    }

    /// The pieces of `range` that lie in the set, in increasing order.
    pub fn clip(&self, range: CharRange) -> (r: Vec<CharRange>)
        requires
            self.wf(),
        ensures
            normalized(r@),
            forall|c: u32|
                #![trigger ranges_have(r@, c)]
                #![trigger self.has(c)]
                #![trigger range.has(c)]
                ranges_have(r@, c) <==> (range.has(c) && self.has(c)),
            r@ == clip_of(self@, range),
    {
        let r = self.clip_pieces(range);
        proof {
            assert forall|c: u32| #[trigger] ranges_have(r@, c) <==> (range.has(c) && ranges_have(
                self@,
                c,
            )) by {
                assert(self.has(c) == ranges_have(self@, c));
            }
            lemma_clip_of(self@, range, r@);
        }
        r
    }

    /// The pieces of `range` that lie in the set, found range by range.
    fn clip_pieces(&self, range: CharRange) -> (r: Vec<CharRange>)
        requires
            self.wf(),
        ensures
            normalized(r@),
            forall|c: u32|
                #![trigger ranges_have(r@, c)]
                #![trigger self.has(c)]
                #![trigger range.has(c)]
                ranges_have(r@, c) <==> (range.has(c) && self.has(c)),
    {
        let mut out: Vec<CharRange> = Vec::new();
        let n = self.ranges.len();
        let mut i: usize = 0;
        while i < n
            invariant
                i <= n,
                n == self@.len(),
                normalized(self@),
                normalized(out@),
                forall|k: int, j: int|
                    0 <= k < out.len() && i <= j < n ==> (#[trigger] out@[k]).end + 1 < (
                    #[trigger] self@[j]).start,
                forall|c: u32|
                    #![trigger ranges_have(out@, c)]
                    #![trigger range.has(c)]
                    ranges_have(out@, c) <==> (range.has(c) && ranges_have(self@.take(i as int), c)),
            decreases n - i,
        {
            let x = self.ranges[i];
            let ghost out0 = out@;
            let ghost t0 = self@.take(i as int);
            assert(self@.take(i as int + 1) =~= t0.push(x));
            match range.intersection(&x) {
                Some(y) => {
                    out.push(y);
                    proof {
                        assert forall|k: int, j: int|
                            0 <= k < out.len() && i + 1 <= j < n implies (#[trigger] out@[k]).end + 1 < (
                        #[trigger] self@[j]).start by {
                            if k == out0.len() {
                                assert(self@[i as int].end + 1 < self@[j].start);
                            }
                        }
                        assert forall|c: u32|
                            #![trigger ranges_have(out@, c)]
                            #![trigger range.has(c)]
                            ranges_have(out@, c) <==> (range.has(c) && ranges_have(
                                self@.take(i as int + 1),
                                c,
                            )) by {
                            lemma_ranges_have_push(out0, y, c);
                            lemma_ranges_have_push(t0, x, c);
                            assert(ranges_have(out0, c) <==> (range.has(c) && ranges_have(t0, c)));
                        }
                    }
                },
                None => {
                    proof {
                        assert forall|c: u32|
                            #![trigger ranges_have(out@, c)]
                            #![trigger range.has(c)]
                            ranges_have(out@, c) <==> (range.has(c) && ranges_have(
                                self@.take(i as int + 1),
                                c,
                            )) by {
                            lemma_ranges_have_push(t0, x, c);
                            assert(ranges_have(out0, c) <==> (range.has(c) && ranges_have(t0, c)));
                        }
                    }
                },
            }
            i += 1;
        }
        assert(self@.take(n as int) =~= self@);
        out
    }

    /// The set of the code points that are not in `self`.
    pub fn negated(&self) -> (r: CharSet)
        requires
            self.wf(),
        ensures
            r.wf(),
            forall|c: u32|
                #![trigger r.has(c)]
                #![trigger self.has(c)]
                r.has(c) <==> !self.has(c),
    {
        let mut out: Vec<CharRange> = Vec::new();
        let n = self.ranges.len();
        let mut next: u32 = 0;
        let mut done = false;
        let mut i: usize = 0;
        while i < n && !done
            invariant
                i <= n,
                n == self@.len(),
                normalized(self@),
                normalized(out@),
                done ==> i == n,
                !done ==> forall|k: int| 0 <= k < out.len() ==> (#[trigger] out@[k]).end + 1 < next,
                !done && i < n ==> next <= self@[i as int].start,
                !done && i > 0 ==> next == self@[i - 1].end + 1,
                !done && i == 0 ==> next == 0,
                forall|c: u32|
                    #![trigger ranges_have(out@, c)]
                    (done || c < next) ==> (ranges_have(out@, c) <==> !ranges_have(self@, c)),
                forall|c: u32| ranges_have(out@, c) ==> done || c < next,
            decreases n - i, (if done { 0int } else { 1int }),
        {
            let x = self.ranges[i];
            let ghost out0 = out@;
            let ghost next0 = next;
            if x.start > next {
                out.push(CharRange { start: next, end: x.start - 1 });
            }
            proof {
                assert forall|c: u32| next0 <= c && c < x.start implies !ranges_have(self@, c) by {
                    if ranges_have(self@, c) {
                        let k = choose|k: int| 0 <= k < self@.len() && (#[trigger] self@[k]).has(c);
                        if k < i {
                            assert(self@[k].end + 1 <= self@[i - 1].end + 1) by {
                                if k < i - 1 {
                                    assert(self@[k].end + 1 < self@[i - 1].start);
                                }
                            }
                        } else if k > i {
                            assert(self@[i as int].end + 1 < self@[k].start);
                        }
                    }
                }
                assert forall|c: u32| x.has(c) implies ranges_have(self@, c) by {
                    assert(self@[i as int].has(c));
                }
                assert forall|c: u32|
                    #![trigger ranges_have(out@, c)]
                    (c <= x.end) ==> (ranges_have(out@, c) <==> !ranges_have(self@, c)) by {
                    if x.start > next0 {
                        lemma_ranges_have_push(out0, CharRange { start: next0, end: (x.start - 1) as u32 }, c);
                    }
                    if c < next0 {
                        assert(ranges_have(out0, c) <==> !ranges_have(self@, c));
                    } else {
                        if ranges_have(out0, c) {
                            assert(c < next0);
                        }
                    }
                }
                assert forall|c: u32| ranges_have(out@, c) implies c <= x.end by {
                    if x.start > next0 {
                        lemma_ranges_have_push(out0, CharRange { start: next0, end: (x.start - 1) as u32 }, c);
                    }
                    if ranges_have(out0, c) {
                        assert(c < next0);
                    }
                }
            }
            if x.end == u32::MAX {
                done = true;
                proof {
                    if i + 1 < n {
                        assert(self@[i as int].end + 1 < self@[i + 1].start);
                    }
                }
                i = n;
            } else {
                next = x.end + 1;
                proof {
                    if i + 1 < n {
                        assert(self@[i as int].end + 1 < self@[i + 1].start);
                    }
                    assert forall|k: int| 0 <= k < out.len() implies (#[trigger] out@[k]).end + 1
                        < next by {
                        if k < out0.len() {
                            assert(out0[k].end + 1 < next0);
                        }
                    }
                }
                i += 1;
            }
        }
        if !done {
            let ghost out0 = out@;
            out.push(CharRange { start: next, end: u32::MAX });
            proof {
                assert forall|c: u32| next <= c implies !ranges_have(self@, c) by {
                    if ranges_have(self@, c) {
                        let k = choose|k: int| 0 <= k < self@.len() && (#[trigger] self@[k]).has(c);
                        if n > 0 {
                            if k < n - 1 {
                                assert(self@[k].end + 1 < self@[n - 1].start);
                            }
                        }
                    }
                }
                assert forall|c: u32|
                    #![trigger ranges_have(out@, c)]
                    ranges_have(out@, c) <==> !ranges_have(self@, c) by {
                    lemma_ranges_have_push(out0, CharRange { start: next, end: u32::MAX }, c);
                    if c < next {
                        assert(ranges_have(out0, c) <==> !ranges_have(self@, c));
                    } else if ranges_have(out0, c) {
                        assert(c < next);
                    }
                }
            }
        }
        let r = CharSet { ranges: out };
        proof {
            assert forall|c: u32|
                #![trigger r.has(c)]
                #![trigger self.has(c)]
                r.has(c) <==> !self.has(c) by {
                assert(ranges_have(out@, c) <==> !ranges_have(self@, c));
            }
        }
        r
    }

    /// Whether the two sets hold the same code points.
    pub fn same(&self, other: &CharSet) -> (b: bool)
        ensures
            b == (self@ == other@),
    {
        if self.ranges.len() != other.ranges.len() {
            return false;
        }
        let mut i: usize = 0;
        while i < self.ranges.len()
            invariant
                i <= self.ranges.len(),
                self.ranges.len() == other.ranges.len(),
                forall|k: int| 0 <= k < i ==> self@[k] == other@[k],
            decreases self.ranges.len() - i,
        {
            if self.ranges[i] != other.ranges[i] {
                return false;
            }
            i += 1;
        }
        assert(self@ =~= other@);
        true
    }
}

/// The pieces of `range` that lie in the set `set`: the normalized list of the code points
/// that both hold.
pub open spec fn clip_of(set: Seq<CharRange>, range: CharRange) -> Seq<CharRange> {
    choose|r: Seq<CharRange>|
        normalized(r) && forall|c: u32|
            #[trigger] ranges_have(r, c) <==> (range.has(c) && ranges_have(set, c))
}

/// A normalized list of the code points that a range and a set both hold is the list of the
/// pieces of the range in the set.
pub proof fn lemma_clip_of(set: Seq<CharRange>, range: CharRange, r: Seq<CharRange>)
    requires
        normalized(r),
        forall|c: u32| #[trigger] ranges_have(r, c) <==> (range.has(c) && ranges_have(set, c)),
    ensures
        r == clip_of(set, range),
{
    let q = clip_of(set, range);
    assert(normalized(q) && forall|c: u32|
        #[trigger] ranges_have(q, c) <==> (range.has(c) && ranges_have(set, c)));
    assert forall|c: u32| ranges_have(r, c) <==> ranges_have(q, c) by {
        assert(ranges_have(r, c) <==> (range.has(c) && ranges_have(set, c)));
        assert(ranges_have(q, c) <==> (range.has(c) && ranges_have(set, c)));
    }
    lemma_normalized_unique(r, q);
}

/// The ranges of `pieces`, each with the value `v`.
pub open spec fn pieces_with<V>(pieces: Seq<CharRange>, v: V) -> Seq<(CharRange, V)> {
    Seq::new(pieces.len(), |j: int| (pieces[j], v))
}

/// The entries of `m` cut to the set `set`: in the place of each entry stand the pieces of
/// its range that lie in the set, in increasing order, each with the value of the entry.
pub open spec fn clipped<V>(m: Seq<(CharRange, V)>, set: Seq<CharRange>) -> Seq<(CharRange, V)>
    decreases m.len(),
{
    if m.len() == 0 {
        Seq::empty()
    } else {
        clipped(m.drop_last(), set) + pieces_with(clip_of(set, m.last().0), m.last().1)
    }
}

/// A set of code points has one normalized list of ranges.
pub proof fn lemma_normalized_unique(a: Seq<CharRange>, b: Seq<CharRange>)
    requires
        normalized(a),
        normalized(b),
        forall|c: u32| ranges_have(a, c) <==> ranges_have(b, c),
    ensures
        a == b,
    decreases a.len(),
{
    if a.len() == 0 {
        if b.len() > 0 {
            assert(b[0].has(b[0].start));
            assert(ranges_have(b, b[0].start));
        }
        assert(a =~= b);
    } else if b.len() == 0 {
        assert(a[0].has(a[0].start));
        assert(ranges_have(a, a[0].start));
    } else {
        lemma_first_range(a, b);
        lemma_first_range(b, a);
        let a1 = a.skip(1);
        let b1 = b.skip(1);
        assert forall|c: u32| ranges_have(a1, c) <==> ranges_have(b1, c) by {
            lemma_skip_first(a, c);
            lemma_skip_first(b, c);
        }
        assert(normalized(a1)) by {
            assert forall|i: int, j: int| 0 <= i < j < a1.len() implies (#[trigger] a1[i]).end + 1 < (
            #[trigger] a1[j]).start by {
                assert(a[i + 1].end + 1 < a[j + 1].start);
            }
            assert forall|i: int| 0 <= i < a1.len() implies (#[trigger] a1[i]).start <= a1[i].end by {
                assert(a[i + 1].start <= a[i + 1].end);
            }
        }
        assert(normalized(b1)) by {
            assert forall|i: int, j: int| 0 <= i < j < b1.len() implies (#[trigger] b1[i]).end + 1 < (
            #[trigger] b1[j]).start by {
                assert(b[i + 1].end + 1 < b[j + 1].start);
            }
            assert forall|i: int| 0 <= i < b1.len() implies (#[trigger] b1[i]).start <= b1[i].end by {
                assert(b[i + 1].start <= b[i + 1].end);
            }
        }
        lemma_normalized_unique(a1, b1);
        assert(a =~= seq![a[0]] + a1);
        assert(b =~= seq![b[0]] + b1);
    }
}

/// The first range of a normalized list starts and ends no later than that of another
/// list of the same set.
proof fn lemma_first_range(a: Seq<CharRange>, b: Seq<CharRange>)
    requires
        normalized(a),
        normalized(b),
        a.len() > 0,
        b.len() > 0,
        forall|c: u32| ranges_have(a, c) <==> ranges_have(b, c),
    ensures
        a[0].start <= b[0].start,
        a[0].start == b[0].start ==> a[0].end >= b[0].end,
{
    let c = b[0].start;
    assert(b[0].has(c));
    assert(ranges_have(b, c));
    assert(ranges_have(a, c));
    let i = choose|i: int| 0 <= i < a.len() && (#[trigger] a[i]).has(c);
    if i > 0 {
        assert(a[0].end + 1 < a[i].start);
    }
    assert(a[0].start <= a[i].start);
    if a[0].start == b[0].start && a[0].end < b[0].end {
        let d: u32 = (a[0].end + 1) as u32;
        assert(b[0].has(d));
        assert(ranges_have(b, d));
        assert(ranges_have(a, d));
        let j = choose|j: int| 0 <= j < a.len() && (#[trigger] a[j]).has(d);
        if j > 0 {
            assert(a[0].end + 1 < a[j].start);
        }
    }
}

/// What a normalized list holds behind its first range.
proof fn lemma_skip_first(a: Seq<CharRange>, c: u32)
    requires
        normalized(a),
        a.len() > 0,
    ensures
        ranges_have(a.skip(1), c) <==> (ranges_have(a, c) && !a[0].has(c)),
{
    let a1 = a.skip(1);
    if ranges_have(a1, c) {
        let i = choose|i: int| 0 <= i < a1.len() && (#[trigger] a1[i]).has(c);
        assert(a[i + 1].has(c));
        assert(a[0].end + 1 < a[i + 1].start);
    }
    if ranges_have(a, c) && !a[0].has(c) {
        let i = choose|i: int| 0 <= i < a.len() && (#[trigger] a[i]).has(c);
        assert(a1[i - 1].has(c));
    }
}

/// A normalized list that holds every code point is the one range of them all.
pub proof fn lemma_full_is_one_range(rs: Seq<CharRange>)
    requires
        normalized(rs),
        forall|c: u32| ranges_have(rs, c),
    ensures
        rs =~= seq![CharRange { start: 0, end: u32::MAX }],
{
    assert(ranges_have(rs, 0u32));
    let i = choose|i: int| 0 <= i < rs.len() && (#[trigger] rs[i]).has(0u32);
    if i > 0 {
        assert(rs[0].end + 1 < rs[i].start);
    }
    assert(rs[0].start == 0);
    if rs[0].end < u32::MAX {
        let c: u32 = (rs[0].end + 1) as u32;
        assert(ranges_have(rs, c));
        let j = choose|j: int| 0 <= j < rs.len() && (#[trigger] rs[j]).has(c);
        if j > 0 {
            assert(rs[0].end + 1 < rs[j].start);
        }
        assert(false);
    }
    if rs.len() > 1 {
        assert(rs[0].end + 1 < rs[1].start);
    }
}

/// Whether some entry of `m` has the code point `c` in its range.
pub open spec fn keys_have<T>(m: Seq<(CharRange, T)>, c: u32) -> bool {
    exists|k: int| 0 <= k < m.len() && (#[trigger] m[k]).0.has(c)
}

/// Whether the state of an entry is one of `keep`.
pub open spec fn value_in(keep: Seq<usize>) -> spec_fn((CharRange, usize)) -> bool {
    |e: (CharRange, usize)| keep.contains(e.1)
}

/// The ranges of `m`, each with the state `n`.
pub open spec fn sent_to(m: Seq<(CharRange, usize)>, n: usize) -> Seq<(CharRange, usize)> {
    Seq::new(m.len(), |k: int| (m[k].0, n))
}

/// Whether `m` sends the code point `c` to the state `t`.
pub open spec fn maps_to(m: Seq<(CharRange, usize)>, c: u32, t: usize) -> bool {
    exists|k: int| 0 <= k < m.len() && (#[trigger] m[k]).0.has(c) && m[k].1 == t
}

/// Whether `b` is where a range of `m` starts, or the code point after one ends.
pub open spec fn is_boundary(m: Seq<(CharRange, usize)>, b: u32) -> bool {
    exists|k: int|
        0 <= k < m.len() && (#[trigger] m[k]).0.start <= m[k].0.end && (m[k].0.start == b
            || m[k].0.end + 1 == b)
}

/// Whether the ranges of `m` are non-empty, in increasing order, and disjoint.
pub open spec fn keys_disjoint<T>(m: Seq<(CharRange, T)>) -> bool {
    &&& forall|i: int| 0 <= i < m.len() ==> (#[trigger] m[i]).0.start <= m[i].0.end
    &&& forall|i: int, j: int|
        0 <= i < j < m.len() ==> (#[trigger] m[i]).0.end < (#[trigger] m[j]).0.start
}

/// Whether the ranges of `g` are the stretches between neighbouring boundaries of `m` on
/// which `m` has a value, in increasing order.
pub open spec fn is_atoms<T>(m: Seq<(CharRange, usize)>, g: Seq<(CharRange, T)>) -> bool {
    &&& keys_disjoint(g)
    &&& forall|k: int|
        0 <= k < g.len() ==> {
            &&& (#[trigger] g[k]).0.start == 0 || is_boundary(m, g[k].0.start)
            &&& g[k].0.end == u32::MAX || is_boundary(m, (g[k].0.end + 1) as u32)
            &&& forall|b: u32| g[k].0.start < b && b <= g[k].0.end ==> !is_boundary(m, b)
            &&& exists|t: usize| maps_to(m, g[k].0.start, t)
        }
    &&& forall|c: u32, t: usize| #[trigger] maps_to(m, c, t) ==> keys_have(g, c)
}

/// Whether `g` is `m` grouped: its ranges are the stretches between neighbouring boundaries
/// of `m` on which `m` has a value, in increasing order, each with the set of the states
/// that `m` sends its code points to.
pub open spec fn is_grouping(m: Seq<(CharRange, usize)>, g: Seq<(CharRange, Vec<usize>)>) -> bool {
    &&& is_atoms(m, g)
    &&& forall|k: int| 0 <= k < g.len() ==> crate::state_set::sorted((#[trigger] g[k]).1@)
    &&& forall|k: int, c: u32, t: usize|
        0 <= k < g.len() && (#[trigger] g[k]).0.has(c) ==> (g[k].1@.contains(t) <==> #[trigger] maps_to(
            m,
            c,
            t,
        ))
}

/// Whether `m` sends the code point `c` to the set of states `v`.
pub open spec fn lookup(m: Seq<(CharRange, Vec<usize>)>, c: u32, v: Seq<usize>) -> bool {
    exists|k: int| 0 <= k < m.len() && (#[trigger] m[k]).0.has(c) && m[k].1@ == v
}

/// A multi-valued map from code points to states: a list of ranges, each with a state.
#[derive(Debug)]
pub struct CharMultiMap {
    pub(crate) vec: Vec<(CharRange, usize)>,
}

impl View for CharMultiMap {
    type V = Seq<(CharRange, usize)>;

    closed spec fn view(&self) -> Seq<(CharRange, usize)> {
        self.vec@
    }
}

impl Clone for CharMultiMap {
    fn clone(&self) -> (r: CharMultiMap)
        ensures
            r@ == self@,
    {
        let mut vec: Vec<(CharRange, usize)> = Vec::new();
        let mut i: usize = 0;
        while i < self.vec.len()
            invariant
                i <= self.vec.len(),
                vec@ == self.vec@.take(i as int),
            decreases self.vec.len() - i,
        {
            vec.push(self.vec[i]);
            assert(self.vec@.take(i as int + 1) =~= self.vec@.take(i as int).push(
                self.vec@[i as int],
            ));
            i += 1;
        }
        assert(self.vec@.take(i as int) =~= self.vec@);
        CharMultiMap { vec }
    }
}

/// A map from code points to values: a list of ranges, each with its value.
#[derive(Debug)]
pub struct CharMap<T> {
    pub(crate) vec: Vec<(CharRange, T)>,
}

impl<T> View for CharMap<T> {
    type V = Seq<(CharRange, T)>;

    closed spec fn view(&self) -> Seq<(CharRange, T)> {
        self.vec@
    }
}

impl<T> CharMap<T> {
    /// A map without entries.
    pub fn new() -> (r: CharMap<T>)
        ensures
            r@ == Seq::<(CharRange, T)>::empty(),
    {
        CharMap { vec: Vec::new() }
    }

    /// The map with the entries of `vec`, in their order.
    pub fn from_vec(vec: Vec<(CharRange, T)>) -> (r: CharMap<T>)
        ensures
            r@ == vec@,
    {
        CharMap { vec }
    }

    /// The entries of the map, in their order.
    pub fn into_vec(self) -> (r: Vec<(CharRange, T)>)
        ensures
            r@ == self@,
    {
        self.vec
    }

    /// The number of entries.
    pub fn len(&self) -> (n: usize)
        ensures
            n == self@.len(),
    {
        self.vec.len()
    }

    /// Whether this holds nothing.
    pub fn is_empty(&self) -> (b: bool)
        ensures
            b == (self@.len() == 0),
    {
        self.vec.len() == 0
    }

    /// The entry at the index `i`.
    pub fn get(&self, i: usize) -> (e: &(CharRange, T))
        requires
            i < self@.len(),
        ensures
            *e == self@[i as int],
    {
        &self.vec[i]
    }

    /// Puts one more entry behind the others.
    pub fn push(&mut self, range: CharRange, value: T)
        ensures
            final(self)@ == old(self)@.push((range, value)),
    {
        self.vec.push((range, value));
    }
}

impl CharMultiMap {
    /// A map without entries.
    pub fn new() -> (r: CharMultiMap)
        ensures
            r@ == Seq::<(CharRange, usize)>::empty(),
    {
        CharMultiMap { vec: Vec::new() }
    }

    /// The map with the entries of `vec`, in their order.
    pub fn from_vec(vec: Vec<(CharRange, usize)>) -> (r: CharMultiMap)
        ensures
            r@ == vec@,
    {
        CharMultiMap { vec }
    }

    /// The entries of the map, in their order.
    pub fn into_vec(self) -> (r: Vec<(CharRange, usize)>)
        ensures
            r@ == self@,
    {
        self.vec
    }

    /// The number of entries.
    pub fn len(&self) -> (n: usize)
        ensures
            n == self@.len(),
    {
        self.vec.len()
    }

    /// Whether this holds nothing.
    pub fn is_empty(&self) -> (b: bool)
        ensures
            b == (self@.len() == 0),
    {
        self.vec.len() == 0
    }

    /// The entry at the index `i`.
    pub fn get(&self, i: usize) -> (e: (CharRange, usize))
        requires
            i < self@.len(),
        ensures
            e == self@[i as int],
    {
        self.vec[i]
    }

    /// Puts one more entry behind the others.
    pub fn push(&mut self, range: CharRange, value: usize)
        ensures
            final(self)@ == old(self)@.push((range, value)),
    {
        self.vec.push((range, value));
    }

    /// Whether the two maps hold the same entries in the same order.
    pub fn same(&self, other: &CharMultiMap) -> (b: bool)
        ensures
            b == (self@ == other@),
    {
        if self.vec.len() != other.vec.len() {
            return false;
        }
        let mut i: usize = 0;
        while i < self.vec.len()
            invariant
                i <= self.vec.len(),
                self.vec.len() == other.vec.len(),
                forall|k: int| 0 <= k < i ==> self@[k] == other@[k],
            decreases self.vec.len() - i,
        {
            let a = self.vec[i];
            let b = other.vec[i];
            if a.0 != b.0 || a.1 != b.1 {
                return false;
            }
            i += 1;
        }
        assert(self@ =~= other@);
        true
    }

    /// The entries whose state is in `keep`, in their order.
    pub fn filter_values(&self, keep: &Vec<usize>) -> (r: CharMultiMap)
        ensures
            r@ == self@.filter(value_in(keep@)),
    {
        let mut out: Vec<(CharRange, usize)> = Vec::new();
        let ghost f = value_in(keep@);
        let mut i: usize = 0;
        while i < self.vec.len()
            invariant
                i <= self.vec.len(),
                f == value_in(keep@),
                out@ == self@.take(i as int).filter(f),
            decreases self.vec.len() - i,
        {
            let e = self.vec[i];
            proof {
                assert(self@.take(i as int + 1) =~= self@.take(i as int).push(e));
                lemma_filter_push(self@.take(i as int), e, f);
            }
            if crate::state_set::contains(keep, e.1) {
                out.push(e);
            }
            i += 1;
        }
        assert(self@.take(i as int) =~= self@);
        CharMultiMap { vec: out }
    }

    /// The map restricted to the code points of `cs`.
    pub fn intersect(&self, cs: &CharSet) -> (r: CharMultiMap)
        requires
            cs.wf(),
        ensures
            r@ == clipped(self@, cs@),
            forall|c: u32, t: usize|
                #![trigger maps_to(r@, c, t)]
                #![trigger maps_to(self@, c, t)]
                maps_to(r@, c, t) <==> (maps_to(self@, c, t) && cs.has(c)),
    {
        let mut out: Vec<(CharRange, usize)> = Vec::new();
        let mut i: usize = 0;
        assert(out@ =~= clipped(self@.take(0), cs@));
        while i < self.vec.len()
            invariant
                i <= self.vec.len(),
                cs.wf(),
                out@ == clipped(self@.take(i as int), cs@),
                forall|c: u32, t: usize|
                    #![trigger maps_to(out@, c, t)]
                    #![trigger maps_to(self@.take(i as int), c, t)]
                    maps_to(out@, c, t) <==> (maps_to(self@.take(i as int), c, t) && cs.has(c)),
            decreases self.vec.len() - i,
        {
            let e = self.vec[i];
            let pieces = cs.clip(e.0);
            let ghost out0 = out@;
            let ghost m0 = self@.take(i as int);
            let ghost m1 = self@.take(i as int + 1);
            assert(m1 =~= m0.push(e));
            assert(m1.drop_last() =~= m0);
            let mut j: usize = 0;
            assert(out@ =~= out0 + pieces_with(pieces@.take(0), e.1));
            while j < pieces.len()
                invariant
                    j <= pieces.len(),
                    out@ == out0 + pieces_with(pieces@.take(j as int), e.1),
                    forall|c: u32, t: usize|
                        #![trigger maps_to(out@, c, t)]
                        maps_to(out@, c, t) <==> (maps_to(out0, c, t) || (t == e.1 && ranges_have(
                            pieces@.take(j as int),
                            c,
                        ))),
                decreases pieces.len() - j,
            {
                let ghost out1 = out@;
                let y = pieces[j];
                out.push((y, e.1));
                proof {
                    assert(out@ =~= out0 + pieces_with(pieces@.take(j as int + 1), e.1));
                    assert(pieces@.take(j as int + 1) =~= pieces@.take(j as int).push(y));
                    assert forall|c: u32, t: usize|
                        #![trigger maps_to(out@, c, t)]
                        maps_to(out@, c, t) <==> (maps_to(out0, c, t) || (t == e.1 && ranges_have(
                            pieces@.take(j as int + 1),
                            c,
                        ))) by {
                        lemma_maps_to_push(out1, (y, e.1), c, t);
                        lemma_ranges_have_push(pieces@.take(j as int), y, c);
                        assert(maps_to(out1, c, t) <==> (maps_to(out0, c, t) || (t == e.1
                            && ranges_have(pieces@.take(j as int), c))));
                    }
                }
                j += 1;
            }
            proof {
                assert(pieces@.take(j as int) =~= pieces@);
                assert(out@ == clipped(m1, cs@));
                assert forall|c: u32, t: usize|
                    #![trigger maps_to(out@, c, t)]
                    #![trigger maps_to(m1, c, t)]
                    maps_to(out@, c, t) <==> (maps_to(m1, c, t) && cs.has(c)) by {
                    lemma_maps_to_push(m0, e, c, t);
                    assert(maps_to(out0, c, t) <==> (maps_to(m0, c, t) && cs.has(c)));
                    assert(ranges_have(pieces@, c) <==> (e.0.has(c) && cs.has(c)));
                    assert(maps_to(out@, c, t) <==> (maps_to(out0, c, t) || (t == e.1
                        && ranges_have(pieces@, c))));
                }
            }
            i += 1;
        }
        assert(self@.take(i as int) =~= self@);
        CharMultiMap { vec: out }
    }

    /// The least boundary above `cur`, if there is one.
    fn next_boundary(&self, cur: u32) -> (r: Option<u32>)
        ensures
            match r {
                Some(b) => cur < b && is_boundary(self@, b) && forall|x: u32|
                    cur < x && x < b ==> !is_boundary(self@, x),
                None => forall|x: u32| cur < x ==> !is_boundary(self@, x),
            },
    {
        let mut best: Option<u32> = None;
        let mut i: usize = 0;
        while i < self.vec.len()
            invariant
                i <= self.vec.len(),
                match best {
                    Some(b) => cur < b && is_boundary(self@, b),
                    None => true,
                },
                forall|k: int|
                    0 <= k < i && (#[trigger] self@[k]).0.start <= self@[k].0.end ==> {
                        &&& cur < self@[k].0.start ==> best is Some && best.unwrap()
                            <= self@[k].0.start
                        &&& cur < self@[k].0.end + 1 && self@[k].0.end < u32::MAX ==> best is Some
                            && best.unwrap() <= self@[k].0.end + 1
                    },
            decreases self.vec.len() - i,
        {
            let r = self.vec[i].0;
            if r.start <= r.end {
                if r.start > cur && (best.is_none() || r.start < best.unwrap()) {
                    best = Some(r.start);
                }
                if r.end < u32::MAX {
                    let e: u32 = r.end + 1;
                    if e > cur && (best.is_none() || e < best.unwrap()) {
                        best = Some(e);
                    }
                }
            }
            i += 1;
        }
        proof {
            assert forall|x: u32| cur < x && is_boundary(self@, x) implies best is Some
                && best.unwrap() <= x by {
                let k = choose|k: int|
                    0 <= k < self@.len() && (#[trigger] self@[k]).0.start <= self@[k].0.end && (
                    self@[k].0.start == x || self@[k].0.end + 1 == x);
            }
        }
        best
    }

    /// The states that the map sends `c` to, in increasing order.
    pub fn targets_at(&self, c: u32) -> (r: Vec<usize>)
        ensures
            crate::state_set::sorted(r@),
            forall|t: usize| r@.contains(t) <==> maps_to(self@, c, t),
    {
        let mut out: Vec<usize> = Vec::new();
        let mut i: usize = 0;
        while i < self.vec.len()
            invariant
                i <= self.vec.len(),
                crate::state_set::sorted(out@),
                forall|t: usize| out@.contains(t) <==> maps_to(self@.take(i as int), c, t),
            decreases self.vec.len() - i,
        {
            let e = self.vec[i];
            let ghost out0 = out@;
            if e.0.contains(c) {
                crate::state_set::insert(&mut out, e.1);
            }
            proof {
                let m0 = self@.take(i as int);
                let m1 = self@.take(i as int + 1);
                assert(m1 =~= m0.push(e));
                assert forall|t: usize| out@.contains(t) <==> maps_to(m1, c, t) by {
                    if maps_to(m0, c, t) {
                        let k = choose|k: int|
                            0 <= k < m0.len() && (#[trigger] m0[k]).0.has(c) && m0[k].1 == t;
                        assert(m1[k].0.has(c) && m1[k].1 == t);
                    }
                    if maps_to(m1, c, t) {
                        let k = choose|k: int|
                            0 <= k < m1.len() && (#[trigger] m1[k]).0.has(c) && m1[k].1 == t;
                        if k < m0.len() {
                            assert(m0[k].0.has(c) && m0[k].1 == t);
                        }
                    }
                    if e.0.has(c) && e.1 == t {
                        assert(m1[i as int].0.has(c) && m1[i as int].1 == t);
                    }
                    assert(out0.contains(t) <==> maps_to(m0, c, t));
                }
            }
            i += 1;
        }
        assert(self@.take(i as int) =~= self@);
        out
    }

    /// Splits the code points into the stretches on which the map has the same states, and
    /// gives each stretch that has any its set of states.
    #[verifier::rlimit(60)]
    pub fn group(&self) -> (g: CharMap<Vec<usize>>)
        ensures
            is_grouping(self@, g@),
    {
        let mut out: Vec<(CharRange, Vec<usize>)> = Vec::new();
        let mut cur: u32 = 0;
        let mut done = false;
        while !done
            invariant
                cur == 0 || is_boundary(self@, cur),
                keys_disjoint(out@),
                !done ==> forall|k: int| 0 <= k < out.len() ==> (#[trigger] out@[k]).0.end < cur,
                forall|k: int|
                    0 <= k < out.len() ==> {
                        &&& (#[trigger] out@[k]).0.start == 0 || is_boundary(
                            self@,
                            out@[k].0.start,
                        )
                        &&& out@[k].0.end == u32::MAX || is_boundary(
                            self@,
                            (out@[k].0.end + 1) as u32,
                        )
                        &&& forall|b: u32|
                            out@[k].0.start < b && b <= out@[k].0.end ==> !is_boundary(self@, b)
                        &&& crate::state_set::sorted(out@[k].1@)
                        &&& exists|t: usize| maps_to(self@, out@[k].0.start, t)
                    },
                forall|k: int, c: u32, t: usize|
                    0 <= k < out.len() && (#[trigger] out@[k]).0.has(c) ==> (out@[k].1@.contains(t)
                        <==> #[trigger] maps_to(self@, c, t)),
                forall|c: u32, t: usize|
                    (done || c < cur) && #[trigger] maps_to(self@, c, t) ==> keys_have(out@, c),
            decreases (if done { 0int } else { 1int }), u32::MAX - cur,
        {
            let next = self.next_boundary(cur);
            let end: u32 = match next {
                Some(b) => b - 1,
                None => u32::MAX,
            };
            let targets = self.targets_at(cur);
            let range = CharRange { start: cur, end };
            let ghost out0 = out@;
            proof {
                assert forall|c: u32, t: usize| range.has(c) implies (maps_to(self@, c, t)
                    <==> maps_to(self@, cur, t)) by {
                    lemma_same_targets_between(self@, cur, end, c, t);
                }
            }
            if targets.len() > 0 {
                proof {
                    assert(targets@.contains(targets@[0]));
                    assert(maps_to(self@, cur, targets@[0]));
                }
                out.push((range, targets));
                proof {
                    assert forall|k: int, c: u32, t: usize|
                        0 <= k < out.len() && (#[trigger] out@[k]).0.has(c) implies (
                    out@[k].1@.contains(t) <==> #[trigger] maps_to(self@, c, t)) by {
                        if k < out0.len() {
                            assert(out0[k].0.has(c));
                        }
                    }
                }
            }
            proof {
                assert forall|c: u32, t: usize|
                    (next is None || c < next.unwrap()) && #[trigger] maps_to(
                        self@,
                        c,
                        t,
                    ) implies keys_have(out@, c) by {
                    if c < cur {
                        assert(keys_have(out0, c));
                        let k = choose|k: int| 0 <= k < out0.len() && (#[trigger] out0[k]).0.has(c);
                        assert(out@[k].0.has(c));
                    } else {
                        assert(range.has(c));
                        assert(maps_to(self@, cur, t));
                        assert(targets@.contains(t));
                        assert(out@[out.len() - 1].0.has(c));
                    }
                }
            }
            match next {
                Some(b) => {
                    cur = b;
                },
                None => {
                    done = true;
                },
            }
        }
        CharMap { vec: out }
    }
}

impl CharMap<usize> {
    /// The value of the first entry whose range holds `c`, if there is one.
    pub open spec fn find_spec(m: Seq<(CharRange, usize)>, c: u32) -> Option<usize>
        decreases m.len(),
    {
        if m.len() == 0 {
            None
        } else if m[0].0.has(c) {
            Some(m[0].1)
        } else {
            Self::find_spec(m.skip(1), c)
        }
    }

    /// The value of the first entry whose range holds `c`, if there is one.
    pub fn find(&self, c: u32) -> (r: Option<usize>)
        ensures
            r == Self::find_spec(self@, c),
            r is Some ==> exists|k: int| 0 <= k < self@.len() && (#[trigger] self@[k]).0.has(c) && self@[k].1 == r.unwrap(),
    {
        let mut i: usize = 0;
        assert(self@.skip(0) =~= self@);
        while i < self.vec.len()
            invariant
                i <= self.vec.len(),
                Self::find_spec(self@, c) == Self::find_spec(self@.skip(i as int), c),
            decreases self.vec.len() - i,
        {
            let e = self.vec[i];
            proof {
                assert(self@.skip(i as int)[0] == e);
                assert(self@.skip(i as int).skip(1) =~= self@.skip(i as int + 1));
            }
            if e.0.contains(c) {
                return Some(e.1);
            }
            i += 1;
        }
        None
    }
}

impl Clone for CharMap<usize> {
    fn clone(&self) -> (r: CharMap<usize>)
        ensures
            r@ == self@,
    {
        let mut vec: Vec<(CharRange, usize)> = Vec::new();
        let mut i: usize = 0;
        while i < self.vec.len()
            invariant
                i <= self.vec.len(),
                vec@ == self.vec@.take(i as int),
            decreases self.vec.len() - i,
        {
            vec.push(self.vec[i]);
            assert(self.vec@.take(i as int + 1) =~= self.vec@.take(i as int).push(
                self.vec@[i as int],
            ));
            i += 1;
        }
        assert(self.vec@.take(i as int) =~= self.vec@);
        CharMap { vec }
    }
}

/// The views of the entries of a map from ranges to sets of states.
pub open spec fn sets_of(m: Seq<(CharRange, Vec<usize>)>) -> Seq<(CharRange, Seq<usize>)> {
    Seq::new(m.len(), |i: int| (m[i].0, m[i].1@))
}

/// A stretch of one list of atoms is a stretch of every other.
pub proof fn lemma_atom_shared<T, U>(
    m: Seq<(CharRange, usize)>,
    g: Seq<(CharRange, T)>,
    h: Seq<(CharRange, U)>,
    k: int,
) -> (j: int)
    requires
        is_atoms(m, g),
        is_atoms(m, h),
        0 <= k < g.len(),
    ensures
        0 <= j < h.len(),
        h[j].0 == g[k].0,
{
    let key = g[k].0;
    let t = choose|t: usize| maps_to(m, key.start, t);
    assert(maps_to(m, key.start, t));
    assert(keys_have(h, key.start));
    let j = choose|j: int| 0 <= j < h.len() && (#[trigger] h[j]).0.has(key.start);
    let other = h[j].0;
    assert(other.start == key.start) by {
        if key.start != 0 {
            assert(is_boundary(m, key.start));
            if other.start < key.start {
                assert(!is_boundary(m, key.start));
            }
        }
    }
    assert(other.end == key.end) by {
        if other.end > key.end {
            let b = (key.end + 1) as u32;
            assert(is_boundary(m, b));
            assert(other.start < b && b <= other.end);
            assert(!is_boundary(m, b));
        }
        if other.end < key.end {
            let b = (other.end + 1) as u32;
            assert(is_boundary(m, b));
            assert(key.start < b && b <= key.end);
            assert(!is_boundary(m, b));
        }
    }
    j
}

/// Whether `r` is the range of an entry of `g`.
pub open spec fn has_key<T>(g: Seq<(CharRange, T)>, r: CharRange) -> bool {
    exists|j: int| 0 <= j < g.len() && (#[trigger] g[j]).0 == r
}

/// Two lists of disjoint ranges in increasing order that hold the same ranges hold them
/// at the same places.
pub proof fn lemma_keys_unique<T, U>(g: Seq<(CharRange, T)>, h: Seq<(CharRange, U)>)
    requires
        keys_disjoint(g),
        keys_disjoint(h),
        forall|k: int| 0 <= k < g.len() ==> has_key(h, (#[trigger] g[k]).0),
        forall|k: int| 0 <= k < h.len() ==> has_key(g, (#[trigger] h[k]).0),
    ensures
        g.len() == h.len(),
        forall|k: int| 0 <= k < g.len() ==> (#[trigger] g[k]).0 == h[k].0,
    decreases g.len(),
{
    if g.len() == 0 {
        if h.len() > 0 {
            assert(has_key(g, h[0].0));
        }
    } else if h.len() == 0 {
        assert(has_key(h, g[0].0));
    } else {
        let gl = g.len() - 1;
        let hl = h.len() - 1;
        assert(has_key(h, g[gl].0));
        let j = choose|j: int| 0 <= j < h.len() && (#[trigger] h[j]).0 == g[gl].0;
        assert(has_key(g, h[hl].0));
        let i = choose|i: int| 0 <= i < g.len() && (#[trigger] g[i]).0 == h[hl].0;
        if j < hl {
            assert(h[j].0.end < h[hl].0.start);
            if i < gl {
                assert(g[i].0.end < g[gl].0.start);
            }
            assert(false);
        }
        let g1 = g.drop_last();
        let h1 = h.drop_last();
        assert forall|k: int| 0 <= k < g1.len() implies has_key(h1, (#[trigger] g1[k]).0) by {
            assert(g1[k] == g[k]);
            assert(has_key(h, g[k].0));
            let q = choose|q: int| 0 <= q < h.len() && (#[trigger] h[q]).0 == g[k].0;
            assert(g[k].0.end < g[gl].0.start);
            assert(q < hl);
            assert(h1[q].0 == g1[k].0);
        }
        assert forall|k: int| 0 <= k < h1.len() implies has_key(g1, (#[trigger] h1[k]).0) by {
            assert(h1[k] == h[k]);
            assert(has_key(g, h[k].0));
            let q = choose|q: int| 0 <= q < g.len() && (#[trigger] g[q]).0 == h[k].0;
            assert(h[k].0.end < h[hl].0.start);
            assert(q < gl);
            assert(g1[q].0 == h1[k].0);
        }
        assert(keys_disjoint(g1)) by {
            assert forall|a: int| 0 <= a < g1.len() implies (#[trigger] g1[a]).0.start
                <= g1[a].0.end by {
                assert(g1[a] == g[a]);
            }
            assert forall|a: int, b: int| 0 <= a < b < g1.len() implies (#[trigger] g1[a]).0.end < (
            #[trigger] g1[b]).0.start by {
                assert(g1[a] == g[a] && g1[b] == g[b]);
            }
        }
        assert(keys_disjoint(h1)) by {
            assert forall|a: int| 0 <= a < h1.len() implies (#[trigger] h1[a]).0.start
                <= h1[a].0.end by {
                assert(h1[a] == h[a]);
            }
            assert forall|a: int, b: int| 0 <= a < b < h1.len() implies (#[trigger] h1[a]).0.end < (
            #[trigger] h1[b]).0.start by {
                assert(h1[a] == h[a] && h1[b] == h[b]);
            }
        }
        lemma_keys_unique(g1, h1);
        assert forall|k: int| 0 <= k < g.len() implies (#[trigger] g[k]).0 == h[k].0 by {
            if k < gl {
                assert(g1[k].0 == h1[k].0);
            }
        }
    }
}

/// Two lists of the atoms of one map have the same ranges at the same places.
pub proof fn lemma_atoms_unique<T, U>(
    m: Seq<(CharRange, usize)>,
    g: Seq<(CharRange, T)>,
    h: Seq<(CharRange, U)>,
)
    requires
        is_atoms(m, g),
        is_atoms(m, h),
    ensures
        g.len() == h.len(),
        forall|k: int| 0 <= k < g.len() ==> (#[trigger] g[k]).0 == h[k].0,
{
    assert forall|k: int| 0 <= k < g.len() implies has_key(h, (#[trigger] g[k]).0) by {
        let j = lemma_atom_shared(m, g, h, k);
    }
    assert forall|k: int| 0 <= k < h.len() implies has_key(g, (#[trigger] h[k]).0) by {
        let j = lemma_atom_shared(m, h, g, k);
    }
    lemma_keys_unique(g, h);
}

/// A map is grouped in one way only.
pub proof fn lemma_grouping_unique(
    m: Seq<(CharRange, usize)>,
    g: Seq<(CharRange, Vec<usize>)>,
    h: Seq<(CharRange, Vec<usize>)>,
)
    requires
        is_grouping(m, g),
        is_grouping(m, h),
    ensures
        sets_of(g) == sets_of(h),
{
    lemma_atoms_unique(m, g, h);
    assert forall|k: int| 0 <= k < g.len() implies sets_of(g)[k] == sets_of(h)[k] by {
        let c = g[k].0.start;
        assert(g[k].0.has(c));
        assert(h[k].0.has(c));
        assert forall|t: usize| g[k].1@.contains(t) <==> h[k].1@.contains(t) by {
            assert(g[k].1@.contains(t) <==> maps_to(m, c, t));
            assert(h[k].1@.contains(t) <==> maps_to(m, c, t));
        }
        crate::state_set::lemma_sorted_unique(g[k].1@, h[k].1@);
    }
    assert(sets_of(g) =~= sets_of(h));
}

/// The views of the entries have the ranges of the entries.
pub proof fn lemma_atoms_sets(m: Seq<(CharRange, usize)>, g: Seq<(CharRange, Vec<usize>)>)
    requires
        is_atoms(m, g),
    ensures
        is_atoms(m, sets_of(g)),
{
    let v = sets_of(g);
    assert forall|k: int| 0 <= k < v.len() implies {
        &&& (#[trigger] v[k]).0.start == 0 || is_boundary(m, v[k].0.start)
        &&& v[k].0.end == u32::MAX || is_boundary(m, (v[k].0.end + 1) as u32)
        &&& forall|b: u32| v[k].0.start < b && b <= v[k].0.end ==> !is_boundary(m, b)
        &&& exists|t: usize| maps_to(m, v[k].0.start, t)
    } by {
        assert(v[k].0 == g[k].0);
    }
    assert forall|c: u32, t: usize| #[trigger] maps_to(m, c, t) implies keys_have(v, c) by {
        assert(keys_have(g, c));
        let k = choose|k: int| 0 <= k < g.len() && (#[trigger] g[k]).0.has(c);
        assert(v[k].0.has(c));
    }
    assert(keys_disjoint(v)) by {
        assert forall|i: int| 0 <= i < v.len() implies (#[trigger] v[i]).0.start <= v[i].0.end by {
            assert(v[i].0 == g[i].0);
        }
        assert forall|i: int, j: int| 0 <= i < j < v.len() implies (#[trigger] v[i]).0.end < (
        #[trigger] v[j]).0.start by {
            assert(v[i].0 == g[i].0 && v[j].0 == g[j].0);
        }
    }
}

impl Clone for CharMap<Vec<usize>> {
    fn clone(&self) -> (r: CharMap<Vec<usize>>)
        ensures
            sets_of(r@) == sets_of(self@),
    {
        let mut vec: Vec<(CharRange, Vec<usize>)> = Vec::new();
        let mut i: usize = 0;
        while i < self.vec.len()
            invariant
                i <= self.vec.len(),
                vec@.len() == i,
                forall|k: int| 0 <= k < i ==> (#[trigger] vec@[k]).0 == self.vec@[k].0 && vec@[k].1@
                    == self.vec@[k].1@,
            decreases self.vec.len() - i,
        {
            let set = crate::state_set::copy(&self.vec[i].1);
            vec.push((self.vec[i].0, set));
            i += 1;
        }
        let r = CharMap { vec };
        assert(sets_of(r@) =~= sets_of(self@));
        r
    }
}

impl CharMap<Vec<usize>> {
    /// Whether the two maps have the same entries in the same order.
    pub fn same(&self, other: &CharMap<Vec<usize>>) -> (b: bool)
        ensures
            b == (sets_of(self@) == sets_of(other@)),
    {
        if self.vec.len() != other.vec.len() {
            assert(sets_of(self@).len() != sets_of(other@).len());
            return false;
        }
        let mut i: usize = 0;
        while i < self.vec.len()
            invariant
                i <= self.vec.len(),
                self.vec.len() == other.vec.len(),
                forall|k: int| 0 <= k < i ==> sets_of(self@)[k] == sets_of(other@)[k],
            decreases self.vec.len() - i,
        {
            let a = &self.vec[i];
            let b = &other.vec[i];
            if a.0 != b.0 || !crate::state_set::same(&a.1, &b.1) {
                assert(sets_of(self@)[i as int] != sets_of(other@)[i as int]);
                return false;
            }
            i += 1;
        }
        assert(sets_of(self@) =~= sets_of(other@));
        true
    }

    /// The map restricted to the code points of `cs`.
    pub fn intersect(&self, cs: &CharSet) -> (r: CharMap<Vec<usize>>)
        requires
            cs.wf(),
            keys_disjoint(self@),
        ensures
            sets_of(r@) == clipped(sets_of(self@), cs@),
            keys_disjoint(r@),
            forall|c: u32, v: Seq<usize>|
                #![trigger lookup(r@, c, v)]
                #![trigger lookup(self@, c, v)]
                lookup(r@, c, v) <==> (lookup(self@, c, v) && cs.has(c)),
    {
        let mut out: Vec<(CharRange, Vec<usize>)> = Vec::new();
        let mut i: usize = 0;
        assert(sets_of(out@) =~= clipped(sets_of(self@).take(0), cs@));
        while i < self.vec.len()
            invariant
                i <= self.vec.len(),
                cs.wf(),
                sets_of(out@) == clipped(sets_of(self@).take(i as int), cs@),
                keys_disjoint(self@),
                keys_disjoint(out@),
                forall|k: int, j: int|
                    0 <= k < out.len() && i <= j < self@.len() ==> (#[trigger] out@[k]).0.end < (
                    #[trigger] self@[j]).0.start,
                forall|c: u32, v: Seq<usize>|
                    #![trigger lookup(out@, c, v)]
                    #![trigger lookup(self@.take(i as int), c, v)]
                    lookup(out@, c, v) <==> (lookup(self@.take(i as int), c, v) && cs.has(c)),
            decreases self.vec.len() - i,
        {
            let range = self.vec[i].0;
            let pieces = cs.clip(range);
            let ghost out0 = out@;
            let ghost m0 = self@.take(i as int);
            let ghost m1 = self@.take(i as int + 1);
            let ghost e = self@[i as int];
            assert(m1 =~= m0.push(e));
            proof {
                assert forall|k: int, l: int|
                    0 <= k < out.len() && 0 <= l < pieces.len() implies (#[trigger] out@[k]).0.end < (
                #[trigger] pieces@[l]).start by {
                    assert(pieces@[l].has(pieces@[l].start));
                    assert(ranges_have(pieces@, pieces@[l].start));
                    assert(out@[k].0.end < self@[i as int].0.start);
                }
            }
            let mut j: usize = 0;
            proof {
                let sv = sets_of(self@);
                assert(sv.take(i as int + 1).drop_last() =~= sv.take(i as int));
                assert(sv.take(i as int + 1).last() == (e.0, e.1@));
                assert(sets_of(out@) =~= sets_of(out0) + pieces_with(pieces@.take(0), e.1@));
            }
            while j < pieces.len()
                invariant
                    j <= pieces.len(),
                    i < self.vec.len(),
                    e == self@[i as int],
                    range == e.0,
                    sets_of(out@) == sets_of(out0) + pieces_with(pieces@.take(j as int), e.1@),
                    keys_disjoint(self@),
                    normalized(pieces@),
                    forall|c: u32| ranges_have(pieces@, c) ==> range.has(c),
                    keys_disjoint(out@),
                    forall|k: int, l: int|
                        0 <= k < out.len() && j <= l < pieces.len() ==> (#[trigger] out@[k]).0.end < (
                        #[trigger] pieces@[l]).start,
                    forall|k: int, l: int|
                        0 <= k < out.len() && i < l < self@.len() ==> (#[trigger] out@[k]).0.end < (
                        #[trigger] self@[l]).0.start,
                    forall|c: u32, v: Seq<usize>|
                        #![trigger lookup(out@, c, v)]
                        lookup(out@, c, v) <==> (lookup(out0, c, v) || (v == e.1@ && ranges_have(
                            pieces@.take(j as int),
                            c,
                        ))),
                decreases pieces.len() - j,
            {
                let ghost out1 = out@;
                let y = pieces[j];
                let v = crate::state_set::copy(&self.vec[i].1);
                out.push((y, v));
                proof {
                    assert(sets_of(out@) =~= sets_of(out1).push((y, e.1@)));
                    assert(sets_of(out@) =~= sets_of(out0) + pieces_with(
                        pieces@.take(j as int + 1),
                        e.1@,
                    ));
                    assert(pieces@.take(j as int + 1) =~= pieces@.take(j as int).push(y));
                    assert(ranges_have(pieces@, y.end)) by {
                        assert(pieces@[j as int].has(y.end));
                    }
                    assert(range.has(y.end));
                    assert forall|k: int, l: int|
                        0 <= k < out.len() && i < l < self@.len() implies (#[trigger] out@[k]).0.end < (
                    #[trigger] self@[l]).0.start by {
                        if k == out1.len() {
                            assert(self@[i as int].0.end < self@[l].0.start);
                        }
                    }
                    assert forall|k: int, l: int|
                        0 <= k < out.len() && j + 1 <= l < pieces.len() implies (
                    #[trigger] out@[k]).0.end < (#[trigger] pieces@[l]).start by {
                        if k == out1.len() {
                            assert(pieces@[j as int].end + 1 < pieces@[l].start);
                        }
                    }
                    assert forall|c: u32, v: Seq<usize>|
                        #![trigger lookup(out@, c, v)]
                        lookup(out@, c, v) <==> (lookup(out0, c, v) || (v == e.1@ && ranges_have(
                            pieces@.take(j as int + 1),
                            c,
                        ))) by {
                        lemma_lookup_push(out1, out@[out1.len() as int], c, v);
                        assert(out@ =~= out1.push(out@[out1.len() as int]));
                        lemma_ranges_have_push(pieces@.take(j as int), y, c);
                        assert(lookup(out1, c, v) <==> (lookup(out0, c, v) || (v == e.1@
                            && ranges_have(pieces@.take(j as int), c))));
                    }
                }
                j += 1;
            }
            proof {
                assert(pieces@.take(j as int) =~= pieces@);
                assert(sets_of(out@) == clipped(sets_of(self@).take(i as int + 1), cs@));
                assert forall|c: u32, v: Seq<usize>|
                    #![trigger lookup(out@, c, v)]
                    #![trigger lookup(m1, c, v)]
                    lookup(out@, c, v) <==> (lookup(m1, c, v) && cs.has(c)) by {
                    lemma_lookup_push(m0, e, c, v);
                    assert(lookup(out0, c, v) <==> (lookup(m0, c, v) && cs.has(c)));
                    assert(ranges_have(pieces@, c) <==> (e.0.has(c) && cs.has(c)));
                    assert(lookup(out@, c, v) <==> (lookup(out0, c, v) || (v == e.1@
                        && ranges_have(pieces@, c))));
                }
            }
            i += 1;
        }
        assert(self@.take(i as int) =~= self@);
        assert(sets_of(self@).take(i as int) =~= sets_of(self@));
        CharMap { vec: out }
    }
}

/// Where a map sends a code point once it has one more entry.
pub proof fn lemma_maps_to_push(m: Seq<(CharRange, usize)>, e: (CharRange, usize), c: u32, t: usize)
    ensures
        maps_to(m.push(e), c, t) <==> (maps_to(m, c, t) || (e.0.has(c) && e.1 == t)),
{
    let p = m.push(e);
    if maps_to(m, c, t) {
        let k = choose|k: int| 0 <= k < m.len() && (#[trigger] m[k]).0.has(c) && m[k].1 == t;
        assert(p[k].0.has(c) && p[k].1 == t);
    }
    if e.0.has(c) && e.1 == t {
        assert(p[m.len() as int].0.has(c));
    }
    if maps_to(p, c, t) {
        let k = choose|k: int| 0 <= k < p.len() && (#[trigger] p[k]).0.has(c) && p[k].1 == t;
        if k < m.len() {
            assert(m[k].0.has(c) && m[k].1 == t);
        }
    }
}

/// The same for a map to sets of states.
pub proof fn lemma_lookup_push(
    m: Seq<(CharRange, Vec<usize>)>,
    e: (CharRange, Vec<usize>),
    c: u32,
    v: Seq<usize>,
)
    ensures
        lookup(m.push(e), c, v) <==> (lookup(m, c, v) || (e.0.has(c) && e.1@ == v)),
{
    let p = m.push(e);
    if lookup(m, c, v) {
        let k = choose|k: int| 0 <= k < m.len() && (#[trigger] m[k]).0.has(c) && m[k].1@ == v;
        assert(p[k].0.has(c) && p[k].1@ == v);
    }
    if e.0.has(c) && e.1@ == v {
        assert(p[m.len() as int].0.has(c));
    }
    if lookup(p, c, v) {
        let k = choose|k: int| 0 <= k < p.len() && (#[trigger] p[k]).0.has(c) && p[k].1@ == v;
        if k < m.len() {
            assert(m[k].0.has(c) && m[k].1@ == v);
        }
    }
}

/// Between two neighbouring boundaries the map sends every code point to the same states.
pub proof fn lemma_same_targets_between(
    m: Seq<(CharRange, usize)>,
    lo: u32,
    hi: u32,
    c: u32,
    t: usize,
)
    requires
        lo <= c && c <= hi,
        forall|b: u32| lo < b && b <= hi ==> !is_boundary(m, b),
    ensures
        maps_to(m, c, t) <==> maps_to(m, lo, t),
{
    if maps_to(m, c, t) {
        let k = choose|k: int| 0 <= k < m.len() && (#[trigger] m[k]).0.has(c) && m[k].1 == t;
        if m[k].0.start > lo {
            assert(is_boundary(m, m[k].0.start));
        }
        assert(m[k].0.has(lo));
    }
    if maps_to(m, lo, t) {
        let k = choose|k: int| 0 <= k < m.len() && (#[trigger] m[k]).0.has(lo) && m[k].1 == t;
        if m[k].0.end < c {
            assert(is_boundary(m, (m[k].0.end + 1) as u32));
        }
        assert(m[k].0.has(c));
    }
}

/// Filtering a sequence with one more element at its end.
pub proof fn lemma_filter_push<A>(s: Seq<A>, x: A, f: spec_fn(A) -> bool)
    ensures
        s.push(x).filter(f) == if f(x) {
            s.filter(f).push(x)
        } else {
            s.filter(f)
        },
{
    reveal(Seq::filter);
    assert(s.push(x).drop_last() =~= s);
}

} // verus!
