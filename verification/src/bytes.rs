//! Lowering an automaton over code points to one over bytes: each transition on a range of
//! code points becomes paths of transitions on byte ranges, along the UTF-8 encodings of
//! the range.

use crate::char_map::{CharMultiMap, CharRange};
use crate::error::Error;
use crate::nfa::{lemma_wf_same_states, Nfa, NfaView, StateView};
use crate::state_set::below;
use crate::transition::{Accept, AcceptView, DfaAccept, TransitionsView};
use crate::predicates::{is_removed, predicate_free};
use crate::utf8::{
    head_key, is_sorted_by_target, lemma_runs, lemma_sorted_by_target, runs, runs_view, seqs_view,
    sorted_by_target, target_key, to_target, utf8_sequences_of,
};
use vstd::prelude::*;

verus! {

/// UTF-8 sequences that differ in their last byte range only: `head` is what they share,
/// `last_byte` are their last byte ranges.
#[derive(Debug)]
pub struct MergedUtf8Sequences {
    pub head: Vec<(u8, u8)>,
    pub last_byte: Vec<(u8, u8)>,
}

/// The last byte ranges of the sequences of `group`.
pub open spec fn lasts_of(group: Seq<Seq<(u8, u8)>>) -> Seq<(u8, u8)> {
    Seq::new(group.len(), |i: int| group[i].last())
}

/// What the sequences of `group` share: all but the last byte range of the first.
pub open spec fn head_of_group(group: Seq<Seq<(u8, u8)>>) -> Seq<(u8, u8)> {
    if group.len() == 0 {
        Seq::empty()
    } else {
        group[0].drop_last()
    }
}

/// The sequences that encode the scalar values of `r`.
pub open spec fn range_seqs(r: CharRange) -> Seq<Seq<(u8, u8)>> {
    match r.char_pair() {
        Some((lo, hi)) => utf8_sequences_of(lo, hi),
        None => Seq::empty(),
    }
}

/// The sequences that encode the scalar values of `ranges`, range by range.
pub open spec fn seqs_of(ranges: Seq<CharRange>) -> Seq<Seq<(u8, u8)>>
    decreases ranges.len(),
{
    if ranges.len() == 0 {
        Seq::empty()
    } else {
        seqs_of(ranges.drop_last()) + range_seqs(ranges.last())
    }
}

/// The number of byte ranges that the groups have before their last, group by group: the
/// number of states that their paths need between the two ends.
pub open spec fn heads_total(groups: Seq<Seq<Seq<(u8, u8)>>>) -> nat
    decreases groups.len(),
{
    if groups.len() == 0 {
        0
    } else {
        heads_total(groups.drop_last()) + head_of_group(groups.last()).len()
    }
}

/// The groups in which the encodings of `ranges` are added to an automaton.
pub open spec fn merged_of(ranges: Seq<CharRange>) -> Seq<Seq<Seq<(u8, u8)>>> {
    runs(seqs_of(ranges), head_key())
}

/// The byte range as a range of code points.
pub open spec fn byte_range(r: (u8, u8)) -> CharRange {
    CharRange { start: r.0 as u32, end: r.1 as u32 }
}

/// Whether each byte range of `s` has its least byte first.
pub open spec fn ranges_ordered(s: Seq<(u8, u8)>) -> bool {
    forall|k: int| 0 <= k < s.len() ==> (#[trigger] s[k]).0 <= s[k].1
}

impl MergedUtf8Sequences {
    /// Merges sequences that share all but their last byte range.
    pub fn merge(group: &Vec<Vec<(u8, u8)>>) -> (r: MergedUtf8Sequences)
        requires
            forall|i: int| 0 <= i < group@.len() ==> (#[trigger] group@[i])@.len() >= 1,
            forall|i: int|
                0 <= i < group@.len() ==> (#[trigger] group@[i])@.drop_last()
                    == group@[0]@.drop_last(),
        ensures
            r.head@ == head_of_group(seqs_view(group@)),
            r.last_byte@ == lasts_of(seqs_view(group@)),
    {
        let mut head: Vec<(u8, u8)> = Vec::new();
        let mut last_byte: Vec<(u8, u8)> = Vec::new();
        let mut i: usize = 0;
        while i < group.len()
            invariant
                i <= group.len(),
                forall|k: int| 0 <= k < group@.len() ==> (#[trigger] group@[k])@.len() >= 1,
                head@ == head_of_group(seqs_view(group@).take(i as int)),
                last_byte@ == lasts_of(seqs_view(group@).take(i as int)),
            decreases group.len() - i,
        {
            let seq = &group[i];
            if i == 0 {
                head = crate::utf8::head_of(seq);
            }
            let ghost before = last_byte@;
            last_byte.push(seq[seq.len() - 1]);
            proof {
                let t0 = seqs_view(group@).take(i as int);
                let t1 = seqs_view(group@).take(i as int + 1);
                assert(t1 =~= t0.push(seq@));
                assert(last_byte@ =~= lasts_of(t1));
                if i > 0 {
                    assert(t1[0] == t0[0]);
                }
            }
            i += 1;
        }
        assert(seqs_view(group@).take(i as int) =~= seqs_view(group@));
        MergedUtf8Sequences { head, last_byte }
    }
}

impl NfaView {
    /// The automaton with a path from `start` to `end` along the byte ranges of `head` and
    /// then along any of the byte ranges of `last`. The path has a new state behind each
    /// byte range of `head`. Where there is no `end`, one more new state is the end: it
    /// accepts whatever follows, one byte back for each byte range of the path.
    pub open spec fn with_path(
        self,
        start: int,
        end: Option<usize>,
        head: Seq<(u8, u8)>,
        last: Seq<(u8, u8)>,
    ) -> NfaView {
        let n = self.num();
        let h = head.len() as int;
        let end_state: usize = match end {
            Some(e) => e,
            None => (n + h) as usize,
        };
        let last_edges = Seq::new(last.len(), |j: int| (byte_range(last[j]), end_state));
        let total = n + h + if end is None {
            1int
        } else {
            0int
        };
        NfaView {
            states: Seq::new(
                total as nat,
                |s: int|
                    if s < n {
                        if s == start {
                            self.states[s].with_transitions(
                                TransitionsView {
                                    consuming: self.states[s].transitions.consuming + (if h == 0 {
                                        last_edges
                                    } else {
                                        seq![(byte_range(head[0]), n as usize)]
                                    }),
                                    eps: self.states[s].transitions.eps,
                                    predicates: self.states[s].transitions.predicates,
                                },
                            )
                        } else {
                            self.states[s]
                        }
                    } else if s < n + h {
                        StateView {
                            transitions: TransitionsView {
                                consuming: if s < n + h - 1 {
                                    seq![(byte_range(head[s - n + 1]), (s + 1) as usize)]
                                } else {
                                    last_edges
                                },
                                eps: Seq::empty(),
                                predicates: Seq::empty(),
                            },
                            accept: AcceptView::never(),
                            dfa_accept: DfaAccept::never_spec(),
                        }
                    } else {
                        StateView {
                            transitions: TransitionsView::empty(),
                            accept: AcceptView::never(),
                            dfa_accept: DfaAccept {
                                at_eoi: true,
                                otherwise: true,
                                bytes_behind: (h + 1) as usize,
                            },
                        }
                    },
            ),
            init: self.init,
            init_at_start: self.init_at_start,
            init_after_char: self.init_after_char,
        }
    }

    /// The automaton with a path for each of `groups`, added in their order.
    pub open spec fn with_paths(
        self,
        start: int,
        end: Option<usize>,
        groups: Seq<Seq<Seq<(u8, u8)>>>,
    ) -> NfaView
        decreases groups.len(),
    {
        if groups.len() == 0 {
            self
        } else {
            self.with_paths(start, end, groups.drop_last()).with_path(
                start,
                end,
                head_of_group(groups.last()),
                lasts_of(groups.last()),
            )
        }
    }

    /// Whether every consuming transition of the states from `from` on is over bytes.
    pub open spec fn bytes_from(self, from: int) -> bool {
        forall|s: int, k: int|
            from <= s < self.states.len() && 0 <= k < self.states[s].transitions.consuming.len()
                ==> (#[trigger] self.states[s].transitions.consuming[k]).0.is_byte()
    }
}

/// Whether `b` is `a` with paths added out of the state `start`: the other states of `a`
/// are as they were, `start` has further consuming transitions over bytes, and the
/// further states accept nothing before the lowering, have no ε-transitions and no
/// predicate transitions, and have consuming transitions over bytes only.
pub open spec fn paths_added(a: NfaView, b: NfaView, start: int) -> bool {
    &&& a.states.len() <= b.states.len()
    &&& forall|s: int| 0 <= s < a.states.len() && s != start ==> #[trigger] b.states[s] == a.states[s]
    &&& b.states[start].accept == a.states[start].accept
    &&& b.states[start].dfa_accept == a.states[start].dfa_accept
    &&& b.states[start].transitions.eps == a.states[start].transitions.eps
    &&& b.states[start].transitions.predicates == a.states[start].transitions.predicates
    &&& a.states[start].transitions.consuming.len() <= b.states[start].transitions.consuming.len()
    &&& forall|k: int|
        0 <= k < b.states[start].transitions.consuming.len() ==> if k
            < a.states[start].transitions.consuming.len() {
            #[trigger] b.states[start].transitions.consuming[k]
                == a.states[start].transitions.consuming[k]
        } else {
            b.states[start].transitions.consuming[k].0.is_byte()
        }
    &&& forall|s: int|
        a.states.len() <= s < b.states.len() ==> (#[trigger] b.states[s]).accept
            == AcceptView::never() && b.states[s].transitions.eps.len() == 0
            && b.states[s].transitions.predicates.len() == 0
    &&& b.bytes_from(a.num())
    &&& b.init == a.init
    &&& b.init_at_start == a.init_at_start
    &&& b.init_after_char == a.init_after_char
}

/// A path is paths added.
pub proof fn lemma_with_path_added(
    a: NfaView,
    start: int,
    end: Option<usize>,
    head: Seq<(u8, u8)>,
    last: Seq<(u8, u8)>,
)
    requires
        0 <= start < a.num(),
        ranges_ordered(head),
        ranges_ordered(last),
    ensures
        paths_added(a, a.with_path(start, end, head, last), start),
{
    let b = a.with_path(start, end, head, last);
    assert forall|s: int, k: int|
        a.num() <= s < b.states.len() && 0 <= k < b.states[s].transitions.consuming.len() implies (
    #[trigger] b.states[s].transitions.consuming[k]).0.is_byte() by {
        if s < a.num() + head.len() - 1 {
            assert(head[s - a.num() + 1].0 <= head[s - a.num() + 1].1);
        } else if s < a.num() + head.len() {
            assert(last[k].0 <= last[k].1);
        }
    }
    let ca = a.states[start].transitions.consuming;
    let cb = b.states[start].transitions.consuming;
    assert forall|k: int| ca.len() <= k < cb.len() implies (#[trigger] cb[k]).0.is_byte() by {
        if head.len() == 0 {
            assert(last[k - ca.len()].0 <= last[k - ca.len()].1);
        } else {
            assert(head[0].0 <= head[0].1);
        }
    }
}

/// Paths added to paths added are paths added.
pub proof fn lemma_paths_added_trans(a: NfaView, b: NfaView, c: NfaView, start: int)
    requires
        0 <= start < a.num(),
        paths_added(a, b, start),
        paths_added(b, c, start),
    ensures
        paths_added(a, c, start),
{
    assert forall|s: int| 0 <= s < a.states.len() && s != start implies #[trigger] c.states[s]
        == a.states[s] by {
        assert(b.states[s] == a.states[s]);
    }
    assert forall|k: int| 0 <= k < c.states[start].transitions.consuming.len() implies if k
        < a.states[start].transitions.consuming.len() {
        #[trigger] c.states[start].transitions.consuming[k] == a.states[start].transitions.consuming[k]
    } else {
        c.states[start].transitions.consuming[k].0.is_byte()
    } by {
        if k < b.states[start].transitions.consuming.len() {
            assert(c.states[start].transitions.consuming[k] == b.states[start].transitions.consuming[k]);
            if k < a.states[start].transitions.consuming.len() {
                assert(b.states[start].transitions.consuming[k]
                    == a.states[start].transitions.consuming[k]);
            } else {
                assert(b.states[start].transitions.consuming[k].0.is_byte());
            }
        }
    }
    assert forall|s: int| a.states.len() <= s < c.states.len() implies (#[trigger] c.states[s]).accept
        == AcceptView::never() && c.states[s].transitions.eps.len() == 0
        && c.states[s].transitions.predicates.len() == 0 by {
        if s < b.states.len() {
            assert(c.states[s] == b.states[s]);
            assert(b.states[s].accept == AcceptView::never());
        }
    }
    assert forall|s: int, k: int|
        a.num() <= s < c.states.len() && 0 <= k < c.states[s].transitions.consuming.len() implies (
    #[trigger] c.states[s].transitions.consuming[k]).0.is_byte() by {
        if s < b.states.len() {
            assert(c.states[s] == b.states[s]);
            assert(b.states[s].transitions.consuming[k].0.is_byte());
        }
    }
}

impl MergedUtf8Sequences {
    /// Merges the runs of sequences that share all but their last byte range.
    pub fn merge_all(seqs: Vec<Vec<(u8, u8)>>) -> (r: Vec<MergedUtf8Sequences>)
        requires
            forall|i: int| 0 <= i < seqs@.len() ==> 1 <= (#[trigger] seqs@[i])@.len() <= 4,
        ensures
            r@.len() == runs(seqs_view(seqs@), head_key()).len(),
            forall|g: int|
                0 <= g < r@.len() ==> (#[trigger] r@[g]).head@ == head_of_group(
                    runs(seqs_view(seqs@), head_key())[g],
                ) && r@[g].last_byte@ == lasts_of(runs(seqs_view(seqs@), head_key())[g])
                    && r@[g].head@.len() <= 3,
    {
        let ghost sv = seqs_view(seqs@);
        let ghost rs = runs(sv, head_key());
        let groups = crate::utf8::group_by_head(seqs);
        let mut ret: Vec<MergedUtf8Sequences> = Vec::new();
        let mut g: usize = 0;
        proof {
            lemma_runs(sv, head_key());
            assert(groups@.len() == rs.len());
        }
        while g < groups.len()
            invariant
                g <= groups.len(),
                groups@.len() == rs.len(),
                crate::utf8::groups_view(groups@) == rs,
                rs == runs(sv, head_key()),
                forall|i: int| 0 <= i < sv.len() ==> 1 <= (#[trigger] sv[i]).len() <= 4,
                forall|q: int| 0 <= q < rs.len() ==> (#[trigger] rs[q]).len() > 0,
                forall|q: int, i: int|
                    0 <= q < rs.len() && 0 <= i < rs[q].len() ==> head_key()(#[trigger] rs[q][i])
                        == head_key()(rs[q][0]),
                forall|q: int, i: int|
                    0 <= q < rs.len() && 0 <= i < rs[q].len() ==> sv.contains(#[trigger] rs[q][i]),
                ret@.len() == g,
                forall|q: int|
                    0 <= q < g ==> (#[trigger] ret@[q]).head@ == head_of_group(rs[q])
                        && ret@[q].last_byte@ == lasts_of(rs[q]) && ret@[q].head@.len() <= 3,
            decreases groups.len() - g,
        {
            let group = &groups[g];
            proof {
                let gv = seqs_view(group@);
                assert(gv == rs[g as int]);
                assert forall|i: int| 0 <= i < group@.len() implies 1 <= (
                #[trigger] group@[i])@.len() <= 4 by {
                    assert(gv[i] == group@[i]@);
                    assert(sv.contains(rs[g as int][i]));
                    let j = choose|j: int| 0 <= j < sv.len() && sv[j] == rs[g as int][i];
                    assert(1 <= sv[j].len() <= 4);
                }
                assert forall|i: int| 0 <= i < group@.len() implies (
                #[trigger] group@[i])@.drop_last() == group@[0]@.drop_last() by {
                    assert(gv[i] == group@[i]@);
                    assert(gv[0] == group@[0]@);
                    assert(head_key()(rs[g as int][i]) == head_key()(rs[g as int][0]));
                }
                assert(gv[0] == group@[0]@);
            }
            let m = MergedUtf8Sequences::merge(group);
            ret.push(m);
            g += 1;
        }
        ret
    }
}

impl Nfa {
    /// Adds a path from `start_state` to `end_state` for the byte sequences of `seq`.
    /// Without an `end_state` the path ends in a new state, which accepts whatever follows
    /// and reports the match as ending where the sequence began.
    pub fn add_utf8_sequence(
        &mut self,
        start_state: usize,
        end_state: Option<usize>,
        seq: &MergedUtf8Sequences,
    )
        requires
            old(self).wf(),
            start_state < old(self)@.num(),
            end_state is Some ==> end_state.unwrap() < old(self)@.num(),
            seq.head@.len() <= 3,
        ensures
            final(self)@ == old(self)@.with_path(
                start_state as int,
                end_state,
                seq.head@,
                seq.last_byte@,
            ),
            final(self).wf(),
    {
        let ghost a = self@;
        let n = self.states.len();
        let ghost head = seq.head@;
        let ghost last = seq.last_byte@;
        let h = seq.head.len();
        let mut last_state = start_state;
        let mut i: usize = 0;
        while i < h
            invariant
                i <= h,
                h == head.len(),
                head == seq.head@,
                h <= 3,
                self.wf(),
                a.wf(),
                n == a.num(),
                start_state < n,
                self@.num() == n + i,
                last_state == (if i == 0 {
                    start_state as int
                } else {
                    n + i - 1
                }),
                forall|s: int| 0 <= s < n && s != start_state ==> #[trigger] self@.states[s] == a.states[s],
                i == 0 ==> self@.states[start_state as int] == a.states[start_state as int],
                i > 0 ==> self@.states[start_state as int] == a.states[start_state as int].with_transitions(
                    TransitionsView {
                        consuming: a.states[start_state as int].transitions.consuming + seq![
                            (byte_range(head[0]), n),
                        ],
                        eps: a.states[start_state as int].transitions.eps,
                        predicates: a.states[start_state as int].transitions.predicates,
                    },
                ),
                forall|s: int|
                    n <= s < n + i - 1 ==> #[trigger] self@.states[s] == StateView::fresh(
                        AcceptView::never(),
                    ).with_transitions(
                        TransitionsView {
                            consuming: seq![(byte_range(head[s - n + 1]), (s + 1) as usize)],
                            eps: Seq::empty(),
                            predicates: Seq::empty(),
                        },
                    ),
                i > 0 ==> self@.states[n + i - 1] == StateView::fresh(AcceptView::never()),
                self@.init == a.init,
                self@.init_at_start == a.init_at_start,
                self@.init_after_char == a.init_after_char,
            decreases h - i,
        {
            let ghost before = self@;
            self.add_state(Accept::never());
            let cur_state = self.states.len() - 1;
            let r = seq.head[i];
            let range = CharRange::new(r.0 as u32, r.1 as u32);
            let ghost mid = self@;
            self.add_transition(last_state, cur_state, range);
            proof {
                let b = self@;
                assert(range == byte_range(head[i as int]));
                assert(b.states[last_state as int].transitions.consuming
                    =~= mid.states[last_state as int].transitions.consuming + seq![
                    (range, cur_state),
                ]);
                if i > 0 {
                    assert(b.states[last_state as int].transitions.consuming =~= seq![
                        (range, cur_state),
                    ]);
                }
                assert forall|s: int|
                    n <= s < n + (i + 1) - 1 implies #[trigger] b.states[s] == StateView::fresh(
                    AcceptView::never(),
                ).with_transitions(
                    TransitionsView {
                        consuming: seq![(byte_range(head[s - n + 1]), (s + 1) as usize)],
                        eps: Seq::empty(),
                        predicates: Seq::empty(),
                    },
                ) by {
                    if s < n + i - 1 {
                        assert(before.states[s] == b.states[s]);
                    }
                }
                assert forall|s: int| 0 <= s < n && s != start_state implies #[trigger] b.states[s]
                    == a.states[s] by {
                    assert(before.states[s] == a.states[s]);
                }
            }
            last_state = cur_state;
            i += 1;
        }
        let end = match end_state {
            Some(e) => e,
            None => {
                self.add_state(Accept::never());
                let e = self.states.len() - 1;
                self.set_byte_accept(e, DfaAccept::accept(h + 1));
                e
            },
        };
        let ghost mid = self@;
        let ghost base = mid.states[last_state as int].transitions.consuming;
        let ghost last_edges = Seq::new(last.len(), |j: int| (byte_range(last[j]), end));
        let mut j: usize = 0;
        proof {
            assert(base + last_edges.take(0) =~= base);
        }
        while j < seq.last_byte.len()
            invariant
                j <= seq.last_byte@.len(),
                last == seq.last_byte@,
                last_edges == Seq::new(last.len(), |j: int| (byte_range(last[j]), end)),
                self.wf(),
                self@.num() == mid.num(),
                last_state < mid.num(),
                end < mid.num(),
                base == mid.states[last_state as int].transitions.consuming,
                forall|s: int|
                    0 <= s < mid.num() && s != last_state ==> #[trigger] self@.states[s]
                        == mid.states[s],
                self@.states[last_state as int] == mid.states[last_state as int].with_transitions(
                    TransitionsView {
                        consuming: base + last_edges.take(j as int),
                        eps: mid.states[last_state as int].transitions.eps,
                        predicates: mid.states[last_state as int].transitions.predicates,
                    },
                ),
                self@.init == mid.init,
                self@.init_at_start == mid.init_at_start,
                self@.init_after_char == mid.init_after_char,
            decreases seq.last_byte@.len() - j,
        {
            let r = seq.last_byte[j];
            let range = CharRange::new(r.0 as u32, r.1 as u32);
            let ghost before = self@;
            self.add_transition(last_state, end, range);
            proof {
                let b = self@;
                assert(last_edges[j as int] == (range, end));
                assert(last_edges.take(j as int + 1) =~= last_edges.take(j as int).push((range, end)));
                assert(b.states[last_state as int].transitions.consuming =~= base + last_edges.take(
                    j as int + 1,
                ));
                assert forall|s: int| 0 <= s < mid.num() && s != last_state implies #[trigger] b.states[s]
                    == mid.states[s] by {
                    assert(before.states[s] == mid.states[s]);
                }
            }
            j += 1;
        }
        proof {
            assert(last_edges.take(last.len() as int) =~= last_edges);
            let b = self@;
            let w = a.with_path(start_state as int, end_state, head, last);
            assert(b.states.len() == w.states.len());
            assert forall|s: int| 0 <= s < b.states.len() implies b.states[s] == w.states[s] by {
                if s == last_state {
                    if h == 0 {
                        assert(base == a.states[start_state as int].transitions.consuming);
                    } else {
                    }
                } else {
                    assert(b.states[s] == mid.states[s]);
                }
            }
            assert(b.states =~= w.states);
        }
    }
}

/// The sum over more groups is no less.
pub proof fn lemma_heads_total_take(groups: Seq<Seq<Seq<(u8, u8)>>>, g: int)
    requires
        0 <= g <= groups.len(),
    ensures
        heads_total(groups.take(g)) <= heads_total(groups),
        g < groups.len() ==> heads_total(groups.take(g + 1)) == heads_total(groups.take(g))
            + head_of_group(groups[g]).len(),
    decreases groups.len() - g,
{
    if g < groups.len() {
        assert(groups.take(g + 1).drop_last() =~= groups.take(g));
        lemma_heads_total_take(groups, g + 1);
    } else {
        assert(groups.take(g) =~= groups);
    }
}

/// The number of states that the paths for `ranges` need between their two ends.
pub open spec fn path_cost(ranges: Seq<CharRange>) -> nat {
    heads_total(merged_of(ranges))
}

/// The same for the groups of transitions, group by group.
pub open spec fn groups_cost(groups: Seq<Seq<(CharRange, usize)>>) -> nat
    decreases groups.len(),
{
    if groups.len() == 0 {
        0
    } else {
        groups_cost(groups.drop_last()) + path_cost(ranges_of(groups.last()))
    }
}

/// The number of states that the lowering of the transitions `consuming` of a state
/// brings: they are lowered target by target.
pub open spec fn state_cost(consuming: Seq<(CharRange, usize)>) -> nat {
    groups_cost(runs(sorted_by_target(consuming), target_key()))
}

impl NfaView {
    /// The number of states that the lowering of the states below `k` brings.
    pub open spec fn lower_cost(self, k: int) -> nat
        decreases k,
    {
        if k <= 0 {
            0
        } else {
            self.lower_cost(k - 1) + state_cost(self.states[k - 1].transitions.consuming)
        }
    }

    /// Whether a state below `k` has a consuming transition.
    pub open spec fn has_consuming_below(self, k: int) -> bool {
        exists|s: int| 0 <= s < k && (#[trigger] self.states[s]).transitions.consuming.len() > 0
    }

    /// Whether the state `s` accepts before some characters, but not before all.
    pub open spec fn accepts_partly(self, s: int) -> bool {
        self.states[s].accept.at_char.len() > 0 && self.states[s].accept.at_char != seq![
            CharRange { start: 0, end: u32::MAX },
        ]
    }

    /// The number of states that the lowering of the acceptance of the states below `k`
    /// brings: for each state that accepts partly, the states between the two ends of
    /// its paths, and a state at the end of each path.
    pub open spec fn accept_growth(self, k: int) -> nat
        decreases k,
    {
        if k <= 0 {
            0
        } else if self.accepts_partly(k - 1) {
            self.accept_growth(k - 1) + path_cost(self.states[k - 1].accept.at_char) + merged_of(
                self.states[k - 1].accept.at_char,
            ).len()
        } else {
            self.accept_growth(k - 1)
        }
    }
}

/// The number of states of an automaton with paths.
pub proof fn lemma_with_paths_num(
    a: NfaView,
    start: int,
    end: Option<usize>,
    groups: Seq<Seq<Seq<(u8, u8)>>>,
)
    ensures
        a.with_paths(start, end, groups).num() == a.num() + heads_total(groups) + if end is None {
            groups.len() as int
        } else {
            0int
        },
    decreases groups.len(),
{
    if groups.len() > 0 {
        lemma_with_paths_num(a, start, end, groups.drop_last());
    }
}

/// The cost of the first groups is no more than the cost of all.
pub proof fn lemma_groups_cost_take(groups: Seq<Seq<(CharRange, usize)>>, g: int)
    requires
        0 <= g <= groups.len(),
    ensures
        groups_cost(groups.take(g)) <= groups_cost(groups),
        g < groups.len() ==> groups_cost(groups.take(g + 1)) == groups_cost(groups.take(g))
            + path_cost(ranges_of(groups[g])),
        groups_cost(groups.take(0)) == 0,
    decreases groups.len() - g,
{
    if g < groups.len() {
        assert(groups.take(g + 1).drop_last() =~= groups.take(g));
        lemma_groups_cost_take(groups, g + 1);
    } else {
        assert(groups.take(g) =~= groups);
    }
    assert(groups.take(0) =~= Seq::empty());
}

/// The lowering of more states brings no fewer states.
pub proof fn lemma_lower_cost_mono(a: NfaView, i: int, n: int)
    requires
        i <= n,
    ensures
        a.lower_cost(i) <= a.lower_cost(n),
    decreases n - i,
{
    if i < n {
        lemma_lower_cost_mono(a, i, n - 1);
    }
}

/// A state without consuming transitions costs nothing.
pub proof fn lemma_state_cost_zero(consuming: Seq<(CharRange, usize)>, sorted_list: Seq<(CharRange, usize)>)
    requires
        is_sorted_by_target(sorted_list, consuming),
    ensures
        state_cost(consuming) == groups_cost(runs(sorted_list, target_key())),
        consuming.len() == 0 ==> state_cost(consuming) == 0,
        consuming.len() > 0 ==> runs(sorted_list, target_key()).len() > 0,
{
    lemma_sorted_by_target(sorted_list, consuming);
    lemma_runs(sorted_list, target_key());
}

/// Whether the states of `b` from `from` on never accept over bytes.
pub open spec fn dfa_never_from(b: NfaView, from: int) -> bool {
    forall|s: int|
        from <= s < b.states.len() ==> (#[trigger] b.states[s]).dfa_accept == DfaAccept::never_spec()
}

/// Whether `b` is `a` lowered so far: the states of `a` have their acceptance over code
/// points, their ε-transitions and their predicate transitions, the further states accept
/// nothing over code points and have neither, and the initial states are those of `a`.
pub open spec fn lowered_frame(a: NfaView, b: NfaView) -> bool {
    &&& a.states.len() <= b.states.len()
    &&& forall|s: int|
        0 <= s < a.states.len() ==> (#[trigger] b.states[s]).accept == a.states[s].accept
            && b.states[s].transitions.eps == a.states[s].transitions.eps
            && b.states[s].transitions.predicates == a.states[s].transitions.predicates
    &&& forall|s: int|
        a.states.len() <= s < b.states.len() ==> (#[trigger] b.states[s]).accept
            == AcceptView::never() && b.states[s].transitions.eps.len() == 0
            && b.states[s].transitions.predicates.len() == 0
    &&& b.init == a.init
    &&& b.init_at_start == a.init_at_start
    &&& b.init_after_char == a.init_after_char
}

/// The ranges of a list of transitions.
pub open spec fn ranges_of(group: Seq<(CharRange, usize)>) -> Seq<CharRange> {
    Seq::new(group.len(), |i: int| group[i].0)
}

impl Nfa {
    /// Adds paths from `start_state` to `target` for the encodings of the scalar values of
    /// `ranges`, unless the states between the two ends of the paths would bring the
    /// automaton above `max_states`. Without a `target` each path ends in a new state,
    /// which accepts whatever follows.
    pub fn add_utf8_sequences(
        &mut self,
        start_state: usize,
        ranges: &Vec<CharRange>,
        target: Option<usize>,
        max_states: usize,
    ) -> (r: Result<(), Error>)
        requires
            old(self).wf(),
            start_state < old(self)@.num(),
            target is Some ==> target.unwrap() < old(self)@.num(),
        ensures
            final(self).wf(),
            match r {
                Ok(()) => old(self)@.num() + heads_total(merged_of(ranges@)) <= max_states
                    && final(self)@ == old(self)@.with_paths(
                    start_state as int,
                    target,
                    merged_of(ranges@),
                ) && paths_added(old(self)@, final(self)@, start_state as int) && (target is Some
                    ==> dfa_never_from(final(self)@, old(self)@.num())) && final(self)@.num() == old(
                    self,
                )@.num() + heads_total(merged_of(ranges@)) + if target is None {
                    merged_of(ranges@).len() as int
                } else {
                    0int
                },
                Err(e) => e == Error::TooManyStates && final(self)@ == old(self)@ && old(self)@.num()
                    + heads_total(merged_of(ranges@)) > max_states,
            },
    {
        let ghost a = self@;
        let n = self.states.len();
        let mut seqs: Vec<Vec<(u8, u8)>> = Vec::new();
        let mut i: usize = 0;
        assert(seqs_view(seqs@) =~= seqs_of(ranges@.take(0)));
        while i < ranges.len()
            invariant
                i <= ranges.len(),
                seqs_view(seqs@) == seqs_of(ranges@.take(i as int)),
                forall|k: int| 0 <= k < seqs@.len() ==> 1 <= (#[trigger] seqs@[k])@.len() <= 4,
                crate::utf8::least_first(seqs_view(seqs@)),
            decreases ranges.len() - i,
        {
            let ghost before = seqs@;
            proof {
                assert(ranges@.take(i as int + 1).drop_last() =~= ranges@.take(i as int));
            }
            match ranges[i].to_char_pair() {
                Some((lo, hi)) => {
                    let mut more = crate::utf8::utf8_sequences(lo, hi);
                    let ghost mv = more@;
                    let mut k: usize = 0;
                    while k < more.len()
                        invariant
                            k <= more.len(),
                            more@.len() == mv.len(),
                            forall|q: int| k <= q < mv.len() ==> more@[q] == mv[q],
                            forall|q: int| 0 <= q < mv.len() ==> 1 <= (#[trigger] mv[q])@.len() <= 4,
                            seqs@.len() == before.len() + k,
                            forall|q: int| 0 <= q < before.len() ==> seqs@[q] == before[q],
                            forall|q: int| 0 <= q < k ==> (#[trigger] seqs@[before.len() + q])@ == mv[q]@,
                        decreases more.len() - k,
                    {
                        let mut one: Vec<(u8, u8)> = Vec::new();
                        std::mem::swap(&mut one, &mut more[k]);
                        seqs.push(one);
                        k += 1;
                    }
                    proof {
                        let joined = seqs_view(before) + seqs_view(mv);
                        assert(seqs_view(seqs@).len() == joined.len());
                        assert forall|q: int| 0 <= q < seqs@.len() implies seqs_view(seqs@)[q]
                            == joined[q] by {
                            if q < before.len() {
                                assert(seqs@[q] == before[q]);
                            } else {
                                assert(seqs@[before.len() + (q - before.len())]@ == mv[q
                                    - before.len()]@);
                            }
                        }
                        assert(seqs_view(seqs@) =~= seqs_view(before) + seqs_view(mv));
                        assert(crate::utf8::least_first(seqs_view(seqs@))) by {
                            let now = seqs_view(seqs@);
                            assert forall|q: int, j: int|
                                0 <= q < now.len() && 0 <= j < now[q].len() implies (
                            #[trigger] now[q][j]).0 <= now[q][j].1 by {
                                if q < before.len() {
                                    assert(now[q] == seqs_view(before)[q]);
                                } else {
                                    assert(now[q] == seqs_view(mv)[q - before.len()]);
                                }
                            }
                        }
                        assert forall|q: int| 0 <= q < seqs@.len() implies 1 <= (
                        #[trigger] seqs@[q])@.len() <= 4 by {
                            if q < before.len() {
                                assert(seqs@[q] == before[q]);
                            } else {
                                assert(seqs@[before.len() + (q - before.len())]@ == mv[q
                                    - before.len()]@);
                            }
                        }
                    }
                },
                None => {
                    proof {
                        assert(seqs_view(seqs@) =~= seqs_view(before) + Seq::empty());
                    }
                },
            }
            i += 1;
        }
        proof {
            assert(ranges@.take(i as int) =~= ranges@);
        }
        let ghost groups = merged_of(ranges@);
        proof {
            let sv = seqs_view(seqs@);
            lemma_runs(sv, head_key());
            assert forall|q: int| 0 <= q < groups.len() implies ranges_ordered(
                head_of_group(#[trigger] groups[q]),
            ) && ranges_ordered(lasts_of(groups[q])) by {
                let group = groups[q];
                assert forall|i: int| 0 <= i < group.len() implies ranges_ordered(
                    #[trigger] group[i],
                ) by {
                    assert(sv.contains(groups[q][i]));
                    let at = choose|at: int| 0 <= at < sv.len() && sv[at] == group[i];
                    assert forall|k: int| 0 <= k < group[i].len() implies (#[trigger] group[i][k]).0
                        <= group[i][k].1 by {
                        assert(sv[at][k].0 <= sv[at][k].1);
                    }
                }
                assert(ranges_ordered(group[0]));
                assert forall|k: int| 0 <= k < head_of_group(group).len() implies (
                #[trigger] head_of_group(group)[k]).0 <= head_of_group(group)[k].1 by {
                    assert(group[0][k].0 <= group[0][k].1);
                }
                assert forall|k: int| 0 <= k < lasts_of(group).len() implies (
                #[trigger] lasts_of(group)[k]).0 <= lasts_of(group)[k].1 by {
                    assert(ranges_ordered(group[k]));
                    assert(sv.contains(groups[q][k]));
                    assert(group[k].len() >= 1);
                    assert(group[k][group[k].len() - 1].0 <= group[k][group[k].len() - 1].1);
                }
            }
        }
        let merged = MergedUtf8Sequences::merge_all(seqs);
        let mut len: usize = 0;
        let mut g: usize = 0;
        let mut overflow = false;
        while g < merged.len() && !overflow
            invariant
                g <= merged.len(),
                merged@.len() == groups.len(),
                forall|q: int|
                    0 <= q < merged@.len() ==> (#[trigger] merged@[q]).head@ == head_of_group(
                        groups[q],
                    ) && merged@[q].head@.len() <= 3,
                !overflow ==> len == heads_total(groups.take(g as int)),
                overflow ==> heads_total(groups) > usize::MAX,
            decreases merged.len() - g + if overflow { 0int } else { 1int },
        {
            proof {
                lemma_heads_total_take(groups, g as int);
                lemma_heads_total_take(groups, g as int + 1);
            }
            if len > usize::MAX - merged[g].head.len() {
                overflow = true;
            } else {
                len = len + merged[g].head.len();
                g += 1;
            }
        }
        proof {
            if !overflow {
                assert(groups.take(g as int) =~= groups);
            }
        }
        if overflow || n > max_states || len > max_states - n {
            return Err(Error::TooManyStates);
        }
        let mut g: usize = 0;
        proof {
            assert(groups.take(0) =~= Seq::empty());
            lemma_paths_added_refl(a, start_state as int);
        }
        while g < merged.len()
            invariant
                g <= merged.len(),
                merged@.len() == groups.len(),
                forall|q: int|
                    0 <= q < merged@.len() ==> (#[trigger] merged@[q]).head@ == head_of_group(
                        groups[q],
                    ) && merged@[q].last_byte@ == lasts_of(groups[q]) && merged@[q].head@.len() <= 3,
                n == a.num(),
                start_state < n,
                target is Some ==> target.unwrap() < n,
                self.wf(),
                self@ == a.with_paths(start_state as int, target, groups.take(g as int)),
                forall|q: int|
                    0 <= q < groups.len() ==> ranges_ordered(head_of_group(#[trigger] groups[q]))
                        && ranges_ordered(lasts_of(groups[q])),
                paths_added(a, self@, start_state as int),
                target is Some ==> dfa_never_from(self@, n as int),
            decreases merged.len() - g,
        {
            let ghost before = self@;
            proof {
                let t0 = groups.take(g as int);
                let t1 = groups.take(g as int + 1);
                assert(t1.drop_last() =~= t0);
                assert(t1.last() == groups[g as int]);
                lemma_with_path_added(
                    before,
                    start_state as int,
                    target,
                    merged@[g as int].head@,
                    merged@[g as int].last_byte@,
                );
            }
            self.add_utf8_sequence(start_state, target, &merged[g]);
            proof {
                lemma_paths_added_trans(a, before, self@, start_state as int);
                if target is Some {
                    let b = self@;
                    assert forall|s: int| n <= s < b.states.len() implies (
                    #[trigger] b.states[s]).dfa_accept == DfaAccept::never_spec() by {
                        if s < before.states.len() {
                            assert(before.states[s].dfa_accept == DfaAccept::never_spec());
                        }
                    }
                }
            }
            g += 1;
        }
        proof {
            assert(groups.take(g as int) =~= groups);
            lemma_with_paths_num(a, start_state as int, target, groups);
        }
        Ok(())
    }
}

/// No path is paths added.
pub proof fn lemma_paths_added_refl(a: NfaView, start: int)
    requires
        0 <= start < a.num(),
    ensures
        paths_added(a, a, start),
{
}

/// A copy of `v`.
fn copy_ranges(v: &Vec<CharRange>) -> (r: Vec<CharRange>)
    ensures
        r@ == v@,
{
    let mut out: Vec<CharRange> = Vec::new();
    let mut i: usize = 0;
    while i < v.len()
        invariant
            i <= v.len(),
            out@ == v@.take(i as int),
        decreases v.len() - i,
    {
        out.push(v[i]);
        assert(v@.take(i as int + 1) =~= v@.take(i as int).push(v@[i as int]));
        i += 1;
    }
    assert(v@.take(i as int) =~= v@);
    out
}

/// What a sorted list holds, the list holds that it was sorted from.
pub proof fn lemma_sorted_contains(
    r: Seq<(CharRange, usize)>,
    s: Seq<(CharRange, usize)>,
    e: (CharRange, usize),
)
    requires
        is_sorted_by_target(r, s),
        r.contains(e),
    ensures
        s.contains(e),
{
    let f = to_target(e.1);
    let i = choose|i: int| 0 <= i < r.len() && r[i] == e;
    r.lemma_filter_contains(f, i);
    assert(r.filter(f) == s.filter(f));
    s.lemma_filter_contains_rev(f, e);
}

/// Whether the consuming transitions of the state `s` in `b` are those that it has in
/// `a`, and then transitions over bytes.
pub open spec fn consuming_extended(a: NfaView, b: NfaView, s: int) -> bool {
    let ca = a.states[s].transitions.consuming;
    let cb = b.states[s].transitions.consuming;
    &&& ca.len() <= cb.len()
    &&& forall|k: int|
        0 <= k < cb.len() ==> if k < ca.len() {
            #[trigger] cb[k] == ca[k]
        } else {
            cb[k].0.is_byte()
        }
}

/// When the state `s` of `a` accepts once the acceptance before a character has become
/// paths: at the end of the input as before the lowering, and before any byte if it
/// accepted before any character.
pub open spec fn lowered_accept(a: NfaView, s: int) -> DfaAccept {
    DfaAccept {
        at_eoi: a.states[s].accept.at_eoi,
        otherwise: a.states[s].dfa_accept.otherwise || a.states[s].accept == (AcceptView {
            at_eoi: a.states[s].accept.at_eoi,
            at_char: seq![CharRange { start: 0, end: u32::MAX }],
        }),
        bytes_behind: a.states[s].dfa_accept.bytes_behind,
    }
}

impl NfaView {
    /// The automaton without the consuming transitions of the state `s`.
    pub open spec fn without_consuming(self, s: int) -> NfaView {
        self.with_state(
            s,
            self.states[s].with_transitions(
                TransitionsView {
                    consuming: Seq::empty(),
                    eps: self.states[s].transitions.eps,
                    predicates: self.states[s].transitions.predicates,
                },
            ),
        )
    }

    /// The automaton with paths out of the state `start` for each group of `groups`, in
    /// their order: the paths of a group encode the ranges of its transitions, and lead to
    /// the state to which these lead.
    pub open spec fn with_groups(self, start: int, groups: Seq<Seq<(CharRange, usize)>>) -> NfaView
        decreases groups.len(),
    {
        if groups.len() == 0 {
            self
        } else {
            self.with_groups(start, groups.drop_last()).with_paths(
                start,
                Some(groups.last()[0].1),
                merged_of(ranges_of(groups.last())),
            )
        }
    }

    /// The automaton with the state `s` lowered: its consuming transitions are gone, and
    /// in their place it has paths over bytes, for its transitions to one state after
    /// the other in the order of these states.
    pub open spec fn lowered_state(self, s: int) -> NfaView {
        self.without_consuming(s).with_groups(
            s,
            runs(crate::utf8::sorted_by_target(self.states[s].transitions.consuming), target_key()),
        )
    }

    /// The automaton with the states below `k` lowered, one after the other.
    pub open spec fn lowered_upto(self, k: int) -> NfaView
        decreases k,
    {
        if k <= 0 {
            self
        } else {
            self.lowered_upto(k - 1).lowered_state(k - 1)
        }
    }
}

impl Nfa {
    /// Turns every consuming transition into paths of transitions over bytes: for each
    /// state, and each state that it has transitions to, the ranges of those transitions
    /// are encoded together. Fails when the paths would bring the automaton above
    /// `max_states`; the automaton is then left partly lowered.
    ///
    /// Predicates stay as they are: remove them first.
    pub fn byte_me(&mut self, max_states: usize) -> (r: Result<(), Error>)
        requires
            old(self).wf(),
        ensures
            final(self).wf(),
            r is Err ==> r == Err::<(), Error>(Error::TooManyStates),
            r is Err <==> old(self)@.has_consuming_below(old(self)@.num()) && old(self)@.num() + old(
                self,
            )@.lower_cost(old(self)@.num()) > max_states,
            r is Ok ==> final(self)@ == old(self)@.lowered_upto(old(self)@.num()),
            r is Ok ==> final(self)@.num() == old(self)@.num() + old(self)@.lower_cost(
                old(self)@.num(),
            ),
            r is Ok ==> final(self)@.bytes_from(0) && lowered_frame(old(self)@, final(self)@)
                && forall|s: int|
                0 <= s < final(self)@.states.len() ==> (#[trigger] final(self)@.states[s]).dfa_accept
                    == if s < old(self)@.states.len() {
                    old(self)@.states[s].dfa_accept
                } else {
                    DfaAccept::never_spec()
                },
    {
        let ghost a = self@;
        let n0 = self.states.len();
        let mut i: usize = 0;
        while i < n0
            invariant
                i <= n0,
                n0 == a.num(),
                a.wf(),
                self.wf(),
                lowered_frame(a, self@),
                forall|s: int|
                    0 <= s < self@.states.len() ==> (#[trigger] self@.states[s]).dfa_accept == if s
                        < n0 {
                        a.states[s].dfa_accept
                    } else {
                        DfaAccept::never_spec()
                    },
                forall|s: int, k: int|
                    0 <= s < i && 0 <= k < self@.states[s].transitions.consuming.len() ==> (
                    #[trigger] self@.states[s].transitions.consuming[k]).0.is_byte(),
                forall|s: int|
                    i <= s < n0 ==> (#[trigger] self@.states[s]).transitions.consuming
                        == a.states[s].transitions.consuming,
                self@.bytes_from(n0 as int),
                self@.num() == n0 + a.lower_cost(i as int),
                a.has_consuming_below(i as int) ==> n0 + a.lower_cost(i as int) <= max_states,
                a == old(self)@,
                self@ == a.lowered_upto(i as int),
            decreases n0 - i,
        {
            let ghost before = self@;
            let mut trans = CharMultiMap::new();
            std::mem::swap(&mut trans, &mut self.states[i].transitions.consuming);
            let ghost cleared = self@;
            proof {
                let t = TransitionsView {
                    consuming: Seq::empty(),
                    eps: before.states[i as int].transitions.eps,
                    predicates: before.states[i as int].transitions.predicates,
                };
                assert(cleared.states =~= before.states.update(
                    i as int,
                    before.states[i as int].with_transitions(t),
                ));
                assert(before.states[i as int].transitions.wf(before.num()));
                crate::nfa::lemma_wf_with_transitions(before, i as int, t);
                assert(cleared == before.with_state(
                    i as int,
                    before.states[i as int].with_transitions(t),
                ));
                assert(a.states[i as int].transitions.wf(a.num()));
                assert(cleared == before.without_consuming(i as int));
            }
            let mut list = trans.into_vec();
            let ghost list0 = list@;
            crate::utf8::sort_by_target(&mut list);
            let ghost sorted_list = list@;
            let groups = crate::utf8::group_by_target(list);
            let ghost rs = runs(sorted_list, target_key());
            proof {
                lemma_runs(sorted_list, target_key());
                lemma_state_cost_zero(list0, sorted_list);
                lemma_groups_cost_take(rs, 0);
                crate::utf8::lemma_sorted_by_target(sorted_list, list0);
                assert(list0 == before.states[i as int].transitions.consuming);
                assert(rs.take(0) =~= Seq::empty());
                assert(cleared.with_groups(i as int, rs.take(0)) == cleared);
            }
            let mut g: usize = 0;
            while g < groups.len()
                invariant
                    g <= groups.len(),
                    i < n0,
                    n0 == a.num(),
                    a.wf(),
                    self.wf(),
                    runs_view(groups@) == rs,
                    forall|q: int| 0 <= q < rs.len() ==> (#[trigger] rs[q]).len() > 0,
                    forall|q: int, j: int|
                        0 <= q < rs.len() && 0 <= j < rs[q].len() ==> sorted_list.contains(
                            #[trigger] rs[q][j],
                        ),
                    is_sorted_by_target(sorted_list, list0),
                    list0 == a.states[i as int].transitions.consuming,
                    rs == runs(sorted_list, target_key()),
                    state_cost(list0) == groups_cost(rs),
                    self@.num() == n0 + a.lower_cost(i as int) + groups_cost(rs.take(g as int)),
                    g > 0 ==> self@.num() <= max_states,
                    a == old(self)@,
                    lowered_frame(a, self@),
                    forall|s: int|
                        0 <= s < self@.states.len() ==> (#[trigger] self@.states[s]).dfa_accept
                            == if s < n0 {
                            a.states[s].dfa_accept
                        } else {
                            DfaAccept::never_spec()
                        },
                    forall|s: int, k: int|
                        0 <= s < i + 1 && 0 <= k < self@.states[s].transitions.consuming.len() ==> (
                        #[trigger] self@.states[s].transitions.consuming[k]).0.is_byte(),
                    forall|s: int|
                        i < s < n0 ==> (#[trigger] self@.states[s]).transitions.consuming
                            == a.states[s].transitions.consuming,
                    self@.bytes_from(n0 as int),
                    self@ == cleared.with_groups(i as int, rs.take(g as int)),
                decreases groups.len() - g,
            {
                let group = &groups[g];
                proof {
                    assert(group@ == rs[g as int]);
                    assert(sorted_list.contains(rs[g as int][0]));
                    lemma_sorted_contains(sorted_list, list0, group@[0]);
                    let k = choose|k: int| 0 <= k < list0.len() && list0[k] == group@[0];
                    assert(a.states[i as int].transitions.consuming[k].1 < a.num());
                }
                let tgt = group[0].1;
                let mut ranges: Vec<CharRange> = Vec::new();
                let mut j: usize = 0;
                while j < group.len()
                    invariant
                        j <= group.len(),
                        ranges@ == ranges_of(group@).take(j as int),
                    decreases group.len() - j,
                {
                    ranges.push(group[j].0);
                    proof {
                        assert(ranges_of(group@).take(j as int + 1) =~= ranges_of(group@).take(
                            j as int,
                        ).push(group@[j as int].0));
                    }
                    j += 1;
                }
                let ghost s0 = self@;
                proof {
                    assert(ranges_of(group@).take(group@.len() as int) =~= ranges_of(group@));
                    assert(ranges@ == ranges_of(rs[g as int]));
                    lemma_groups_cost_take(rs, g as int);
                    lemma_groups_cost_take(rs, g as int + 1);
                    lemma_lower_cost_mono(a, i as int + 1, n0 as int);
                    assert(a.lower_cost(i as int + 1) == a.lower_cost(i as int) + state_cost(list0));
                    assert(path_cost(ranges@) == heads_total(merged_of(ranges@)));
                }
                match self.add_utf8_sequences(i, &ranges, Some(tgt), max_states) {
                    Ok(()) => {},
                    Err(e) => {
                        proof {
                            assert(list0.len() > 0) by {
                                assert(sorted_list.contains(rs[g as int][0]));
                            }
                            assert(a.states[i as int].transitions.consuming.len() > 0);
                            assert(a.has_consuming_below(n0 as int));
                        }
                        return Err(e);
                    },
                }
                proof {
                    let upto = rs.take(g as int + 1);
                    assert(upto.drop_last() =~= rs.take(g as int));
                    assert(upto.last() == rs[g as int]);
                    assert(self@ == cleared.with_groups(i as int, upto));
                    lemma_added_frame(a, s0, self@, i as int);
                    let b = self@;
                    assert forall|s: int| 0 <= s < b.states.len() implies (
                    #[trigger] b.states[s]).dfa_accept == if s < n0 {
                        a.states[s].dfa_accept
                    } else {
                        DfaAccept::never_spec()
                    } by {
                        if s < s0.states.len() {
                            assert(b.states[s].dfa_accept == s0.states[s].dfa_accept);
                        }
                    }
                    assert forall|s: int, k: int|
                        0 <= s < i + 1 && 0 <= k < b.states[s].transitions.consuming.len() implies (
                    #[trigger] b.states[s].transitions.consuming[k]).0.is_byte() by {
                        assert(consuming_extended(s0, b, s));
                        if k < s0.states[s].transitions.consuming.len() {
                            assert(s0.states[s].transitions.consuming[k].0.is_byte());
                        }
                    }
                    assert forall|s: int| i < s < n0 implies (#[trigger] b.states[s]).transitions.consuming
                        == a.states[s].transitions.consuming by {
                        assert(b.states[s] == s0.states[s]);
                    }
                }
                g += 1;
            }
            proof {
                assert(rs.take(g as int) =~= rs);
                assert(self@ == before.lowered_state(i as int));
                let k1 = i as int + 1;
                assert(a.lowered_upto(k1 - 1) == before);
                assert(self@ == a.lowered_upto(k1));
                assert(a.has_consuming_below(i as int + 1) ==> n0 + a.lower_cost(i as int + 1)
                    <= max_states) by {
                    if a.has_consuming_below(i as int + 1) {
                        let s = choose|s: int|
                            0 <= s < i + 1 && (#[trigger] a.states[s]).transitions.consuming.len() > 0;
                        if list0.len() == 0 {
                            assert(s < i);
                            assert(a.has_consuming_below(i as int));
                        }
                    }
                }
            }
            i += 1;
        }
        proof {
            if a.has_consuming_below(n0 as int) {
                assert(n0 + a.lower_cost(n0 as int) <= max_states);
            }
        }
        Ok(())
    }
}

/// Paths out of a state of the automaton that is lowered keep what the lowering has
/// reached.
pub proof fn lemma_added_frame(a: NfaView, s0: NfaView, s1: NfaView, i: int)
    requires
        0 <= i < a.num(),
        lowered_frame(a, s0),
        paths_added(s0, s1, i),
        s0.bytes_from(a.num()),
    ensures
        lowered_frame(a, s1),
        s1.bytes_from(a.num()),
        forall|s: int|
            0 <= s < s1.states.len() ==> #[trigger] s1.states[s].dfa_accept == if s
                < s0.states.len() {
                s0.states[s].dfa_accept
            } else {
                s1.states[s].dfa_accept
            },
        forall|s: int| 0 <= s < s0.states.len() ==> consuming_extended(s0, s1, s),
{
    assert forall|s: int| 0 <= s < a.states.len() implies (#[trigger] s1.states[s]).accept
        == a.states[s].accept && s1.states[s].transitions.eps == a.states[s].transitions.eps
        && s1.states[s].transitions.predicates == a.states[s].transitions.predicates by {
        assert(s0.states[s].accept == a.states[s].accept);
        if s != i {
            assert(s1.states[s] == s0.states[s]);
        }
    }
    assert forall|s: int| a.states.len() <= s < s1.states.len() implies (
    #[trigger] s1.states[s]).accept == AcceptView::never() && s1.states[s].transitions.eps.len() == 0
        && s1.states[s].transitions.predicates.len() == 0 by {
        if s < s0.states.len() {
            assert(s1.states[s] == s0.states[s]);
            assert(s0.states[s].accept == AcceptView::never());
        }
    }
    assert forall|s: int, k: int|
        a.num() <= s < s1.states.len() && 0 <= k < s1.states[s].transitions.consuming.len() implies (
    #[trigger] s1.states[s].transitions.consuming[k]).0.is_byte() by {
        if s < s0.states.len() {
            assert(s1.states[s] == s0.states[s]);
            assert(s0.states[s].transitions.consuming[k].0.is_byte());
        } else {
            assert(s1.bytes_from(s0.num()));
        }
    }
    assert forall|s: int| 0 <= s < s1.states.len() implies #[trigger] s1.states[s].dfa_accept == if s
        < s0.states.len() {
        s0.states[s].dfa_accept
    } else {
        s1.states[s].dfa_accept
    } by {
        if s < s0.states.len() && s != i {
            assert(s1.states[s] == s0.states[s]);
        }
    }
    assert forall|s: int| 0 <= s < s0.states.len() implies consuming_extended(s0, s1, s) by {
        if s != i {
            assert(s1.states[s] == s0.states[s]);
        }
    }
}

impl NfaView {
    /// The automaton with the acceptance of the state `s` lowered: the state accepts over
    /// bytes as `lowered_accept` says, and where it accepts before some characters only it
    /// has paths along their encodings, each to a state of its own.
    pub open spec fn accept_lowered_state(self, s: int) -> NfaView {
        let m = self.with_state(s, self.states[s].with_dfa_accept(lowered_accept(self, s)));
        if self.accepts_partly(s) {
            m.with_paths(s, None, merged_of(self.states[s].accept.at_char))
        } else {
            m
        }
    }

    /// The automaton with the acceptance of the states below `k` lowered, one after the
    /// other.
    pub open spec fn accept_lowered_upto(self, k: int) -> NfaView
        decreases k,
    {
        if k <= 0 {
            self
        } else {
            self.accept_lowered_upto(k - 1).accept_lowered_state(k - 1)
        }
    }
}

impl Nfa {
    /// Turns the acceptance over code points into acceptance over bytes. A state accepts at
    /// the end of the input as before. One that accepts before any character accepts before
    /// any byte. One that accepts before some characters only gets paths along their
    /// encodings, each to a new state that accepts and reports the match as ending where
    /// the path began. Fails when the paths would bring the automaton above `max_states`;
    /// the automaton is then left partly lowered.
    pub fn byte_accept(&mut self, max_states: usize) -> (r: Result<(), Error>)
        requires
            old(self).wf(),
        ensures
            final(self).wf(),
            r is Err ==> r == Err::<(), Error>(Error::TooManyStates),
            r is Err <==> exists|s: int|
                0 <= s < old(self)@.num() && #[trigger] old(self)@.accepts_partly(s) && old(
                    self,
                )@.num() + old(self)@.accept_growth(s) + path_cost(
                    old(self)@.states[s].accept.at_char,
                ) > max_states,
            r is Ok ==> final(self)@ == old(self)@.accept_lowered_upto(old(self)@.num()),
            r is Ok ==> final(self)@.num() == old(self)@.num() + old(self)@.accept_growth(
                old(self)@.num(),
            ),
            r is Ok ==> lowered_frame(old(self)@, final(self)@) && final(self)@.bytes_from(
                old(self)@.num(),
            ) && forall|s: int|
                0 <= s < old(self)@.states.len() ==> (#[trigger] final(self)@.states[s]).dfa_accept
                    == lowered_accept(old(self)@, s) && consuming_extended(
                    old(self)@,
                    final(self)@,
                    s,
                ),
    {
        let ghost a = self@;
        let n0 = self.states.len();
        let mut i: usize = 0;
        while i < n0
            invariant
                i <= n0,
                n0 == a.num(),
                a.wf(),
                self.wf(),
                lowered_frame(a, self@),
                forall|s: int|
                    0 <= s < i ==> (#[trigger] self@.states[s]).dfa_accept == lowered_accept(a, s),
                forall|s: int|
                    i <= s < n0 ==> (#[trigger] self@.states[s]).dfa_accept == a.states[s].dfa_accept,
                forall|s: int| 0 <= s < n0 ==> consuming_extended(a, self@, s),
                self@.bytes_from(n0 as int),
                a == old(self)@,
                self@.num() == n0 + a.accept_growth(i as int),
                forall|s: int|
                    0 <= s < i && #[trigger] a.accepts_partly(s) ==> n0 + a.accept_growth(s)
                        + path_cost(a.states[s].accept.at_char) <= max_states,
                self@ == a.accept_lowered_upto(i as int),
            decreases n0 - i,
        {
            let ghost before = self@;
            proof {
                assert(before.states[i as int] == self.states@[i as int]@);
                assert(before.states[i as int].accept.wf());
                assert(before.states[i as int].accept == a.states[i as int].accept);
                assert(before.states[i as int].dfa_accept == a.states[i as int].dfa_accept);
                assert(lowered_accept(before, i as int) == lowered_accept(a, i as int));
                assert(before.accepts_partly(i as int) == a.accepts_partly(i as int));
            }
            let at_eoi = self.states[i].accept.at_eoi;
            let full = self.states[i].accept.at_char.is_full();
            let empty = self.states[i].accept.at_char.is_empty();
            let old_accept = self.states[i].dfa_accept;
            let new_accept = DfaAccept {
                at_eoi,
                otherwise: old_accept.otherwise || full,
                bytes_behind: old_accept.bytes_behind,
            };
            self.set_byte_accept(i, new_accept);
            let ghost mid = self@;
            proof {
                assert(new_accept == lowered_accept(a, i as int)) by {
                    let acc = a.states[i as int].accept;
                    assert(full == (acc.at_char == seq![CharRange { start: 0, end: u32::MAX }]));
                    assert(acc == AcceptView { at_eoi: acc.at_eoi, at_char: acc.at_char });
                }
                assert(lowered_frame(a, mid)) by {
                    assert forall|s: int| 0 <= s < a.states.len() implies (
                    #[trigger] mid.states[s]).accept == a.states[s].accept
                        && mid.states[s].transitions.eps == a.states[s].transitions.eps
                        && mid.states[s].transitions.predicates
                        == a.states[s].transitions.predicates by {
                        assert(before.states[s].accept == a.states[s].accept);
                    }
                    assert forall|s: int| a.states.len() <= s < mid.states.len() implies (
                    #[trigger] mid.states[s]).accept == AcceptView::never()
                        && mid.states[s].transitions.eps.len() == 0
                        && mid.states[s].transitions.predicates.len() == 0 by {
                        assert(before.states[s].accept == AcceptView::never());
                    }
                }
                assert forall|s: int| 0 <= s < n0 implies consuming_extended(a, mid, s) by {
                    assert(consuming_extended(a, before, s));
                    assert(mid.states[s].transitions == before.states[s].transitions);
                }
                assert forall|s: int, k: int|
                    n0 <= s < mid.states.len() && 0 <= k < mid.states[s].transitions.consuming.len() implies (
                #[trigger] mid.states[s].transitions.consuming[k]).0.is_byte() by {
                    assert(mid.states[s] == before.states[s]);
                    assert(before.states[s].transitions.consuming[k].0.is_byte());
                }
            }
            proof {
                let acc = a.states[i as int].accept;
                assert(full == (acc.at_char == seq![CharRange { start: 0, end: u32::MAX }]));
                assert(empty == (acc.at_char.len() == 0));
                assert(a.accepts_partly(i as int) == (!full && !empty));
            }
            if !full && !empty {
                let ranges = copy_ranges(self.states[i].accept.at_char.ranges());
                proof {
                    assert(mid.states[i as int] == self.states@[i as int]@);
                    assert(ranges@ == a.states[i as int].accept.at_char);
                }
                match self.add_utf8_sequences(i, &ranges, None, max_states) {
                    Ok(()) => {},
                    Err(e) => {
                        proof {
                            assert(a.accepts_partly(i as int) && n0 + a.accept_growth(i as int)
                                + path_cost(a.states[i as int].accept.at_char) > max_states);
                        }
                        return Err(e);
                    },
                }
                proof {
                    let b = self@;
                    lemma_added_frame(a, mid, b, i as int);
                    assert forall|s: int| 0 <= s < n0 implies consuming_extended(a, b, s) by {
                        assert(consuming_extended(a, mid, s));
                        assert(consuming_extended(mid, b, s));
                        let ca = a.states[s].transitions.consuming;
                        let cm = mid.states[s].transitions.consuming;
                        let cb = b.states[s].transitions.consuming;
                        assert forall|k: int| 0 <= k < cb.len() implies if k < ca.len() {
                            #[trigger] cb[k] == ca[k]
                        } else {
                            cb[k].0.is_byte()
                        } by {
                            if k < cm.len() {
                                assert(cb[k] == cm[k]);
                                if k < ca.len() {
                                    assert(cm[k] == ca[k]);
                                } else {
                                    assert(cm[k].0.is_byte());
                                }
                            }
                        }
                    }
                    assert forall|s: int| 0 <= s < i + 1 implies (#[trigger] b.states[s]).dfa_accept
                        == lowered_accept(a, s) by {
                        assert(b.states[s].dfa_accept == mid.states[s].dfa_accept);
                        if s < i {
                            assert(before.states[s].dfa_accept == lowered_accept(a, s));
                        }
                    }
                    assert forall|s: int| i + 1 <= s < n0 implies (#[trigger] b.states[s]).dfa_accept
                        == a.states[s].dfa_accept by {
                        assert(b.states[s].dfa_accept == mid.states[s].dfa_accept);
                        assert(before.states[s].dfa_accept == a.states[s].dfa_accept);
                    }
                }
            } else {
                proof {
                    assert(self@ == mid);
                    assert forall|s: int| 0 <= s < i + 1 implies (#[trigger] mid.states[s]).dfa_accept
                        == lowered_accept(a, s) by {
                        if s < i {
                            assert(before.states[s].dfa_accept == lowered_accept(a, s));
                        }
                    }
                    assert forall|s: int| i + 1 <= s < n0 implies (
                    #[trigger] mid.states[s]).dfa_accept == a.states[s].dfa_accept by {
                        assert(before.states[s].dfa_accept == a.states[s].dfa_accept);
                    }
                }
            }
            proof {
                assert(self@ == before.accept_lowered_state(i as int));
                let k1 = i as int + 1;
                assert(a.accept_lowered_upto(k1 - 1) == before);
                assert(self@ == a.accept_lowered_upto(k1));
            }
            i += 1;
        }
        proof {
            if exists|s: int|
                0 <= s < n0 && #[trigger] a.accepts_partly(s) && n0 + a.accept_growth(s) + path_cost(
                    a.states[s].accept.at_char,
                ) > max_states {
                let s = choose|s: int|
                    0 <= s < n0 && #[trigger] a.accepts_partly(s) && n0 + a.accept_growth(s)
                        + path_cost(a.states[s].accept.at_char) > max_states;
                assert(false);
            }
        }
        Ok(())
    }

    /// Makes of the automaton one over bytes without predicates, for the search of the
    /// shortest match: cuts what follows an unconditional accept, removes the predicates,
    /// cuts again, and lowers the transitions and the acceptance to bytes. Fails when the
    /// lowering would bring the automaton above `max_states`.
    pub fn convert_to_byte_automaton(&mut self, max_states: usize) -> (r: Result<(), Error>)
        requires
            old(self).wf(),
        ensures
            final(self).wf(),
            r is Err ==> r == Err::<(), Error>(Error::TooManyStates),
            r is Ok ==> predicate_free(final(self)@) && final(self)@.bytes_from(0),
            exists|b: NfaView|
                #[trigger] prepared(old(self)@, b) && (r is Err <==> lowering_fails(
                    b,
                    max_states as int,
                )) && (r is Ok ==> lowered(b, final(self)@)),
    {
        let ghost a0 = self@;
        self.optimize_for_shortest_match();
        let ghost a1 = self@;
        self.remove_predicates();
        let ghost a = self@;
        self.optimize_for_shortest_match();
        let ghost b = self@;
        proof {
            lemma_cut_predicate_free(a);
            assert(a1 == a0.optimized());
            assert(is_removed(a0.optimized(), a) && b == a.optimized());
            assert(prepared(a0, b));
        }
        match self.byte_me(max_states) {
            Ok(()) => {},
            Err(e) => {
                proof {
                    assert(lowering_fails(b, max_states as int));
                }
                return Err(e);
            },
        }
        let ghost c = self@;
        proof {
            assert forall|s: int| 0 <= s < c.states.len() implies (
            #[trigger] c.states[s]).transitions.predicates.len() == 0 by {
                if s < b.states.len() {
                    assert(c.states[s].transitions.predicates == b.states[s].transitions.predicates);
                    assert(b.states[s].transitions.predicates.len() == 0);
                }
            }
            lemma_accept_fails_same(b, c, max_states as int);
        }
        match self.byte_accept(max_states) {
            Ok(()) => {},
            Err(e) => {
                proof {
                    assert(accept_fails(c, c.num(), max_states as int));
                    assert(lowering_fails(b, max_states as int));
                }
                return Err(e);
            },
        }
        proof {
            let d = self@;
            assert forall|s: int| 0 <= s < d.states.len() implies (
            #[trigger] d.states[s]).transitions.predicates.len() == 0 by {
                if s < c.states.len() {
                    assert(d.states[s].transitions.predicates == c.states[s].transitions.predicates);
                    assert(c.states[s].transitions.predicates.len() == 0);
                }
            }
            assert forall|s: int, k: int|
                0 <= s < d.states.len() && 0 <= k < d.states[s].transitions.consuming.len() implies (
            #[trigger] d.states[s].transitions.consuming[k]).0.is_byte() by {
                if s < c.states.len() {
                    assert(consuming_extended(c, d, s));
                    if k < c.states[s].transitions.consuming.len() {
                        assert(c.states[s].transitions.consuming[k].0.is_byte());
                    }
                } else {
                    assert(d.bytes_from(c.num()));
                }
            }
            assert(!accept_fails(c, c.num(), max_states as int));
            assert(!lowering_fails(b, max_states as int));
            assert(lowered_frame(b, d)) by {
                assert forall|s: int| 0 <= s < b.states.len() implies (#[trigger] d.states[s]).accept
                    == b.states[s].accept && d.states[s].transitions.eps
                    == b.states[s].transitions.eps && d.states[s].transitions.predicates
                    == b.states[s].transitions.predicates by {
                    assert(c.states[s].accept == b.states[s].accept);
                    assert(d.states[s].accept == c.states[s].accept);
                }
                assert forall|s: int| b.states.len() <= s < d.states.len() implies (
                #[trigger] d.states[s]).accept == AcceptView::never()
                    && d.states[s].transitions.eps.len() == 0
                    && d.states[s].transitions.predicates.len() == 0 by {
                    if s < c.states.len() {
                        assert(c.states[s].accept == AcceptView::never());
                        assert(d.states[s].accept == c.states[s].accept);
                    }
                }
            }
            assert forall|s: int| 0 <= s < b.states.len() implies (#[trigger] d.states[s]).dfa_accept
                == lowered_accept(b, s) by {
                assert(d.states[s].dfa_accept == lowered_accept(c, s));
                assert(c.states[s].accept == b.states[s].accept);
                assert(c.states[s].dfa_accept == b.states[s].dfa_accept);
            }
            lemma_accept_growth_same(b, c, b.num());
            lemma_accept_growth_rest(b, c, c.num());
            assert(lowered(b, d));
        }
        Ok(())
    }
}

/// Whether `b` is `a` made ready for the lowering to bytes: cut and trimmed for the search
/// of the shortest match, then without predicates, then cut and trimmed again.
pub open spec fn prepared(a: NfaView, b: NfaView) -> bool {
    exists|m: NfaView| #[trigger] is_removed(a.optimized(), m) && b == m.optimized()
}

/// An automaton is prepared in one way only.
pub proof fn lemma_prepared_unique(a: NfaView, b: NfaView, other: NfaView)
    requires
        prepared(a, b),
        prepared(a, other),
    ensures
        b == other,
{
    let m = choose|m: NfaView| #[trigger] is_removed(a.optimized(), m) && b == m.optimized();
    let n = choose|n: NfaView| #[trigger] is_removed(a.optimized(), n) && other == n.optimized();
    crate::predicates::lemma_removed_unique(a.optimized(), m, n);
}

/// Whether the lowering of the acceptance of `b` fails with at most `max` states, where
/// the automaton has `at` states when it begins: a state that accepts partly would get
/// paths that bring the automaton above `max`.
pub open spec fn accept_fails(b: NfaView, at: int, max: int) -> bool {
    exists|s: int|
        0 <= s < b.num() && #[trigger] b.accepts_partly(s) && at + b.accept_growth(s) + path_cost(
            b.states[s].accept.at_char,
        ) > max
}

/// Whether the lowering of `b` to bytes fails with at most `max` states: the lowering of
/// its transitions does, or, behind it, the lowering of its acceptance.
pub open spec fn lowering_fails(b: NfaView, max: int) -> bool {
    ||| b.has_consuming_below(b.num()) && b.num() + b.lower_cost(b.num()) > max
    ||| accept_fails(b, b.num() + b.lower_cost(b.num()), max)
}

/// Whether `d` is `b` lowered to bytes: the transitions of each state of `b` lowered, state
/// after state, and then the acceptance of each state that the automaton has by then. So
/// it has the states of `b` and those of the paths, every transition is over bytes, and a
/// state of `b` accepts over bytes as the lowering of its acceptance says.
pub open spec fn lowered(b: NfaView, d: NfaView) -> bool {
    &&& d == b.lowered_upto(b.num()).accept_lowered_upto(b.lowered_upto(b.num()).num())
    &&& d.num() == b.num() + b.lower_cost(b.num()) + b.accept_growth(b.num())
    &&& lowered_frame(b, d)
    &&& d.bytes_from(0)
    &&& forall|s: int|
        0 <= s < b.states.len() ==> (#[trigger] d.states[s]).dfa_accept == lowered_accept(b, s)
}

/// The lowering of the acceptance brings as many states to an automaton as to one with
/// the same acceptance.
pub proof fn lemma_accept_growth_same(b: NfaView, c: NfaView, k: int)
    requires
        k <= b.num() <= c.num(),
        forall|s: int| 0 <= s < b.num() ==> (#[trigger] c.states[s]).accept == b.states[s].accept,
    ensures
        c.accept_growth(k) == b.accept_growth(k),
    decreases k,
{
    if k > 0 {
        lemma_accept_growth_same(b, c, k - 1);
        assert(c.states[k - 1].accept == b.states[k - 1].accept);
    }
}

/// States that never accept bring nothing.
pub proof fn lemma_accept_growth_rest(b: NfaView, c: NfaView, k: int)
    requires
        b.num() <= k <= c.num(),
        forall|s: int| 0 <= s < b.num() ==> (#[trigger] c.states[s]).accept == b.states[s].accept,
        forall|s: int|
            b.num() <= s < c.num() ==> (#[trigger] c.states[s]).accept == AcceptView::never(),
    ensures
        c.accept_growth(k) == b.accept_growth(b.num()),
    decreases k,
{
    if k > b.num() {
        lemma_accept_growth_rest(b, c, k - 1);
        assert(c.states[k - 1].accept == AcceptView::never());
    } else {
        lemma_accept_growth_same(b, c, k);
    }
}

/// The lowering of the acceptance fails behind the lowering of the transitions where it
/// fails for the automaton before it, with the states that the transitions have brought.
pub proof fn lemma_accept_fails_same(b: NfaView, c: NfaView, max: int)
    requires
        lowered_frame(b, c),
    ensures
        accept_fails(c, c.num(), max) == accept_fails(b, c.num(), max),
{
    if accept_fails(c, c.num(), max) {
        let s = choose|s: int|
            0 <= s < c.num() && #[trigger] c.accepts_partly(s) && c.num() + c.accept_growth(s)
                + path_cost(c.states[s].accept.at_char) > max;
        if s >= b.num() {
            assert(c.states[s].accept == AcceptView::never());
        }
        assert(c.states[s].accept == b.states[s].accept);
        lemma_accept_growth_same(b, c, s);
        assert(b.accepts_partly(s));
    }
    if accept_fails(b, c.num(), max) {
        let s = choose|s: int|
            0 <= s < b.num() && #[trigger] b.accepts_partly(s) && c.num() + b.accept_growth(s)
                + path_cost(b.states[s].accept.at_char) > max;
        assert(c.states[s].accept == b.states[s].accept);
        lemma_accept_growth_same(b, c, s);
        assert(c.accepts_partly(s));
    }
}

/// Cutting and trimming bring no predicate transition.
pub proof fn lemma_cut_predicate_free(a: NfaView)
    requires
        predicate_free(a),
    ensures
        forall|keep: Seq<usize>|
            below(keep, a.num()) ==> predicate_free(#[trigger] a.shortest_cut().trimmed(keep)),
{
    assert forall|keep: Seq<usize>| below(keep, a.num()) implies predicate_free(
        #[trigger] a.shortest_cut().trimmed(keep),
    ) by {
        let c = a.shortest_cut();
        let b = c.trimmed(keep);
        assert forall|s: int| 0 <= s < b.states.len() implies (
        #[trigger] b.states[s]).transitions.predicates.len() == 0 by {
            let x = keep[s] as int;
            assert(keep[s] < a.num());
            assert(a.states[x].transitions.predicates.len() == 0);
            assert(c.states[x].transitions.predicates.len() == 0);
            assert(c.states[x].transitions.predicates =~= Seq::empty());
        }
    }
}

} // verus!
