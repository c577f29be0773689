//! The threaded engine: it runs a program on a text with one thread for each state that
//! the program can be in, and finds the match that starts first, and of those the one
//! that ends first.

use crate::program::{last_char, Program};
use vstd::prelude::*;
use vstd::string::StringSliceAdditionalSpecFns;

verus! {

/// The number of bytes that UTF-8 takes for `c`.
pub open spec fn utf8_len(c: char) -> int {
    if (c as u32) < 0x80 {
        1
    } else if (c as u32) < 0x800 {
        2
    } else if (c as u32) < 0x10000 {
        3
    } else {
        4
    }
}

/// Whether `v` holds the characters of a text of `len` bytes, each with the index of its
/// first byte.
pub open spec fn offsets_ok(v: Seq<(usize, char)>, len: int) -> bool {
    &&& v.len() == 0 ==> len == 0
    &&& v.len() > 0 ==> v[0].0 == 0 && v[v.len() - 1].0 + utf8_len(v[v.len() - 1].1) == len
    &&& forall|i: int| 0 <= i < v.len() - 1 ==> (#[trigger] v[i]).0 + utf8_len(v[i].1) == v[i + 1].0
}

/// The length of `s` in bytes.
pub open spec fn byte_len(s: &str) -> usize {
    s.spec_bytes().len() as usize
}

/// The characters of `v`.
pub open spec fn chars_of(v: Seq<(usize, char)>) -> Seq<char> {
    Seq::new(v.len(), |i: int| v[i].1)
}

/// `str::char_indices`, collected: the characters of `s` in their order, each with the
/// index of its first byte. The contract claims that the first character is at 0, that
/// each begins where the one before ends, and that the last ends where `s` does.
#[verifier::external_body]
fn char_indices(s: &str) -> (r: Vec<(usize, char)>)
    ensures
        chars_of(r@) == s@,
        offsets_ok(r@, byte_len(s) as int),
{
    s.char_indices().collect()
}

/// A text for the engine: its characters, each with the index of its first byte, and its
/// length in bytes.
#[derive(Debug)]
pub struct Text {
    pub chars: Vec<(usize, char)>,
    pub len: usize,
}

impl View for Text {
    type V = Seq<char>;

    open spec fn view(&self) -> Seq<char> {
        chars_of(self.chars@)
    }
}

impl Text {
    /// Whether each character has the index of its first byte, and the text its length.
    pub open spec fn wf(self) -> bool {
        offsets_ok(self.chars@, self.len as int)
    }

    /// The index of the first byte of the character `i`; the length of the text for the
    /// position behind the last character.
    pub open spec fn offset(self, i: int) -> usize {
        if 0 <= i < self.chars@.len() {
            self.chars@[i].0
        } else {
            self.len
        }
    }

    /// The text of `s`.
    pub fn new(s: &str) -> (r: Text)
        ensures
            r.wf(),
            r@ == s@,
            r.len == byte_len(s),
    {
        let chars = char_indices(s);
        Text { chars, len: s.len() }
    }

    /// The index of the first byte of the character `i`.
    pub fn byte_index(&self, i: usize) -> (r: usize)
        ensures
            r == self.offset(i as int),
    {
        if i < self.chars.len() {
            self.chars[i].0
        } else {
            self.len
        }
    }
}

/// A thread of the engine: the state that the program is in, and the position at which
/// the match began that the thread follows.
#[derive(Clone, Copy, Debug, PartialEq, Eq, Structural)]
pub struct Thread {
    pub state: usize,
    pub start_idx: usize,
}

/// A list of threads, with a mark for each state that has a thread on the list.
#[derive(Debug)]
pub struct Threads {
    pub threads: Vec<Thread>,
    pub states: Vec<u8>,
}

impl Threads {
    /// An empty list for a program of `n` states.
    pub fn with_capacity(n: usize) -> (r: Threads)
        ensures
            r.threads@.len() == 0,
            r.states@ == Seq::new(n as nat, |i: int| 0u8),
    {
        let mut states: Vec<u8> = Vec::new();
        let mut i: usize = 0;
        while i < n
            invariant
                i <= n,
                states@ == Seq::new(i as nat, |k: int| 0u8),
            decreases n - i,
        {
            states.push(0);
            assert(states@ =~= Seq::new((i + 1) as nat, |k: int| 0u8));
            i += 1;
        }
        Threads { threads: Vec::with_capacity(n), states }
    }

    /// Puts a thread on the list, unless its state has one already.
    pub fn add(&mut self, state: usize, start_idx: usize)
        requires
            state < old(self).states@.len(),
        ensures
            final(self).states@ == if old(self).states@[state as int] == 0 {
                old(self).states@.update(state as int, 1u8)
            } else {
                old(self).states@
            },
            final(self).threads@ == if old(self).states@[state as int] == 0 {
                old(self).threads@.push(Thread { state, start_idx })
            } else {
                old(self).threads@
            },
    {
        if self.states[state] == 0 {
            self.states.set(state, 1);
            self.threads.push(Thread { state, start_idx });
        }
    }

    /// Whether no thread follows a match that began before `start_idx`. The threads are
    /// in the order in which their matches began, so the first decides.
    pub fn starts_after(&self, start_idx: usize) -> (b: bool)
        requires
            by_start(self.threads@),
        ensures
            b == (forall|k: int|
                0 <= k < self.threads@.len() ==> (#[trigger] self.threads@[k]).start_idx >= start_idx),
    {
        if self.threads.len() == 0 {
            true
        } else {
            let b = self.threads[0].start_idx >= start_idx;
            proof {
                if b {
                    assert forall|k: int| 0 <= k < self.threads@.len() implies (
                    #[trigger] self.threads@[k]).start_idx >= start_idx by {
                        assert(self.threads@[0].start_idx <= self.threads@[k].start_idx);
                    }
                } else {
                    assert(self.threads@[0].start_idx < start_idx);
                }
            }
            b
        }
    }
}

/// Whether the threads stand in the order in which their matches began.
pub open spec fn by_start(ts: Seq<Thread>) -> bool {
    forall|a: int, b: int|
        0 <= a <= b < ts.len() ==> (#[trigger] ts[a]).start_idx <= (#[trigger] ts[b]).start_idx
}

/// The threads at the current position, and those at the next.
#[derive(Debug)]
pub struct ProgThreads {
    pub cur: Threads,
    pub next: Threads,
}

impl ProgThreads {
    /// Two empty lists for a program of `n` states.
    pub fn with_capacity(n: usize) -> (r: ProgThreads)
        ensures
            r.cur.threads@.len() == 0,
            r.next.threads@.len() == 0,
            r.cur.states@ == Seq::new(n as nat, |i: int| 0u8),
            r.next.states@ == Seq::new(n as nat, |i: int| 0u8),
    {
        ProgThreads { cur: Threads::with_capacity(n), next: Threads::with_capacity(n) }
    }

    /// Makes the next threads the current ones, and the list of the next threads empty.
    /// The marks of that list stay: whoever walks the current threads takes their marks
    /// off.
    pub fn swap(&mut self)
        ensures
            final(self).cur.threads@ == old(self).next.threads@,
            final(self).cur.states@ == old(self).next.states@,
            final(self).next.threads@.len() == 0,
            final(self).next.states@ == old(self).cur.states@,
    {
        std::mem::swap(&mut self.cur, &mut self.next);
        self.next.threads.clear();
    }

    /// Takes all threads and all marks off both lists.
    pub fn clear(&mut self)
        ensures
            final(self).cur.threads@.len() == 0,
            final(self).next.threads@.len() == 0,
            final(self).cur.states@ == Seq::new(old(self).cur.states@.len(), |i: int| 0u8),
            final(self).next.states@ == Seq::new(old(self).next.states@.len(), |i: int| 0u8),
    {
        self.cur.threads.clear();
        self.next.threads.clear();
        let n = self.cur.states.len();
        let mut i: usize = 0;
        while i < n
            invariant
                i <= n,
                n == self.cur.states@.len(),
                self.cur.threads@.len() == 0,
                self.next.threads@.len() == 0,
                self.next.states@ == old(self).next.states@,
                forall|k: int| 0 <= k < i ==> self.cur.states@[k] == 0,
            decreases n - i,
        {
            self.cur.states.set(i, 0);
            i += 1;
        }
        let m = self.next.states.len();
        let mut i: usize = 0;
        while i < m
            invariant
                i <= m,
                m == self.next.states@.len(),
                m == old(self).next.states@.len(),
                self.cur.threads@.len() == 0,
                self.next.threads@.len() == 0,
                self.cur.states@ =~= Seq::new(old(self).cur.states@.len(), |i: int| 0u8),
                forall|k: int| 0 <= k < i ==> self.next.states@[k] == 0,
            decreases m - i,
        {
            self.next.states.set(i, 0);
            i += 1;
        }
        assert(self.next.states@ =~= Seq::new(old(self).next.states@.len(), |i: int| 0u8));
    }
}

impl Program {
    /// Whether a match that begins at the position `start` has the program in the state
    /// `state` at the position `pos`.
    pub open spec fn started(self, chars: Seq<char>, start: int, pos: int, state: int) -> bool {
        exists|q0: int|
            self.init.state_after_spec(last_char(chars, start)) == Some(q0 as usize) && q0
                == q0 as usize && #[trigger] self.runs_to(chars, q0, start, pos, state)
    }
}

/// What finds the next position at which a match may begin.
pub trait Skipper {
    /// Whether the skipper was made for the program `prog`.
    spec fn made_for(&self, prog: &Program) -> bool;

    /// Whether the skipper stops at the first position at which a match may begin, without
    /// following the match any further.
    spec fn exact(&self) -> bool;

    /// A position from `pos` on at which a match may begin, the position up to which the
    /// skipper has followed it, and the state that the program is in there. `last` is the
    /// character before `pos`. A skipper that follows no match stops at the first position
    /// at which one may begin, and gives `None` only where none may begin from `pos` on.
    fn skip(&self, text: &Text, pos: usize, last: Option<char>) -> (r: Option<(usize, usize, usize)>)
        requires
            pos <= text@.len(),
            last == last_char(text@, pos as int),
        ensures
            r is Some ==> pos <= r.unwrap().0 && r.unwrap().0 <= r.unwrap().1 && r.unwrap().1
                <= text@.len(),
            r is Some ==> forall|prog: Program|
                #[trigger] self.made_for(&prog) && prog.wf() ==> r.unwrap().2 < prog.len()
                    && prog.started(
                    text@,
                    r.unwrap().0 as int,
                    r.unwrap().1 as int,
                    r.unwrap().2 as int,
                ),
            r is None && self.exact() ==> forall|prog: Program, i: int|
                #[trigger] self.made_for(&prog) && pos <= i <= text@.len()
                    ==> #[trigger] prog.init.state_after_spec(last_char(text@, i)) is None,
            r is Some && self.exact() ==> r.unwrap().0 == r.unwrap().1 && forall|
                prog: Program,
                i: int,
            |
                #[trigger] self.made_for(&prog) && pos <= i < r.unwrap().0
                    ==> #[trigger] prog.init.state_after_spec(last_char(text@, i)) is None,
    ;
}

/// The skipper that skips nothing but the positions at which no match may begin.
pub struct NoSkipper<'a>(pub &'a crate::program::InitStates);

impl<'a> Skipper for NoSkipper<'a> {
    open spec fn made_for(&self, prog: &Program) -> bool {
        prog.init == *self.0
    }

    open spec fn exact(&self) -> bool {
        true
    }

    fn skip(&self, text: &Text, pos: usize, last: Option<char>) -> (r: Option<(usize, usize, usize)>) {
        let n = text.chars.len();
        let mut p = pos;
        let mut last_ch = last;
        loop
            invariant
                pos <= p <= n,
                n == text@.len(),
                n == text.chars@.len(),
                last_ch == last_char(text@, p as int),
                forall|i: int|
                    pos <= i < p ==> self.0.state_after_spec(#[trigger] last_char(text@, i)) is None,
            decreases n - p,
        {
            match self.0.state_after(last_ch) {
                Some(state) => {
                    proof {
                        assert forall|prog: Program|
                            #[trigger] self.made_for(&prog) && prog.wf() implies state < prog.len()
                            && prog.started(text@, p as int, p as int, state as int) by {
                            lemma_state_after_below(prog, last_ch);
                            assert(prog.runs_to(text@, state as int, p as int, p as int, state as int));
                        }
                    }
                    return Some((p, p, state));
                },
                None => {},
            }
            if p == n {
                return None;
            }
            last_ch = Some(text.chars[p].1);
            p += 1;
        }
    }
}

/// A state in which a match may start is a state of the program.
pub proof fn lemma_state_after_below(prog: Program, last: Option<char>)
    requires
        prog.wf(),
    ensures
        prog.init.state_after_spec(last) is Some ==> prog.init.state_after_spec(last).unwrap()
            < prog.len(),
{
    match last {
        Some(ch) => {
            lemma_find_in(prog.init.init_after_char@, ch as u32);
        },
        None => {},
    }
}

/// What a map gives for a character is the value of one of its entries.
pub proof fn lemma_find_in(m: Seq<(crate::char_map::CharRange, usize)>, c: u32)
    ensures
        crate::char_map::CharMap::<usize>::find_spec(m, c) is Some ==> exists|k: int|
            0 <= k < m.len() && (#[trigger] m[k]).1 == crate::char_map::CharMap::<usize>::find_spec(
                m,
                c,
            ).unwrap(),
    decreases m.len(),
{
    if m.len() > 0 && !m[0].0.has(c) {
        lemma_find_in(m.skip(1), c);
        if crate::char_map::CharMap::<usize>::find_spec(m, c) is Some {
            let k = choose|k: int|
                0 <= k < m.skip(1).len() && (#[trigger] m.skip(1)[k]).1
                    == crate::char_map::CharMap::<usize>::find_spec(m.skip(1), c).unwrap();
            assert(m[k + 1].1 == crate::char_map::CharMap::<usize>::find_spec(m, c).unwrap());
        }
    } else if m.len() > 0 {
        assert(m[0].1 == crate::char_map::CharMap::<usize>::find_spec(m, c).unwrap());
    }
}

/// Whether each of the threads `ts` follows a match up to the position `pos`, in a state of
/// the program.
pub open spec fn threads_ok(prog: Program, chars: Seq<char>, ts: Seq<Thread>, pos: int) -> bool {
    forall|k: int|
        0 <= k < ts.len() ==> (#[trigger] ts[k]).state < prog.len() && ts[k].start_idx <= pos
            && prog.started(chars, ts[k].start_idx as int, pos, ts[k].state as int)
}

/// Whether `acc`, if it holds anything, holds the two ends of a match that ends at `pos`
/// or before.
pub open spec fn acc_ok(prog: Program, chars: Seq<char>, acc: Option<(usize, usize)>, pos: int) -> bool {
    acc is Some ==> acc.unwrap().0 <= acc.unwrap().1 && acc.unwrap().1 <= pos && prog.is_match(
        chars,
        acc.unwrap().0 as int,
        acc.unwrap().1 as int,
    )
}

/// Whether one of the threads `ts` has the program in the state `st`, for a match that
/// began at the position `start` or before.
pub open spec fn follows(ts: Seq<Thread>, st: int, start: int) -> bool {
    exists|k: int| 0 <= k < ts.len() && (#[trigger] ts[k]).state == st && ts[k].start_idx <= start
}

/// Whether the threads `ts` follow every match that began before the position `upto` and
/// goes on to the position `pos`: whatever state the program is in at `pos` after such a
/// beginning, a thread has it in that state, for a match that began there or earlier.
pub open spec fn complete(prog: Program, chars: Seq<char>, ts: Seq<Thread>, upto: int, pos: int) -> bool {
    forall|i: int, q0: int, st: int|
        0 <= i < upto && prog.init.state_after_spec(last_char(chars, i)) == Some(q0 as usize) && q0
            == q0 as usize && #[trigger] prog.runs_to(chars, q0, i, pos, st) ==> follows(ts, st, i)
}

/// Whether `acc` holds a match that begins before the position `i`, or begins there and
/// ends at the position `j` or before.
pub open spec fn before(acc: Option<(usize, usize)>, i: int, j: int) -> bool {
    acc is Some && (acc.unwrap().0 < i || (acc.unwrap().0 == i && acc.unwrap().1 <= j))
}

/// Whether `acc` holds the first of the matches that end before the position `pos`, if
/// there is one: the one that begins first, and of those that begin there the one that
/// ends first.
pub open spec fn acc_least(prog: Program, chars: Seq<char>, acc: Option<(usize, usize)>, pos: int) -> bool {
    forall|i: int, j: int| 0 <= i <= j < pos && #[trigger] prog.is_match(chars, i, j) ==> before(acc, i, j)
}

/// What is remembered once a thread that began at `start` has looked at the character at
/// `end`: its match, if it accepts and began before what was remembered.
pub open spec fn remembered(
    acc: Option<(usize, usize)>,
    start: usize,
    end: usize,
    accept: bool,
) -> Option<(usize, usize)> {
    if accept && (acc is None || start < acc.unwrap().0) {
        Some((start, end))
    } else {
        acc
    }
}

impl Program {
    /// Whether the match from `i` to `j` is the first of all matches in `chars`: none
    /// begins earlier, and none that begins at `i` ends earlier.
    pub open spec fn is_first_match(self, chars: Seq<char>, i: int, j: int) -> bool {
        &&& self.is_match(chars, i, j)
        &&& forall|i2: int, j2: int|
            0 <= i2 <= j2 <= chars.len() && #[trigger] self.is_match(chars, i2, j2) ==> i < i2 || (i
                == i2 && j <= j2)
    }

    /// Whether `chars` holds no match.
    pub open spec fn no_match(self, chars: Seq<char>) -> bool {
        forall|i: int, j: int| 0 <= i <= j <= chars.len() ==> !#[trigger] self.is_match(chars, i, j)
    }
}

/// Whether each state that is marked has a thread on the list, at the index `from` or
/// behind it.
pub open spec fn marks_ok(t: Threads, from: int) -> bool {
    forall|s: int|
        0 <= s < t.states@.len() && #[trigger] t.states@[s] != 0 ==> exists|k: int|
            from <= k < t.threads@.len() && (#[trigger] t.threads@[k]).state == s
}

/// A match that goes on to a position has the program in some state at every position
/// before.
pub proof fn lemma_run_prefix(prog: Program, chars: Seq<char>, q0: int, i: int, m: int, j: int, st: int)
    requires
        i <= m <= j,
        prog.runs_to(chars, q0, i, j, st),
    ensures
        exists|p: int| #[trigger] prog.runs_to(chars, q0, i, m, p),
    decreases j - m,
{
    if m < j {
        let p = choose|p: int|
            prog.runs_to(chars, q0, i, j - 1, p) && #[trigger] prog.next(p, chars[j - 1]) == Some(
                st as usize,
            ) && st == st as usize;
        lemma_run_prefix(prog, chars, q0, i, m, j - 1, p);
    }
}

/// Threads that follow nothing up to a position follow nothing beyond it.
pub proof fn lemma_complete_later(prog: Program, chars: Seq<char>, upto: int, pos: int, later: int)
    requires
        upto <= pos <= later,
        complete(prog, chars, Seq::<Thread>::empty(), upto, pos),
    ensures
        complete(prog, chars, Seq::<Thread>::empty(), upto, later),
{
    assert forall|i: int, q0: int, st: int|
        0 <= i < upto && prog.init.state_after_spec(last_char(chars, i)) == Some(q0 as usize) && q0
            == q0 as usize && #[trigger] prog.runs_to(chars, q0, i, later, st) implies follows(
        Seq::<Thread>::empty(),
        st,
        i,
    ) by {
        lemma_run_prefix(prog, chars, q0, i, pos, later, st);
        let p = choose|p: int| #[trigger] prog.runs_to(chars, q0, i, pos, p);
        assert(follows(Seq::<Thread>::empty(), p, i));
    }
}

/// The threads at the next position follow what the threads at this position follow, if
/// each of them has gone on.
pub proof fn lemma_complete_step(
    prog: Program,
    chars: Seq<char>,
    cur: Seq<Thread>,
    next: Seq<Thread>,
    pos: int,
)
    requires
        0 <= pos < chars.len(),
        complete(prog, chars, cur, pos + 1, pos),
        forall|k: int|
            0 <= k < cur.len() && prog.next((#[trigger] cur[k]).state as int, chars[pos]) is Some
                ==> follows(
                next,
                prog.next(cur[k].state as int, chars[pos]).unwrap() as int,
                cur[k].start_idx as int,
            ),
    ensures
        complete(prog, chars, next, pos + 1, pos + 1),
{
    assert forall|i: int, q0: int, st: int|
        0 <= i < pos + 1 && prog.init.state_after_spec(last_char(chars, i)) == Some(q0 as usize)
            && q0 == q0 as usize && #[trigger] prog.runs_to(chars, q0, i, pos + 1, st) implies follows(
        next,
        st,
        i,
    ) by {
        let j = pos + 1;
        let p = choose|p: int|
            prog.runs_to(chars, q0, i, j - 1, p) && #[trigger] prog.next(p, chars[j - 1]) == Some(
                st as usize,
            ) && st == st as usize;
        assert(prog.runs_to(chars, q0, i, pos, p));
        assert(follows(cur, p, i));
        let k = choose|k: int|
            0 <= k < cur.len() && (#[trigger] cur[k]).state == p && cur[k].start_idx <= i;
        assert(prog.next(cur[k].state as int, chars[pos]) is Some);
        assert(follows(next, st, cur[k].start_idx as int));
        let k2 = choose|k2: int|
            0 <= k2 < next.len() && (#[trigger] next[k2]).state == st && next[k2].start_idx
                <= cur[k].start_idx;
        assert(next[k2].state == st && next[k2].start_idx <= i);
    }
}

/// The threads follow the matches that begin at a position once they have a thread in the
/// state in which a match begins there, if one does.
pub proof fn lemma_complete_start(prog: Program, chars: Seq<char>, ts: Seq<Thread>, pos: int)
    requires
        complete(prog, chars, ts, pos, pos),
        match prog.init.state_after_spec(last_char(chars, pos)) {
            Some(q) => follows(ts, q as int, pos),
            None => true,
        },
    ensures
        complete(prog, chars, ts, pos + 1, pos),
{
    assert forall|i: int, q0: int, st: int|
        0 <= i < pos + 1 && prog.init.state_after_spec(last_char(chars, i)) == Some(q0 as usize)
            && q0 == q0 as usize && #[trigger] prog.runs_to(chars, q0, i, pos, st) implies follows(
        ts,
        st,
        i,
    ) by {
        if i == pos {
            assert(st == q0);
        }
    }
}

/// More threads follow what fewer follow.
pub proof fn lemma_complete_more(
    prog: Program,
    chars: Seq<char>,
    ts: Seq<Thread>,
    more: Seq<Thread>,
    upto: int,
    pos: int,
)
    requires
        complete(prog, chars, ts, upto, pos),
        forall|st: int, i: int| follows(ts, st, i) ==> follows(more, st, i),
    ensures
        complete(prog, chars, more, upto, pos),
{
    assert forall|i: int, q0: int, st: int|
        0 <= i < upto && prog.init.state_after_spec(last_char(chars, i)) == Some(q0 as usize) && q0
            == q0 as usize && #[trigger] prog.runs_to(chars, q0, i, pos, st) implies follows(
        more,
        st,
        i,
    ) by {
        assert(follows(ts, st, i));
    }
}

/// Where no match may begin between two positions, the threads that follow the matches
/// that began before the first follow those that began before the second.
pub proof fn lemma_complete_gap(prog: Program, chars: Seq<char>, ts: Seq<Thread>, from: int, upto: int, pos: int)
    requires
        from <= upto,
        complete(prog, chars, ts, from, pos),
        forall|i: int|
            from <= i < upto ==> #[trigger] prog.init.state_after_spec(last_char(chars, i)) is None,
    ensures
        complete(prog, chars, ts, upto, pos),
{
    assert forall|i: int, q0: int, st: int|
        0 <= i < upto && prog.init.state_after_spec(last_char(chars, i)) == Some(q0 as usize) && q0
            == q0 as usize && #[trigger] prog.runs_to(chars, q0, i, pos, st) implies follows(
        ts,
        st,
        i,
    ) by {
        if i >= from {
            assert(prog.init.state_after_spec(last_char(chars, i)) is None);
        }
    }
}

/// The number of bytes that UTF-8 takes for the first `i` characters of `chars`.
pub open spec fn prefix_len(chars: Seq<char>, i: int) -> int
    decreases i,
{
    if i <= 0 {
        0
    } else {
        prefix_len(chars, i - 1) + utf8_len(chars[i - 1])
    }
}

/// The index of the first byte of a character is the number of bytes before it.
pub proof fn lemma_offset(text: Text, i: int)
    requires
        text.wf(),
        0 <= i <= text@.len(),
    ensures
        text.offset(i) == prefix_len(text@, i),
    decreases i,
{
    if i > 0 {
        lemma_offset(text, i - 1);
        assert(text@[i - 1] == text.chars@[i - 1].1);
        if i < text.chars@.len() {
            assert(text.chars@[i - 1].0 + utf8_len(text.chars@[i - 1].1) == text.chars@[i].0);
        }
    }
}

/// A thread that goes on follows its match one position further.
pub proof fn lemma_started_step(prog: Program, chars: Seq<char>, start: int, j: int, st: int, st2: usize)
    requires
        start < j,
        prog.started(chars, start, j - 1, st),
        prog.next(st, chars[j - 1]) == Some(st2),
    ensures
        prog.started(chars, start, j, st2 as int),
{
    let q0 = choose|q0: int|
        prog.init.state_after_spec(last_char(chars, start)) == Some(q0 as usize) && q0
            == q0 as usize && #[trigger] prog.runs_to(chars, q0, start, j - 1, st);
    assert(prog.runs_to(chars, q0, start, j - 1, st));
    assert(prog.runs_to(chars, q0, start, j, st2 as int));
}

/// A thread whose state accepts has followed a match.
pub proof fn lemma_started_match(prog: Program, chars: Seq<char>, start: int, pos: int, st: int)
    requires
        prog.started(chars, start, pos, st),
        prog.accepts_at(chars, st, pos),
    ensures
        prog.is_match(chars, start, pos),
{
    let q0 = choose|q0: int|
        prog.init.state_after_spec(last_char(chars, start)) == Some(q0 as usize) && q0
            == q0 as usize && #[trigger] prog.runs_to(chars, q0, start, pos, st);
    assert(prog.runs_to(chars, q0, start, pos, st) && prog.accepts_at(chars, st, pos));
}

/// An engine that runs a program with one thread for each state that it can be in.
#[derive(Debug)]
pub struct ThreadedEngine {
    pub prog: Program,
}

impl ThreadedEngine {
    /// An engine for the program `prog`.
    pub fn new(prog: Program) -> (r: ThreadedEngine)
        ensures
            r.prog == prog,
    {
        ThreadedEngine { prog }
    }

    /// Has the current thread `i` look at the character `ch`, which stands at the position
    /// `end`: remembers the match if the thread accepts and no match that began as early is
    /// remembered, and puts the thread on the list of the next threads if it goes on.
    fn advance_thread(
        &self,
        threads: &mut ProgThreads,
        acc: &mut Option<(usize, usize)>,
        i: usize,
        ch: char,
        end: usize,
        Ghost(chars): Ghost<Seq<char>>,
    )
        requires
            self.prog.wf(),
            i < old(threads).cur.threads@.len(),
            end < chars.len(),
            ch == chars[end as int],
            old(threads).cur.states@.len() == self.prog.len(),
            old(threads).next.states@.len() == self.prog.len(),
            threads_ok(self.prog, chars, old(threads).cur.threads@, end as int),
            threads_ok(self.prog, chars, old(threads).next.threads@, end + 1),
            acc_ok(self.prog, chars, *old(acc), end as int),
            marks_ok(old(threads).cur, i as int),
            marks_ok(old(threads).next, 0),
            by_start(old(threads).next.threads@),
            forall|k: int|
                0 <= k < old(threads).next.threads@.len() ==> (
                #[trigger] old(threads).next.threads@[k]).start_idx
                    <= old(threads).cur.threads@[i as int].start_idx,
        ensures
            final(threads).cur.threads@ == old(threads).cur.threads@,
            final(threads).cur.states@.len() == self.prog.len(),
            final(threads).next.states@.len() == self.prog.len(),
            threads_ok(self.prog, chars, final(threads).next.threads@, end + 1),
            acc_ok(self.prog, chars, *final(acc), end as int),
            marks_ok(final(threads).cur, i + 1),
            marks_ok(final(threads).next, 0),
            by_start(final(threads).next.threads@),
            forall|k: int|
                0 <= k < final(threads).next.threads@.len() ==> (
                #[trigger] final(threads).next.threads@[k]).start_idx
                    <= old(threads).cur.threads@[i as int].start_idx,
            *final(acc) == remembered(
                *old(acc),
                old(threads).cur.threads@[i as int].start_idx,
                end,
                self.prog.step_spec(old(threads).cur.threads@[i as int].state as int, ch).1,
            ),
            forall|st: int, b: int|
                follows(old(threads).next.threads@, st, b) ==> follows(
                    final(threads).next.threads@,
                    st,
                    b,
                ),
            self.prog.next(old(threads).cur.threads@[i as int].state as int, ch) is Some
                ==> follows(
                final(threads).next.threads@,
                self.prog.next(old(threads).cur.threads@[i as int].state as int, ch).unwrap() as int,
                old(threads).cur.threads@[i as int].start_idx as int,
            ),
    {
        let th = threads.cur.threads[i];
        let state = th.state;
        let start_idx = th.start_idx;
        proof {
            assert(threads.cur.threads@[i as int].state < self.prog.len());
        }
        let ghost cur0 = threads.cur;
        threads.cur.states.set(state, 0);
        proof {
            let c = threads.cur;
            assert forall|s: int| 0 <= s < c.states@.len() && #[trigger] c.states@[s] != 0 implies exists|
                k: int,
            | i + 1 <= k < c.threads@.len() && (#[trigger] c.threads@[k]).state == s by {
                assert(cur0.states@[s] != 0);
                let k = choose|k: int|
                    i <= k < cur0.threads@.len() && (#[trigger] cur0.threads@[k]).state == s;
                assert(c.threads@[k].state == s);
            }
        }
        let (mut next_state, accept, retry) = self.prog.step(state, ch);
        if accept && (acc.is_none() || start_idx < acc.unwrap().0) {
            proof {
                lemma_started_match(self.prog, chars, start_idx as int, end as int, state as int);
            }
            *acc = Some((start_idx, end));
        }
        if retry {
            next_state = self.prog.step(next_state.unwrap(), ch).0;
        }
        assert(next_state == self.prog.next(state as int, ch));
        if let Some(next_state) = next_state {
            let ghost before = threads.next;
            proof {
                lemma_started_step(
                    self.prog,
                    chars,
                    start_idx as int,
                    end + 1,
                    state as int,
                    next_state,
                );
            }
            threads.next.add(next_state, start_idx);
            proof {
                let after = threads.next;
                assert forall|k: int| 0 <= k < after.threads@.len() implies (
                #[trigger] after.threads@[k]).state < self.prog.len() && after.threads@[k].start_idx
                    <= end + 1 && self.prog.started(
                    chars,
                    after.threads@[k].start_idx as int,
                    end + 1,
                    after.threads@[k].state as int,
                ) by {
                    if k < before.threads@.len() {
                        assert(after.threads@[k] == before.threads@[k]);
                    }
                }
                assert forall|k: int| 0 <= k < after.threads@.len() implies (
                #[trigger] after.threads@[k]).start_idx <= start_idx by {
                    if k < before.threads@.len() {
                        assert(after.threads@[k] == before.threads@[k]);
                    }
                }
                assert(by_start(after.threads@)) by {
                    assert forall|a: int, b: int| 0 <= a <= b < after.threads@.len() implies (
                    #[trigger] after.threads@[a]).start_idx <= (
                    #[trigger] after.threads@[b]).start_idx by {
                        if b < before.threads@.len() {
                            assert(after.threads@[a] == before.threads@[a]);
                            assert(after.threads@[b] == before.threads@[b]);
                        } else if a < before.threads@.len() {
                            assert(after.threads@[a] == before.threads@[a]);
                        }
                    }
                }
                assert forall|st: int, b: int| follows(before.threads@, st, b) implies follows(
                    after.threads@,
                    st,
                    b,
                ) by {
                    let k = choose|k: int|
                        0 <= k < before.threads@.len() && (#[trigger] before.threads@[k]).state == st
                            && before.threads@[k].start_idx <= b;
                    assert(after.threads@[k].state == st && after.threads@[k].start_idx <= b);
                }
                assert(follows(after.threads@, next_state as int, start_idx as int)) by {
                    if before.states@[next_state as int] == 0 {
                        let k = before.threads@.len() as int;
                        assert(after.threads@[k].state == next_state && after.threads@[k].start_idx
                            <= start_idx);
                    } else {
                        let k = choose|k: int|
                            0 <= k < before.threads@.len() && (#[trigger] before.threads@[k]).state
                                == next_state as int;
                        assert(after.threads@[k].state == next_state && after.threads@[k].start_idx
                            <= start_idx);
                    }
                }
                assert forall|s: int|
                    0 <= s < after.states@.len() && #[trigger] after.states@[s] != 0 implies exists|
                    k: int,
                | 0 <= k < after.threads@.len() && (#[trigger] after.threads@[k]).state == s by {
                    if s == next_state {
                        let k = choose|k: int|
                            0 <= k < after.threads@.len() && (#[trigger] after.threads@[k]).state
                                == next_state as int && after.threads@[k].start_idx <= start_idx;
                        assert(after.threads@[k].state == s);
                    } else {
                        assert(before.states@[s] != 0);
                        let k = choose|k: int|
                            0 <= k < before.threads@.len() && (#[trigger] before.threads@[k]).state == s;
                        assert(after.threads@[k].state == s);
                    }
                }
            }
        }
    }

    /// The match that the engine finds in `text`, with `skip` to find where a match may
    /// begin: the two ends of the match, as indices of bytes. What it finds is a match. With
    /// a skipper that follows no match itself, it finds the first match, if the text holds
    /// one: the match that begins first, and of those that begin there the one that ends
    /// first. A match that is remembered when the text ends is given, unless a thread that
    /// began earlier accepts there.
    pub fn shortest_match_<S: Skipper>(&self, text: &Text, skip: &S) -> (r: Option<(usize, usize)>)
        requires
            self.prog.wf(),
            text.wf(),
            skip.made_for(&self.prog),
        ensures
            r is Some ==> exists|i: int, j: int|
                0 <= i <= j <= text@.len() && r.unwrap() == (text.offset(i), text.offset(j))
                    && #[trigger] self.prog.is_match(text@, i, j) && (skip.exact()
                    ==> self.prog.is_first_match(text@, i, j)),
            r is None && skip.exact() ==> self.prog.no_match(text@),
    {
        let n = text.chars.len();
        let ghost chars = text@;
        let mut acc: Option<(usize, usize)> = None;
        let (first_start_pos, mut pos, start_state) = match skip.skip(text, 0, None) {
            Some(x) => x,
            None => {
                proof {
                    if skip.exact() {
                        lemma_no_start_no_match(self.prog, chars, acc, n + 1);
                    }
                }
                return None;
            },
        };
        let mut threads = ProgThreads::with_capacity(self.prog.insts.len());
        threads.clear();
        threads.cur.threads.push(Thread { state: start_state, start_idx: first_start_pos });
        proof {
            let ts = threads.cur.threads@;
            assert(ts[0].state == start_state && ts[0].start_idx == first_start_pos);
            if skip.exact() {
                assert(complete(self.prog, chars, Seq::<Thread>::empty(), 0, pos as int));
                lemma_complete_gap(self.prog, chars, Seq::<Thread>::empty(), 0, pos as int, pos as int);
                lemma_complete_more(
                    self.prog,
                    chars,
                    Seq::<Thread>::empty(),
                    ts,
                    pos as int,
                    pos as int,
                );
                lemma_skipped_start(self.prog, chars, pos as int, start_state as int);
                assert(follows(ts, start_state as int, pos as int));
                lemma_complete_start(self.prog, chars, ts, pos as int);
                lemma_no_start_no_match(self.prog, chars, acc, pos as int);
            }
        }
        while pos < n
            invariant
                pos <= n,
                n == text.chars@.len(),
                chars == text@,
                self.prog.wf(),
                text.wf(),
                skip.made_for(&self.prog),
                threads.cur.states@.len() == self.prog.len(),
                threads.next.states@.len() == self.prog.len(),
                threads.next.threads@.len() == 0,
                threads_ok(self.prog, chars, threads.cur.threads@, pos as int),
                by_start(threads.cur.threads@),
                acc_ok(self.prog, chars, acc, pos as int),
                marks_ok(threads.cur, 0),
                marks_ok(threads.next, 0),
                skip.exact() ==> complete(self.prog, chars, threads.cur.threads@, pos + 1, pos as int),
                skip.exact() ==> acc_least(self.prog, chars, acc, pos as int),
            decreases n - pos,
        {
            let ch = text.chars[pos].1;
            let m = threads.cur.threads.len();
            let mut i: usize = 0;
            let ghost cur0 = threads.cur.threads@;
            let ghost acc0 = acc;
            while i < m
                invariant
                    i <= m,
                    pos < n,
                    n == chars.len(),
                    ch == chars[pos as int],
                    self.prog.wf(),
                    m == threads.cur.threads@.len(),
                    cur0 == threads.cur.threads@,
                    by_start(cur0),
                    threads.cur.states@.len() == self.prog.len(),
                    threads.next.states@.len() == self.prog.len(),
                    threads_ok(self.prog, chars, threads.cur.threads@, pos as int),
                    threads_ok(self.prog, chars, threads.next.threads@, pos + 1),
                    acc_ok(self.prog, chars, acc, pos as int),
                    marks_ok(threads.cur, i as int),
                    marks_ok(threads.next, 0),
                    by_start(threads.next.threads@),
                    forall|k: int, q: int|
                        0 <= k < threads.next.threads@.len() && i <= q < m ==> (
                        #[trigger] threads.next.threads@[k]).start_idx <= (#[trigger] cur0[q]).start_idx,
                    improves(acc0, acc),
                    forall|k: int|
                        0 <= k < i && self.prog.step_spec((#[trigger] cur0[k]).state as int, ch).1
                            ==> before(acc, cur0[k].start_idx as int, pos as int),
                    forall|k: int|
                        0 <= k < i && self.prog.next((#[trigger] cur0[k]).state as int, ch) is Some
                            ==> follows(
                            threads.next.threads@,
                            self.prog.next(cur0[k].state as int, ch).unwrap() as int,
                            cur0[k].start_idx as int,
                        ),
                decreases m - i,
            {
                let ghost acc1 = acc;
                let ghost next1 = threads.next.threads@;
                proof {
                    assert forall|k: int| 0 <= k < next1.len() implies (#[trigger] next1[k]).start_idx
                        <= cur0[i as int].start_idx by {
                        assert(next1[k].start_idx <= cur0[i as int].start_idx);
                    }
                }
                self.advance_thread(&mut threads, &mut acc, i, ch, pos, Ghost(chars));
                proof {
                    let next2 = threads.next.threads@;
                    assert forall|k: int, q: int| 0 <= k < next2.len() && i + 1 <= q < m implies (
                    #[trigger] next2[k]).start_idx <= (#[trigger] cur0[q]).start_idx by {
                        assert(next2[k].start_idx <= cur0[i as int].start_idx);
                        assert(cur0[i as int].start_idx <= cur0[q].start_idx);
                    }
                    assert forall|k: int|
                        0 <= k < i + 1 && self.prog.step_spec((#[trigger] cur0[k]).state as int, ch).1
                        implies before(acc, cur0[k].start_idx as int, pos as int) by {
                        if k < i {
                            assert(before(acc1, cur0[k].start_idx as int, pos as int));
                        }
                    }
                    assert forall|k: int|
                        0 <= k < i + 1 && self.prog.next((#[trigger] cur0[k]).state as int, ch) is Some
                        implies follows(
                        next2,
                        self.prog.next(cur0[k].state as int, ch).unwrap() as int,
                        cur0[k].start_idx as int,
                    ) by {
                        if k < i {
                            assert(follows(
                                next1,
                                self.prog.next(cur0[k].state as int, ch).unwrap() as int,
                                cur0[k].start_idx as int,
                            ));
                        }
                    }
                }
                i += 1;
            }
            proof {
                if skip.exact() {
                    lemma_complete_step(self.prog, chars, cur0, threads.next.threads@, pos as int);
                    lemma_least_step(self.prog, chars, cur0, acc0, acc, pos as int);
                }
                assert forall|s: int| 0 <= s < threads.cur.states@.len() implies threads.cur.states@[s]
                    == 0 by {
                    if threads.cur.states@[s] != 0 {
                        let k = choose|k: int|
                            m <= k < threads.cur.threads@.len() && (#[trigger] threads.cur.threads@[k]).state
                                == s;
                    }
                }
            }
            threads.swap();
            if acc.is_some() && threads.cur.starts_after(acc.unwrap().0) {
                let (a, b) = acc.unwrap();
                proof {
                    if skip.exact() {
                        lemma_least_found(self.prog, chars, threads.cur.threads@, acc, pos + 1);
                    }
                }
                return Some((text.byte_index(a), text.byte_index(b)));
            }
            pos += 1;
            if threads.cur.threads.len() == 0 {
                let ghost before_pos = pos;
                assert(acc is None);
                match skip.skip(text, pos, Some(ch)) {
                    Some((next_start_pos, next_pos, state)) => {
                        pos = next_pos;
                        proof {
                            assert(threads.cur.states@[state as int] == 0) by {
                                if threads.cur.states@[state as int] != 0 {
                                    let k = choose|k: int|
                                        0 <= k < threads.cur.threads@.len() && (
                                        #[trigger] threads.cur.threads@[k]).state == state as int;
                                }
                            }
                        }
                        threads.cur.add(state, next_start_pos);
                        proof {
                            let ts = threads.cur.threads@;
                            assert(ts[0].state == state && ts[0].start_idx == next_start_pos);
                            assert forall|k: int| 0 <= k < ts.len() implies (#[trigger] ts[k]).state
                                < self.prog.len() && ts[k].start_idx <= pos && self.prog.started(
                                chars,
                                ts[k].start_idx as int,
                                pos as int,
                                ts[k].state as int,
                            ) by {}
                            assert(marks_ok(threads.cur, 0)) by {
                                assert forall|s: int|
                                    0 <= s < threads.cur.states@.len() && #[trigger] threads.cur.states@[s]
                                        != 0 implies exists|k: int|
                                    0 <= k < ts.len() && (#[trigger] ts[k]).state == s by {
                                    assert(ts[0].state == s);
                                }
                            }
                            if skip.exact() {
                                let none = Seq::<Thread>::empty();
                                assert(complete(self.prog, chars, none, before_pos as int, before_pos as int));
                                lemma_least_gap(
                                    self.prog,
                                    chars,
                                    acc,
                                    before_pos as int,
                                    pos as int,
                                );
                                lemma_complete_later(
                                    self.prog,
                                    chars,
                                    before_pos as int,
                                    before_pos as int,
                                    pos as int,
                                );
                                lemma_complete_gap(
                                    self.prog,
                                    chars,
                                    none,
                                    before_pos as int,
                                    pos as int,
                                    pos as int,
                                );
                                lemma_complete_more(self.prog, chars, none, ts, pos as int, pos as int);
                                lemma_skipped_start(self.prog, chars, pos as int, state as int);
                                assert(follows(ts, state as int, pos as int));
                                lemma_complete_start(self.prog, chars, ts, pos as int);
                            }
                        }
                    },
                    None => {
                        proof {
                            if skip.exact() {
                                assert(complete(
                                    self.prog,
                                    chars,
                                    Seq::<Thread>::empty(),
                                    before_pos as int,
                                    before_pos as int,
                                ));
                                lemma_least_gap(self.prog, chars, acc, before_pos as int, n + 1);
                            }
                        }
                        return None;
                    },
                }
            } else {
                let found = self.prog.init.state_after(Some(ch));
                proof {
                    assert(last_char(chars, pos as int) == Some(ch));
                }
                match found {
                    Some(state) => {
                        let ghost before = threads.cur;
                        proof {
                            lemma_state_after_below(self.prog, Some(ch));
                            assert(self.prog.runs_to(
                                chars,
                                state as int,
                                pos as int,
                                pos as int,
                                state as int,
                            ));
                            assert(self.prog.started(chars, pos as int, pos as int, state as int));
                        }
                        threads.cur.add(state, pos);
                        proof {
                            let ts = threads.cur.threads@;
                            assert forall|k: int| 0 <= k < ts.len() implies (#[trigger] ts[k]).state
                                < self.prog.len() && ts[k].start_idx <= pos && self.prog.started(
                                chars,
                                ts[k].start_idx as int,
                                pos as int,
                                ts[k].state as int,
                            ) by {
                                if k < before.threads@.len() {
                                    assert(ts[k] == before.threads@[k]);
                                }
                            }
                            assert(by_start(ts)) by {
                                assert forall|a: int, b: int| 0 <= a <= b < ts.len() implies (
                                #[trigger] ts[a]).start_idx <= (#[trigger] ts[b]).start_idx by {
                                    if b < before.threads@.len() {
                                        assert(ts[a] == before.threads@[a]);
                                        assert(ts[b] == before.threads@[b]);
                                    } else if a < before.threads@.len() {
                                        assert(ts[a] == before.threads@[a]);
                                        assert(before.threads@[a].start_idx <= pos);
                                    }
                                }
                            }
                            assert forall|st: int, b: int| follows(before.threads@, st, b) implies follows(
                                ts,
                                st,
                                b,
                            ) by {
                                let k = choose|k: int|
                                    0 <= k < before.threads@.len() && (
                                    #[trigger] before.threads@[k]).state == st
                                        && before.threads@[k].start_idx <= b;
                                assert(ts[k].state == st && ts[k].start_idx <= b);
                            }
                            let at = if before.states@[state as int] == 0 {
                                before.threads@.len() as int
                            } else {
                                choose|k: int|
                                    0 <= k < before.threads@.len() && (
                                    #[trigger] before.threads@[k]).state == state as int
                            };
                            assert(0 <= at < ts.len() && ts[at].state == state);
                            assert(follows(ts, state as int, pos as int));
                            assert(marks_ok(threads.cur, 0)) by {
                                assert forall|s: int|
                                    0 <= s < threads.cur.states@.len() && #[trigger] threads.cur.states@[s]
                                        != 0 implies exists|k: int|
                                    0 <= k < ts.len() && (#[trigger] ts[k]).state == s by {
                                    if s == state {
                                        assert(ts[at].state == s);
                                    } else {
                                        assert(before.states@[s] != 0);
                                        let k = choose|k: int|
                                            0 <= k < before.threads@.len() && (
                                            #[trigger] before.threads@[k]).state == s;
                                        assert(ts[k].state == s);
                                    }
                                }
                            }
                            if skip.exact() {
                                lemma_complete_more(
                                    self.prog,
                                    chars,
                                    before.threads@,
                                    ts,
                                    pos as int,
                                    pos as int,
                                );
                                lemma_complete_start(self.prog, chars, ts, pos as int);
                            }
                        }
                    },
                    None => {
                        proof {
                            if skip.exact() {
                                lemma_complete_start(
                                    self.prog,
                                    chars,
                                    threads.cur.threads@,
                                    pos as int,
                                );
                            }
                        }
                    },
                }
            }
        }
        let mut best = acc;
        let mut k: usize = 0;
        while k < threads.cur.threads.len()
            invariant
                k <= threads.cur.threads@.len(),
                pos == n,
                n == text.chars@.len(),
                chars == text@,
                threads_ok(self.prog, chars, threads.cur.threads@, pos as int),
                acc_ok(self.prog, chars, best, n as int),
                improves(acc, best),
                forall|q: int|
                    0 <= q < k && self.prog.check_eoi_spec((#[trigger] threads.cur.threads@[q]).state as int)
                        ==> before(best, threads.cur.threads@[q].start_idx as int, n as int),
            decreases threads.cur.threads@.len() - k,
        {
            let th = threads.cur.threads[k];
            let ghost best1 = best;
            proof {
                assert(threads.cur.threads@[k as int].state < self.prog.len());
            }
            if self.prog.check_eoi(th.state) && (best.is_none() || th.start_idx < best.unwrap().0) {
                proof {
                    lemma_started_match(
                        self.prog,
                        chars,
                        th.start_idx as int,
                        n as int,
                        th.state as int,
                    );
                }
                best = Some((th.start_idx, n));
            }
            proof {
                let ts = threads.cur.threads@;
                assert forall|q: int|
                    0 <= q < k + 1 && self.prog.check_eoi_spec((#[trigger] ts[q]).state as int) implies before(
                    best,
                    ts[q].start_idx as int,
                    n as int,
                ) by {
                    if q < k {
                        assert(before(best1, ts[q].start_idx as int, n as int));
                    }
                }
            }
            k += 1;
        }
        proof {
            if skip.exact() {
                lemma_least_end(self.prog, chars, threads.cur.threads@, acc, best);
            }
        }
        match best {
            Some((a, b)) => Some((text.byte_index(a), text.byte_index(b))),
            None => None,
        }
    }

    /// The first match in `s`: the indices of the bytes at which it begins and ends. It
    /// begins no later than any other match, and of the matches that begin there it is the
    /// one that ends first. `None` if `s` holds no match.
    pub fn shortest_match(&self, s: &str) -> (r: Option<(usize, usize)>)
        requires
            self.prog.wf(),
        ensures
            r is Some ==> exists|i: int, j: int|
                0 <= i <= j <= s@.len() && r.unwrap().0 == prefix_len(s@, i) && r.unwrap().1
                    == prefix_len(s@, j) && #[trigger] self.prog.is_first_match(s@, i, j),
            r is None ==> self.prog.no_match(s@),
    {
        if self.prog.insts.len() == 0 {
            proof {
                assert forall|i: int, j: int| 0 <= i <= j <= s@.len() implies !#[trigger] self.prog.is_match(
                    s@,
                    i,
                    j,
                ) by {
                    lemma_state_after_below(self.prog, last_char(s@, i));
                }
            }
            return None;
        }
        let text = Text::new(s);
        let skip = NoSkipper(&self.prog.init);
        let r = self.shortest_match_(&text, &skip);
        proof {
            if r is Some {
                let (i, j) = choose|i: int, j: int|
                    0 <= i <= j <= text@.len() && r.unwrap() == (text.offset(i), text.offset(j))
                        && #[trigger] self.prog.is_match(text@, i, j) && (skip.exact()
                        ==> self.prog.is_first_match(text@, i, j));
                lemma_offset(text, i);
                lemma_offset(text, j);
                assert(self.prog.is_first_match(s@, i, j));
            }
        }
        r
    }
}

/// Whether what is remembered in `acc` is what was remembered in `from`, or a match that
/// begins earlier.
pub open spec fn improves(from: Option<(usize, usize)>, acc: Option<(usize, usize)>) -> bool {
    from is Some ==> acc is Some && (acc.unwrap().0 < from.unwrap().0 || acc == from)
}

/// Where no match may begin before a position, no match ends before it.
pub proof fn lemma_no_start_no_match(
    prog: Program,
    chars: Seq<char>,
    acc: Option<(usize, usize)>,
    upto: int,
)
    requires
        forall|i: int|
            0 <= i < upto ==> #[trigger] prog.init.state_after_spec(last_char(chars, i)) is None,
    ensures
        acc_least(prog, chars, acc, upto),
        upto > chars.len() ==> prog.no_match(chars),
{
    assert forall|i: int, j: int| 0 <= i <= j < upto implies !#[trigger] prog.is_match(chars, i, j) by {
        assert(prog.init.state_after_spec(last_char(chars, i)) is None);
    }
}

/// Where no thread is left at a position and no match may begin from there up to another
/// position, no match ends between the two.
pub proof fn lemma_least_gap(
    prog: Program,
    chars: Seq<char>,
    acc: Option<(usize, usize)>,
    from: int,
    upto: int,
)
    requires
        acc is None,
        acc_least(prog, chars, acc, from),
        complete(prog, chars, Seq::<Thread>::empty(), from, from),
        forall|i: int|
            from <= i < upto ==> #[trigger] prog.init.state_after_spec(last_char(chars, i)) is None,
    ensures
        acc_least(prog, chars, acc, upto),
        upto > chars.len() ==> prog.no_match(chars),
{
    assert forall|i: int, j: int| 0 <= i <= j < upto implies !#[trigger] prog.is_match(chars, i, j) by {
        if prog.is_match(chars, i, j) {
            let (q0, st) = choose|q0: int, st: int|
                prog.init.state_after_spec(last_char(chars, i)) == Some(q0 as usize) && q0
                    == q0 as usize && #[trigger] prog.runs_to(chars, q0, i, j, st) && prog.accepts_at(
                    chars,
                    st,
                    j,
                );
            if j < from {
                assert(before(acc, i, j));
            } else if i < from {
                lemma_run_prefix(prog, chars, q0, i, from, j, st);
                let p = choose|p: int| #[trigger] prog.runs_to(chars, q0, i, from, p);
                assert(follows(Seq::<Thread>::empty(), p, i));
            } else {
                assert(prog.init.state_after_spec(last_char(chars, i)) is None);
            }
        }
    }
}

/// Once every thread at a position has looked at the character there, what is remembered
/// holds the first of the matches that end at that position or before.
pub proof fn lemma_least_step(
    prog: Program,
    chars: Seq<char>,
    cur: Seq<Thread>,
    from: Option<(usize, usize)>,
    acc: Option<(usize, usize)>,
    pos: int,
)
    requires
        0 <= pos < chars.len(),
        acc_least(prog, chars, from, pos),
        improves(from, acc),
        complete(prog, chars, cur, pos + 1, pos),
        forall|k: int|
            0 <= k < cur.len() && prog.step_spec((#[trigger] cur[k]).state as int, chars[pos]).1
                ==> before(acc, cur[k].start_idx as int, pos),
    ensures
        acc_least(prog, chars, acc, pos + 1),
{
    assert forall|i: int, j: int| 0 <= i <= j < pos + 1 && #[trigger] prog.is_match(chars, i, j) implies before(
        acc,
        i,
        j,
    ) by {
        if j < pos {
            assert(before(from, i, j));
        } else {
            let (q0, st) = choose|q0: int, st: int|
                prog.init.state_after_spec(last_char(chars, i)) == Some(q0 as usize) && q0
                    == q0 as usize && #[trigger] prog.runs_to(chars, q0, i, j, st) && prog.accepts_at(
                    chars,
                    st,
                    j,
                );
            assert(follows(cur, st, i));
            let k = choose|k: int|
                0 <= k < cur.len() && (#[trigger] cur[k]).state == st && cur[k].start_idx <= i;
            assert(before(acc, cur[k].start_idx as int, pos));
        }
    }
}

/// Where a match is remembered and no thread follows one that began earlier, the match
/// that is remembered is the first of all.
pub proof fn lemma_least_found(
    prog: Program,
    chars: Seq<char>,
    ts: Seq<Thread>,
    acc: Option<(usize, usize)>,
    pos: int,
)
    requires
        acc is Some,
        acc_ok(prog, chars, acc, pos - 1),
        acc_least(prog, chars, acc, pos),
        complete(prog, chars, ts, pos, pos),
        forall|k: int| 0 <= k < ts.len() ==> (#[trigger] ts[k]).start_idx >= acc.unwrap().0,
    ensures
        prog.is_first_match(chars, acc.unwrap().0 as int, acc.unwrap().1 as int),
{
    let a = acc.unwrap().0 as int;
    let b = acc.unwrap().1 as int;
    assert forall|i: int, j: int|
        0 <= i <= j <= chars.len() && #[trigger] prog.is_match(chars, i, j) implies a < i || (a == i
        && b <= j) by {
        if j < pos {
            assert(before(acc, i, j));
        } else if i < a {
            let (q0, st) = choose|q0: int, st: int|
                prog.init.state_after_spec(last_char(chars, i)) == Some(q0 as usize) && q0
                    == q0 as usize && #[trigger] prog.runs_to(chars, q0, i, j, st) && prog.accepts_at(
                    chars,
                    st,
                    j,
                );
            lemma_run_prefix(prog, chars, q0, i, pos, j, st);
            let p = choose|p: int| #[trigger] prog.runs_to(chars, q0, i, pos, p);
            assert(follows(ts, p, i));
            let k = choose|k: int|
                0 <= k < ts.len() && (#[trigger] ts[k]).state == p && ts[k].start_idx <= i;
            assert(ts[k].start_idx >= a);
        }
    }
}

/// Where the text has ended and every thread has been asked whether it accepts there,
/// what is remembered is the first of all matches, if it is anything; else there is none.
pub proof fn lemma_least_end(
    prog: Program,
    chars: Seq<char>,
    ts: Seq<Thread>,
    from: Option<(usize, usize)>,
    best: Option<(usize, usize)>,
)
    requires
        acc_ok(prog, chars, best, chars.len() as int),
        acc_least(prog, chars, from, chars.len() as int),
        improves(from, best),
        complete(prog, chars, ts, chars.len() as int + 1, chars.len() as int),
        forall|q: int|
            0 <= q < ts.len() && prog.check_eoi_spec((#[trigger] ts[q]).state as int) ==> before(
                best,
                ts[q].start_idx as int,
                chars.len() as int,
            ),
    ensures
        best is Some ==> prog.is_first_match(chars, best.unwrap().0 as int, best.unwrap().1 as int),
        best is None ==> prog.no_match(chars),
{
    let n = chars.len() as int;
    assert forall|i: int, j: int| 0 <= i <= j <= n && #[trigger] prog.is_match(chars, i, j) implies before(
        best,
        i,
        j,
    ) by {
        if j < n {
            assert(before(from, i, j));
        } else {
            let (q0, st) = choose|q0: int, st: int|
                prog.init.state_after_spec(last_char(chars, i)) == Some(q0 as usize) && q0
                    == q0 as usize && #[trigger] prog.runs_to(chars, q0, i, j, st) && prog.accepts_at(
                    chars,
                    st,
                    j,
                );
            assert(follows(ts, st, i));
            let k = choose|k: int|
                0 <= k < ts.len() && (#[trigger] ts[k]).state == st && ts[k].start_idx <= i;
            assert(before(best, ts[k].start_idx as int, n));
        }
    }
}

/// The state that a skipper gives for the position at which it stops is the state in
/// which a match begins there.
pub proof fn lemma_skipped_start(prog: Program, chars: Seq<char>, pos: int, state: int)
    requires
        prog.started(chars, pos, pos, state),
    ensures
        prog.init.state_after_spec(last_char(chars, pos)) == Some(state as usize),
{
}

} // verus!
