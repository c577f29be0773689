//! Programs for the threaded engine: a list of instructions, each of which is a state, and
//! the states in which a match may start.

use crate::char_map::{CharMap, CharRange, CharSet};
use crate::transition::Accept;
use vstd::prelude::*;

verus! {

/// An instruction, and a state of the program.
#[derive(Debug)]
pub enum Inst {
    /// Consumes this character and goes on with the next instruction.
    Char(char),
    /// Consumes a character of the set and goes on with the next instruction.
    CharSet(CharSet),
    /// Consumes nothing: accepts if the profile does, and has the next instruction look
    /// at the same character.
    Acc(Accept),
    /// Consumes a character and goes on with the instruction that the map gives for it.
    Branch(CharMap<usize>),
}

/// The states in which a match may start.
#[derive(Debug)]
pub struct InitStates {
    /// Behind a character of the given range.
    pub init_after_char: CharMap<usize>,
    /// At the beginning of the input.
    pub init_at_start: Option<usize>,
    /// Behind any other character.
    pub init_otherwise: Option<usize>,
}

/// A program: its instructions, and the states in which a match may start.
#[derive(Debug)]
pub struct Program {
    pub insts: Vec<Inst>,
    pub init: InitStates,
}

/// The character before the position `i` of `chars`, if there is one.
pub open spec fn last_char(chars: Seq<char>, i: int) -> Option<char> {
    if 0 < i <= chars.len() {
        Some(chars[i - 1])
    } else {
        None
    }
}

impl InitStates {
    /// The state in which a match may start behind `last`, or at the beginning of the
    /// input where there is no `last`.
    pub open spec fn state_after_spec(self, last: Option<char>) -> Option<usize> {
        match last {
            Some(ch) => match CharMap::<usize>::find_spec(self.init_after_char@, ch as u32) {
                Some(s) => Some(s),
                None => self.init_otherwise,
            },
            None => self.init_at_start,
        }
    }

    /// Whether every state that is named is below `n`.
    pub open spec fn wf(self, n: int) -> bool {
        &&& forall|k: int|
            0 <= k < self.init_after_char@.len() ==> (#[trigger] self.init_after_char@[k]).1 < n
        &&& self.init_at_start is Some ==> self.init_at_start.unwrap() < n
        &&& self.init_otherwise is Some ==> self.init_otherwise.unwrap() < n
    }

    /// The state in which a match may start behind `last`, or at the beginning of the input
    /// where there is no `last`.
    pub fn state_after(&self, last: Option<char>) -> (r: Option<usize>)
        ensures
            r == self.state_after_spec(last),
    {
        match last {
            Some(ch) => match self.init_after_char.find(ch as u32) {
                Some(s) => Some(s),
                None => self.init_otherwise,
            },
            None => self.init_at_start,
        }
    }

    /// The state in which every match starts, if that is the same everywhere.
    pub fn constant(&self) -> (r: Option<usize>)
        ensures
            r is Some ==> self.init_after_char@.len() == 0 && self.init_at_start == r
                && self.init_otherwise == r,
            r is None ==> !(self.init_after_char@.len() == 0 && self.init_at_start
                == self.init_otherwise && self.init_at_start is Some),
    {
        if self.init_after_char.is_empty() {
            match (self.init_at_start, self.init_otherwise) {
                (Some(a), Some(b)) => if a == b {
                    Some(a)
                } else {
                    None
                },
                _ => None,
            }
        } else {
            None
        }
    }
}

impl Program {
    /// The number of instructions.
    pub open spec fn len(self) -> int {
        self.insts@.len() as int
    }

    /// Whether every state that the program names is one of its instructions: the next
    /// instruction where one goes on with it, the values of a branch, and the states in
    /// which a match may start. The sets of characters are normalized.
    pub open spec fn wf(self) -> bool {
        &&& forall|i: int|
            0 <= i < self.insts@.len() ==> match #[trigger] self.insts@[i] {
                Inst::Char(_) => i + 1 < self.len(),
                Inst::CharSet(cs) => i + 1 < self.len(),
                Inst::Acc(acc) => i + 1 < self.len(),
                Inst::Branch(map) => forall|k: int|
                    0 <= k < map@.len() ==> (#[trigger] map@[k]).1 < self.len(),
            }
        &&& self.init.wf(self.len())
    }

    /// What the state `st` does with the character `ch`: where it goes on, if anywhere,
    /// whether it accepts, and whether the state that it goes on with is to look at the
    /// same character.
    pub open spec fn step_spec(self, st: int, ch: char) -> (Option<usize>, bool, bool) {
        match self.insts@[st] {
            Inst::Char(c) => if c == ch {
                (Some((st + 1) as usize), false, false)
            } else {
                (None, false, false)
            },
            Inst::CharSet(cs) => if cs.has(ch as u32) {
                (Some((st + 1) as usize), false, false)
            } else {
                (None, false, false)
            },
            Inst::Acc(acc) => (Some((st + 1) as usize), acc@.has(ch as u32), true),
            Inst::Branch(map) => (CharMap::<usize>::find_spec(map@, ch as u32), false, false),
        }
    }

    /// Whether the state `st` accepts at the end of the input.
    pub open spec fn check_eoi_spec(self, st: int) -> bool {
        match self.insts@[st] {
            Inst::Acc(acc) => acc.at_eoi,
            _ => false,
        }
    }

    /// The state that follows `st` once `ch` is consumed, if there is one.
    pub open spec fn next(self, st: int, ch: char) -> Option<usize> {
        let r = self.step_spec(st, ch);
        if r.2 {
            self.step_spec(r.0.unwrap() as int, ch).0
        } else {
            r.0
        }
    }

    /// Whether the program is in the state `st` at the position `j` if it was in the state
    /// `q0` at the position `i`.
    pub open spec fn runs_to(self, chars: Seq<char>, q0: int, i: int, j: int, st: int) -> bool
        decreases j - i,
    {
        if j <= i {
            j == i && st == q0
        } else {
            exists|p: int|
                self.runs_to(chars, q0, i, j - 1, p) && #[trigger] self.next(p, chars[j - 1]) == Some(
                    st as usize,
                ) && st == st as usize
        }
    }

    /// Whether the state `st` accepts at the position `j`: before the character there, or
    /// at the end of the input.
    pub open spec fn accepts_at(self, chars: Seq<char>, st: int, j: int) -> bool {
        if 0 <= j < chars.len() {
            self.step_spec(st, chars[j]).1
        } else {
            self.check_eoi_spec(st)
        }
    }

    /// Whether the characters from the position `i` to the position `j` are a match: the
    /// program may start at `i`, and accepts at `j` once it has consumed them.
    pub open spec fn is_match(self, chars: Seq<char>, i: int, j: int) -> bool {
        exists|q0: int, st: int|
            self.init.state_after_spec(last_char(chars, i)) == Some(q0 as usize) && q0
                == q0 as usize && #[trigger] self.runs_to(chars, q0, i, j, st) && self.accepts_at(
                chars,
                st,
                j,
            )
    }

    /// What the state `state` does with the character `ch`.
    pub fn step(&self, state: usize, ch: char) -> (r: (Option<usize>, bool, bool))
        requires
            self.wf(),
            state < self.len(),
        ensures
            r == self.step_spec(state as int, ch),
            r.0 is Some ==> r.0.unwrap() < self.len(),
            r.2 ==> r.0 is Some,
    {
        let n = self.insts.len();
        proof {
            let inst = self.insts@[state as int];
            assert(match inst {
                Inst::Char(_) => state + 1 < self.len(),
                Inst::CharSet(cs) => state + 1 < self.len(),
                Inst::Acc(acc) => state + 1 < self.len(),
                Inst::Branch(map) => forall|k: int|
                    0 <= k < map@.len() ==> (#[trigger] map@[k]).1 < self.len(),
            });
        }
        match &self.insts[state] {
            Inst::Char(c) => if *c == ch {
                (Some(state + 1), false, false)
            } else {
                (None, false, false)
            },
            Inst::CharSet(cs) => if cs.contains(ch as u32) {
                (Some(state + 1), false, false)
            } else {
                (None, false, false)
            },
            Inst::Acc(acc) => (Some(state + 1), acc.at_char.contains(ch as u32), true),
            Inst::Branch(map) => {
                let r = map.find(ch as u32);
                (r, false, false)
            },
        }
    }

    /// Whether the state `state` accepts at the end of the input.
    pub fn check_eoi(&self, state: usize) -> (r: bool)
        requires
            state < self.len(),
        ensures
            r == self.check_eoi_spec(state as int),
    {
        match &self.insts[state] {
            Inst::Acc(acc) => acc.at_eoi,
            _ => false,
        }
    }
}

} // verus!
