//! The compilation core of a regular-expression matcher: automata over code points with
//! zero-width predicates, their lowering to bytes, and their determinisation.

pub mod bytes;
pub mod char_map;
pub mod determinize;
pub mod dfa;
pub mod error;
pub mod graph;
pub mod mirror;
pub mod moves;
pub mod nfa;
pub mod predicates;
pub mod program;
pub mod reach;
pub mod shortest;
pub mod state_set;
pub mod subset;
pub mod threaded;
pub mod transition;
pub mod trim;
pub mod utf8;
