//! The subset construction.

use regex_dfa::char_map::{CharMap, CharRange};
use regex_dfa::dfa::{sorted_by_start, Dfa};
use regex_dfa::error::Error;
use regex_dfa::nfa::Nfa;
use regex_dfa::transition::{Accept, DfaAccept};

fn automaton(n: usize) -> Nfa {
    let mut nfa = Nfa::new();
    for _ in 0..n {
        nfa.add_state(Accept::never());
    }
    nfa
}

fn transitions(dfa: &Dfa, state: usize) -> Vec<(u32, u32, usize)> {
    let t = &dfa.states[state].transitions;
    (0..t.len()).map(|k| (t.get(k).0.start, t.get(k).0.end, t.get(k).1)).collect()
}

/// The state in which the deterministic automaton is after `input`.
fn run(dfa: &Dfa, mut state: Option<usize>, input: &[u8]) -> Option<usize> {
    for &b in input {
        state = match state {
            Some(s) => dfa.states[s].transitions.find(b as u32),
            None => None,
        };
    }
    state
}

#[test]
fn determinizing_an_empty_automaton() {
    let dfa = Nfa::new().determinize(0).unwrap();
    assert_eq!(dfa.num_states(), 0);
    assert_eq!(dfa.init_otherwise, None);
    assert_eq!(dfa.init_at_start, None);
    assert!(dfa.init_after_char.is_empty());
    // States without initial states give no state either.
    let dfa = automaton(3).determinize(0).unwrap();
    assert_eq!(dfa.num_states(), 0);
}

#[test]
fn determinizing_merges_the_states_that_are_reached_together() {
    let mut nfa = automaton(5);
    nfa.add_init_state(0);
    nfa.add_transition(0, 1, CharRange::new(0x61, 0x63));
    nfa.add_transition(0, 2, CharRange::new(0x62, 0x64));
    nfa.add_eps(2, 3);
    nfa.add_transition(3, 4, CharRange::single(0x7A));
    nfa.add_transition(1, 4, CharRange::single(0x7A));
    nfa.set_byte_accept(1, DfaAccept::accept(1));
    nfa.set_byte_accept(3, DfaAccept { at_eoi: true, otherwise: false, bytes_behind: 3 });
    let dfa = nfa.determinize(10).unwrap();
    // The states stand for the sets {0}, {1}, {1, 2, 3}, {2, 3} and {4}, in the order in
    // which they were found.
    assert_eq!(dfa.num_states(), 5);
    assert_eq!(dfa.init_otherwise, Some(0));
    assert_eq!(dfa.init_at_start, None);
    assert_eq!(transitions(&dfa, 0), vec![(0x61, 0x61, 1), (0x62, 0x63, 2), (0x64, 0x64, 3)]);
    assert_eq!(dfa.states[0].accept, DfaAccept::never());
    assert_eq!(dfa.states[1].accept, DfaAccept::accept(1));
    assert_eq!(dfa.states[2].accept, DfaAccept { at_eoi: true, otherwise: true, bytes_behind: 3 });
    assert_eq!(dfa.states[3].accept, DfaAccept { at_eoi: true, otherwise: false, bytes_behind: 3 });
    assert_eq!(transitions(&dfa, 3), vec![(0x7A, 0x7A, 4)]);
    assert_eq!(transitions(&dfa, 2), vec![(0x7A, 0x7A, 4)]);
    assert_eq!(transitions(&dfa, 1), vec![(0x7A, 0x7A, 4)]);
    assert!(transitions(&dfa, 4).is_empty());
    // The deterministic automaton is where the other automaton can be.
    assert_eq!(run(&dfa, dfa.init_otherwise, b"b"), Some(2));
    assert_eq!(run(&dfa, dfa.init_otherwise, b"bz"), Some(4));
    assert_eq!(run(&dfa, dfa.init_otherwise, b"az"), Some(4));
    assert_eq!(run(&dfa, dfa.init_otherwise, b"e"), None);
    assert_eq!(run(&dfa, dfa.init_otherwise, b"bzz"), None);
}

#[test]
fn determinizing_stops_at_too_many_states() {
    let mut nfa = automaton(3);
    nfa.add_init_state(0);
    nfa.add_transition(0, 1, CharRange::single(0x61));
    nfa.add_transition(1, 2, CharRange::single(0x62));
    assert_eq!(nfa.determinize(2).err(), Some(Error::TooManyStates));
    assert_eq!(nfa.determinize(0).err(), Some(Error::TooManyStates));
    assert_eq!(nfa.determinize(3).unwrap().num_states(), 3);
}

#[test]
fn determinizing_keeps_the_three_kinds_of_initial_states() {
    let mut nfa = automaton(4);
    nfa.add_init_state(0);
    nfa.add_init_at_start_state(0);
    nfa.add_init_at_start_state(1);
    nfa.add_eps(1, 2);
    let mut after: CharMap<Vec<usize>> = CharMap::new();
    after.push(CharRange::new(0x30, 0x39), vec![3]);
    after.push(CharRange::new(0x41, 0x5A), vec![]);
    nfa.init_after_char = after;
    let dfa = nfa.determinize(10).unwrap();
    assert_eq!(dfa.num_states(), 3);
    assert_eq!(dfa.init_otherwise, Some(0));
    assert_eq!(dfa.init_at_start, Some(1));
    assert_eq!(
        dfa.init_after_char.clone().into_vec(),
        vec![(CharRange::new(0x30, 0x39), 2), (CharRange::new(0x41, 0x5A), 0)]
    );
}

#[test]
fn determinizing_a_loop() {
    let mut nfa = automaton(2);
    nfa.add_init_state(0);
    nfa.add_transition(0, 1, CharRange::single(0x61));
    nfa.add_transition(1, 0, CharRange::single(0x62));
    nfa.add_transition(1, 1, CharRange::single(0x61));
    nfa.set_byte_accept(1, DfaAccept::accept(0));
    let dfa = nfa.determinize(2).unwrap();
    assert_eq!(dfa.num_states(), 2);
    assert_eq!(transitions(&dfa, 0), vec![(0x61, 0x61, 1)]);
    assert_eq!(transitions(&dfa, 1), vec![(0x61, 0x61, 1), (0x62, 0x62, 0)]);
    assert_eq!(run(&dfa, dfa.init_otherwise, b"aabaa"), Some(1));
    assert_eq!(run(&dfa, dfa.init_otherwise, b"aab"), Some(0));
    assert_eq!(run(&dfa, dfa.init_otherwise, b"ba"), None);
}

#[test]
fn dfa_transitions_are_sorted_by_the_start_of_their_ranges() {
    let mut dfa = Dfa::new();
    dfa.add_state(DfaAccept::never());
    dfa.add_state(DfaAccept::accept(2));
    dfa.add_transition(0, 1, CharRange::new(0x70, 0x7A));
    dfa.add_transition(0, 0, CharRange::new(0x30, 0x39));
    dfa.add_transition(0, 1, CharRange::new(0x41, 0x5A));
    dfa.add_transition(0, 0, CharRange::new(0x30, 0x31));
    dfa.sort_transitions();
    assert_eq!(
        transitions(&dfa, 0),
        vec![(0x30, 0x39, 0), (0x30, 0x31, 0), (0x41, 0x5A, 1), (0x70, 0x7A, 1)]
    );
    assert!(transitions(&dfa, 1).is_empty());
    assert_eq!(dfa.states[1].accept, DfaAccept { at_eoi: true, otherwise: true, bytes_behind: 2 });
    let mut m: CharMap<usize> = CharMap::new();
    m.push(CharRange::single(9), 1);
    m.push(CharRange::single(3), 2);
    assert_eq!(
        sorted_by_start(&m).into_vec(),
        vec![(CharRange::single(3), 2), (CharRange::single(9), 1)]
    );
}

#[test]
fn shortest_union_of_acceptance() {
    let a = DfaAccept { at_eoi: false, otherwise: true, bytes_behind: 2 };
    let b = DfaAccept { at_eoi: true, otherwise: false, bytes_behind: 5 };
    assert_eq!(a.union_shortest(&b), DfaAccept { at_eoi: true, otherwise: true, bytes_behind: 5 });
    assert_eq!(b.union_shortest(&a), DfaAccept { at_eoi: true, otherwise: true, bytes_behind: 5 });
    assert_eq!(a.union_shortest(&DfaAccept::never()), a);
}
