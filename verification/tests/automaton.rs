//! Automata built by hand: closures, reversal, trimming, the removal of predicates and the
//! lowering to bytes.

use regex_dfa::bytes::MergedUtf8Sequences;
use regex_dfa::char_map::{CharRange, CharSet};
use regex_dfa::error::Error;
use regex_dfa::nfa::{Nfa, NfaState};
use regex_dfa::transition::{Accept, DfaAccept, NfaTransitions, Predicate, PredicatePart};

fn automaton(accepts: Vec<Accept>) -> Nfa {
    let mut nfa = Nfa::new();
    for a in accepts {
        nfa.add_state(a);
    }
    nfa
}

fn never(n: usize) -> Vec<Accept> {
    (0..n).map(|_| Accept::never()).collect()
}

fn lower() -> CharSet {
    let mut set = CharSet::new();
    set.insert(CharRange::new('a' as u32, 'z' as u32));
    set
}

fn consuming(nfa: &Nfa, state: usize) -> Vec<(u32, u32, usize)> {
    let c = &nfa.states[state].transitions.consuming;
    (0..c.len()).map(|k| (c.get(k).0.start, c.get(k).0.end, c.get(k).1)).collect()
}

fn edges(nfa: &Nfa) -> Vec<(usize, u32, u32, usize)> {
    let mut all = Vec::new();
    for s in 0..nfa.num_states() {
        for (a, b, t) in consuming(nfa, s) {
            all.push((s, a, b, t));
        }
        for &t in &nfa.states[s].transitions.eps {
            all.push((s, u32::MAX, 0, t));
        }
        for p in &nfa.states[s].transitions.predicates {
            all.push((s, 0, u32::MAX, p.1));
        }
    }
    all.sort();
    all
}

#[test]
fn construction_keeps_the_order_of_what_is_added() {
    let mut nfa = Nfa::with_capacity(3);
    assert_eq!(nfa.num_states(), 0);
    nfa.add_state(Accept::never());
    nfa.add_state(Accept::always());
    nfa.add_state(Accept::never());
    nfa.add_transition(0, 1, CharRange::single(7));
    nfa.add_transition(0, 2, CharRange::new(1, 3));
    nfa.add_eps(2, 0);
    nfa.add_init_state(2);
    nfa.add_init_state(0);
    nfa.add_init_state(2);
    nfa.add_init_at_start_state(1);
    nfa.set_byte_accept(1, DfaAccept::accept(4));
    assert_eq!(nfa.num_states(), 3);
    assert_eq!(consuming(&nfa, 0), vec![(7, 7, 1), (1, 3, 2)]);
    assert_eq!(nfa.states[2].transitions.eps, vec![0]);
    assert_eq!(nfa.init, vec![0, 2, 2]);
    assert_eq!(nfa.init_at_start, vec![1]);
    assert_eq!(nfa.states[1].dfa_accept, DfaAccept { at_eoi: true, otherwise: true, bytes_behind: 4 });
    assert_eq!(nfa.states[0].dfa_accept, DfaAccept::never());
    assert!(nfa.same(&nfa.clone()));
    let fresh = NfaState::new(Accept::always());
    assert!(fresh.transitions.same(&NfaTransitions::new()));
    assert!(fresh.accept.is_always());
}

#[test]
fn eps_closure_is_the_least_closed_set() {
    let mut nfa = automaton(never(5));
    nfa.add_eps(0, 1);
    nfa.add_eps(1, 2);
    nfa.add_eps(2, 0);
    nfa.add_eps(3, 4);
    nfa.add_transition(2, 3, CharRange::single('a' as u32));
    assert_eq!(nfa.eps_closure(&vec![0]), vec![0, 1, 2]);
    assert_eq!(nfa.eps_closure(&vec![3]), vec![3, 4]);
    assert_eq!(nfa.eps_closure(&vec![4, 0]), vec![0, 1, 2, 4]);
    assert_eq!(nfa.eps_closure(&vec![]), Vec::<usize>::new());
    assert_eq!(nfa.eps_closure_single(2), vec![0, 1, 2]);
    assert_eq!(nfa.eps_closure_single(4), vec![4]);
    // No ε-transition leaves the closure, and the closure of the closure is the closure.
    let closure = nfa.eps_closure(&vec![1]);
    for &s in &closure {
        for t in &nfa.states[s].transitions.eps {
            assert!(closure.contains(t));
        }
    }
    assert_eq!(nfa.eps_closure(&closure), closure);
    assert_eq!(nfa.reachable_from(&vec![0]), vec![0, 1, 2, 3, 4]);
    assert_eq!(nfa.reachable_from(&vec![3]), vec![3, 4]);
}

#[test]
fn reversing_twice_gives_the_transitions_back() {
    let mut nfa = automaton(vec![Accept::never(), Accept::always(), Accept::never()]);
    nfa.add_transition(0, 2, CharRange::single('b' as u32));
    nfa.add_transition(0, 1, CharRange::single('a' as u32));
    nfa.add_eps(1, 2);
    nfa.add_predicate(
        2,
        0,
        Predicate(
            PredicatePart { chars: lower(), at_boundary: false },
            PredicatePart { chars: CharSet::full(), at_boundary: true },
        ),
    );
    let rev = nfa.reversed();
    assert_eq!(rev.num_states(), 3);
    assert_eq!(consuming(&rev, 1), vec![('a' as u32, 'a' as u32, 0)]);
    assert_eq!(consuming(&rev, 2), vec![('b' as u32, 'b' as u32, 0)]);
    assert_eq!(rev.states[2].transitions.eps, vec![1]);
    assert_eq!(rev.states[0].transitions.predicates.len(), 1);
    assert_eq!(rev.states[0].transitions.predicates[0].1, 2);
    assert!(rev.states[1].accept.is_always());
    assert!(rev.init.is_empty());
    let back = rev.reversed();
    assert_eq!(edges(&back), edges(&nfa));
    assert!(back.states[2].transitions.predicates[0].0.same(&nfa.states[2].transitions.predicates[0].0));
}

#[test]
fn trimming_keeps_the_states_that_a_match_passes_through() {
    let mut nfa = automaton(vec![
        Accept::never(),
        Accept::never(),
        Accept::always(),
        Accept::never(),
        Accept::always(),
    ]);
    nfa.add_init_state(0);
    nfa.add_transition(0, 3, CharRange::single('c' as u32));
    nfa.add_transition(0, 2, CharRange::single('a' as u32));
    nfa.add_transition(1, 2, CharRange::single('b' as u32));
    nfa.add_eps(0, 3);
    assert_eq!(nfa.reachable_states(), vec![0, 2]);
    nfa.trim_unreachable();
    assert_eq!(nfa.num_states(), 2);
    assert_eq!(consuming(&nfa, 0), vec![('a' as u32, 'a' as u32, 1)]);
    assert!(nfa.states[0].transitions.eps.is_empty());
    assert!(nfa.states[1].accept.is_always());
    assert_eq!(nfa.init, vec![0]);
    // Every state is reached from an initial state and reaches an accepting state.
    assert_eq!(nfa.reachable_states(), vec![0, 1]);
    let before = nfa.clone();
    nfa.trim_unreachable();
    assert!(nfa.same(&before));
}

#[test]
fn trimming_an_automaton_without_match_leaves_nothing() {
    let mut nfa = automaton(never(3));
    nfa.add_init_state(0);
    nfa.add_eps(0, 1);
    nfa.trim_unreachable();
    assert_eq!(nfa.num_states(), 0);
    assert!(nfa.init.is_empty());
}

#[test]
fn optimizing_for_the_shortest_match_twice_is_optimizing_once() {
    let mut nfa = automaton(vec![
        Accept::never(),
        Accept::always(),
        Accept::always(),
        Accept::never(),
        Accept { at_eoi: true, at_char: lower() },
    ]);
    nfa.add_init_state(0);
    nfa.add_transition(0, 1, CharRange::single('a' as u32));
    nfa.add_transition(1, 2, CharRange::single('b' as u32));
    nfa.add_eps(1, 2);
    nfa.add_transition(0, 3, CharRange::single('c' as u32));
    nfa.add_eps(3, 4);
    nfa.add_transition(4, 0, CharRange::single('d' as u32));
    nfa.optimize_for_shortest_match();
    assert_eq!(nfa.num_states(), 4);
    assert_eq!(consuming(&nfa, 0), vec![('a' as u32, 'a' as u32, 1), ('c' as u32, 'c' as u32, 2)]);
    assert!(consuming(&nfa, 1).is_empty());
    assert!(nfa.states[1].transitions.eps.is_empty());
    assert_eq!(nfa.states[2].transitions.eps, vec![3]);
    assert_eq!(consuming(&nfa, 3), vec![('d' as u32, 'd' as u32, 0)]);
    let once = nfa.clone();
    nfa.optimize_for_shortest_match();
    assert!(nfa.same(&once));
}

#[test]
fn what_a_set_of_states_accepts() {
    let mut nfa = automaton(vec![
        Accept { at_eoi: false, at_char: lower() },
        Accept { at_eoi: true, at_char: lower().negated() },
        Accept::never(),
    ]);
    nfa.set_byte_accept(0, DfaAccept { at_eoi: false, otherwise: true, bytes_behind: 2 });
    nfa.set_byte_accept(1, DfaAccept { at_eoi: true, otherwise: false, bytes_behind: 5 });
    assert!(nfa.accept(&vec![0, 1]).is_always());
    assert!(nfa.accept(&vec![2]).is_never());
    assert!(nfa.accept(&vec![]).is_never());
    assert!(nfa.accept(&vec![0, 2]).same(&Accept { at_eoi: false, at_char: lower() }));
    assert_eq!(
        nfa.dfa_accept(&vec![0, 1, 2]),
        DfaAccept { at_eoi: true, otherwise: true, bytes_behind: 5 }
    );
    assert_eq!(nfa.dfa_accept(&vec![2]), DfaAccept::never());
    assert!(DfaAccept::never().is_never());
    assert!(!DfaAccept::accept(0).is_never());
}

#[test]
fn transitions_of_a_set_of_states() {
    let mut nfa = automaton(never(4));
    nfa.add_transition(0, 1, CharRange::new('a' as u32, 'c' as u32));
    nfa.add_transition(1, 2, CharRange::new('b' as u32, 'd' as u32));
    nfa.add_eps(2, 3);
    let t = nfa.transitions(&vec![0, 1]).into_vec();
    assert_eq!(
        t,
        vec![
            (CharRange::single('a' as u32), vec![1]),
            (CharRange::new('b' as u32, 'c' as u32), vec![1, 2, 3]),
            (CharRange::single('d' as u32), vec![2, 3]),
        ]
    );
    assert!(nfa.transitions(&vec![3]).is_empty());
}

#[test]
fn predicates_meet() {
    let word = PredicatePart { chars: lower(), at_boundary: false };
    let not_word = PredicatePart { chars: lower().negated(), at_boundary: true };
    let any = PredicatePart { chars: CharSet::full(), at_boundary: true };
    let a = Predicate(word.clone(), not_word.clone());
    let b = Predicate(not_word.clone(), word.clone());
    assert!(a.intersect(&b).is_none());
    let c = Predicate(any.clone(), any.clone());
    assert!(a.intersect(&c).unwrap().same(&a));
    assert!(word.intersect(&not_word).is_empty());
    assert!(!not_word.intersect(&any).is_empty());
    let acc = a.filter_accept(&Accept::always());
    assert!(acc.same(&Accept { at_eoi: true, at_char: lower().negated() }));
    let acc = b.filter_accept(&Accept::always());
    assert!(acc.same(&Accept { at_eoi: false, at_char: lower() }));
    assert!(b.filter_accept(&Accept::never()).is_never());
}

#[test]
fn removing_predicates_leaves_none() {
    let word = PredicatePart { chars: lower(), at_boundary: false };
    let not_word = PredicatePart { chars: lower().negated(), at_boundary: true };
    let mut nfa = automaton(vec![
        Accept::never(),
        Accept::never(),
        Accept::never(),
        Accept::always(),
    ]);
    nfa.add_init_state(0);
    nfa.add_transition(0, 0, CharRange::full());
    nfa.add_predicate(0, 1, Predicate(word.clone(), not_word.clone()));
    nfa.add_predicate(0, 1, Predicate(not_word.clone(), word.clone()));
    nfa.add_transition(1, 2, CharRange::single('a' as u32));
    nfa.add_predicate(2, 3, Predicate(word, not_word.clone()));
    nfa.add_predicate(2, 3, Predicate(not_word.clone(), not_word));
    nfa.remove_predicates();
    for s in 0..nfa.num_states() {
        assert!(nfa.states[s].transitions.predicates.is_empty());
    }
    assert_eq!(nfa.init, vec![0]);
    assert_eq!(&nfa.init_at_start[..1], &[0]);
    let mut again = nfa.clone();
    let mut none = regex_dfa::char_map::CharMultiMap::new();
    assert!(!again.remove_predicates_once(&mut none));
    assert!(again.same(&nfa));
}

#[test]
fn merging_utf8_sequences() {
    let merged = MergedUtf8Sequences::merge(&vec![
        vec![(0xE1, 0xEC), (0x80, 0xBF), (0x80, 0x8F)],
        vec![(0xE1, 0xEC), (0x80, 0xBF), (0xA0, 0xBF)],
    ]);
    assert_eq!(merged.head, vec![(0xE1, 0xEC), (0x80, 0xBF)]);
    assert_eq!(merged.last_byte, vec![(0x80, 0x8F), (0xA0, 0xBF)]);
    let all = MergedUtf8Sequences::merge_all(vec![
        vec![(0x61, 0x62)],
        vec![(0xD0, 0xD0), (0x80, 0x8F)],
        vec![(0xD0, 0xD0), (0xA0, 0xAF)],
        vec![(0xD1, 0xD1), (0x80, 0x8F)],
        vec![(0xD0, 0xD0), (0xB0, 0xBF)],
    ]);
    assert_eq!(all.len(), 4);
    assert_eq!(all[0].head, vec![]);
    assert_eq!(all[0].last_byte, vec![(0x61, 0x62)]);
    assert_eq!(all[1].head, vec![(0xD0, 0xD0)]);
    assert_eq!(all[1].last_byte, vec![(0x80, 0x8F), (0xA0, 0xAF)]);
    assert_eq!(all[2].head, vec![(0xD1, 0xD1)]);
    assert_eq!(all[3].head, vec![(0xD0, 0xD0)]);
    assert_eq!(all[3].last_byte, vec![(0xB0, 0xBF)]);
    assert!(MergedUtf8Sequences::merge_all(Vec::new()).is_empty());
}

#[test]
fn paths_along_utf8_sequences() {
    let mut nfa = automaton(never(2));
    assert_eq!(nfa.add_utf8_sequences(0, &vec![CharRange::single('a' as u32)], Some(1), 2), Ok(()));
    assert_eq!(nfa.num_states(), 2);
    assert_eq!(consuming(&nfa, 0), vec![(0x61, 0x61, 1)]);

    // Cyrillic, U+0400 to U+04FF, is [D0-D3][80-BF].
    let mut nfa = automaton(never(2));
    assert_eq!(
        nfa.add_utf8_sequences(0, &vec![CharRange::new(0x400, 0x4FF)], Some(1), 2),
        Err(Error::TooManyStates)
    );
    assert_eq!(nfa.num_states(), 2);
    assert!(consuming(&nfa, 0).is_empty());
    assert_eq!(nfa.add_utf8_sequences(0, &vec![CharRange::new(0x400, 0x4FF)], Some(1), 3), Ok(()));
    assert_eq!(nfa.num_states(), 3);
    assert_eq!(consuming(&nfa, 0), vec![(0xD0, 0xD3, 2)]);
    assert_eq!(consuming(&nfa, 2), vec![(0x80, 0xBF, 1)]);
    assert!(nfa.states[2].accept.is_never());

    // U+0400 to U+052F is [D0-D3][80-BF] and [D4][80-AF].
    let mut nfa = automaton(never(2));
    assert_eq!(nfa.add_utf8_sequences(0, &vec![CharRange::new(0x400, 0x52F)], Some(1), 9), Ok(()));
    assert_eq!(nfa.num_states(), 4);
    assert_eq!(consuming(&nfa, 0), vec![(0xD0, 0xD3, 2), (0xD4, 0xD4, 3)]);
    assert_eq!(consuming(&nfa, 3), vec![(0x80, 0xAF, 1)]);

    // Two ranges behind the same first byte share the state behind it.
    let mut nfa = automaton(never(2));
    let ranges = vec![CharRange::new(0x400, 0x40F), CharRange::new(0x420, 0x42F)];
    assert_eq!(nfa.add_utf8_sequences(0, &ranges, Some(1), 9), Ok(()));
    assert_eq!(nfa.num_states(), 3);
    assert_eq!(consuming(&nfa, 0), vec![(0xD0, 0xD0, 2)]);
    assert_eq!(consuming(&nfa, 2), vec![(0x80, 0x8F, 1), (0xA0, 0xAF, 1)]);

    // Surrogates have no encoding.
    let mut nfa = automaton(never(2));
    assert_eq!(nfa.add_utf8_sequences(0, &vec![CharRange::new(0xD800, 0xDFFF)], Some(1), 2), Ok(()));
    assert!(consuming(&nfa, 0).is_empty());
}

#[test]
fn a_path_without_target_ends_in_an_accepting_state() {
    let mut nfa = automaton(never(1));
    assert_eq!(nfa.add_utf8_sequences(0, &vec![CharRange::new(0x400, 0x40F)], None, 9), Ok(()));
    assert_eq!(nfa.num_states(), 3);
    assert_eq!(consuming(&nfa, 0), vec![(0xD0, 0xD0, 1)]);
    assert_eq!(consuming(&nfa, 1), vec![(0x80, 0x8F, 2)]);
    assert_eq!(nfa.states[2].dfa_accept, DfaAccept { at_eoi: true, otherwise: true, bytes_behind: 2 });
    assert_eq!(nfa.states[1].dfa_accept, DfaAccept::never());

    let mut nfa = automaton(never(1));
    let seq = MergedUtf8Sequences { head: vec![], last_byte: vec![(0x61, 0x61), (0x7A, 0x7A)] };
    nfa.add_utf8_sequence(0, None, &seq);
    assert_eq!(nfa.num_states(), 2);
    assert_eq!(consuming(&nfa, 0), vec![(0x61, 0x61, 1), (0x7A, 0x7A, 1)]);
    assert_eq!(nfa.states[1].dfa_accept, DfaAccept::accept(1));
}

#[test]
fn lowering_to_bytes_groups_the_transitions_by_target() {
    let mut nfa = automaton(never(3));
    nfa.add_init_state(0);
    nfa.add_transition(0, 2, CharRange::new(0x400, 0x40F));
    nfa.add_transition(0, 1, CharRange::single('x' as u32));
    nfa.add_transition(0, 2, CharRange::new(0x420, 0x42F));
    nfa.add_eps(1, 2);
    assert_eq!(nfa.clone().byte_me(3), Err(Error::TooManyStates));
    assert_eq!(nfa.byte_me(4), Ok(()));
    assert_eq!(nfa.num_states(), 4);
    assert_eq!(consuming(&nfa, 0), vec![(0x78, 0x78, 1), (0xD0, 0xD0, 3)]);
    assert_eq!(consuming(&nfa, 3), vec![(0x80, 0x8F, 2), (0xA0, 0xAF, 2)]);
    assert_eq!(nfa.states[1].transitions.eps, vec![2]);
    // Every transition is over a range of bytes that is not empty.
    for s in 0..nfa.num_states() {
        for (start, end, _) in consuming(&nfa, s) {
            assert!(start <= end && end <= 255);
        }
    }
}

#[test]
fn reversing_lists_the_transitions_by_the_state_they_come_from() {
    let mut nfa = automaton(never(3));
    nfa.add_transition(0, 2, CharRange::single('a' as u32));
    nfa.add_transition(1, 2, CharRange::single('b' as u32));
    nfa.add_transition(0, 2, CharRange::single('c' as u32));
    nfa.add_eps(1, 0);
    nfa.add_eps(0, 0);
    let rev = nfa.reversed();
    assert_eq!(
        consuming(&rev, 2),
        vec![('a' as u32, 'a' as u32, 0), ('c' as u32, 'c' as u32, 0), ('b' as u32, 'b' as u32, 1)]
    );
    assert_eq!(rev.states[0].transitions.eps, vec![0, 1]);
    assert!(consuming(&rev, 0).is_empty() && consuming(&rev, 1).is_empty());
}

#[test]
fn a_round_of_the_removal_takes_the_states_in_their_order() {
    let at_start = Predicate(
        PredicatePart { chars: CharSet::new(), at_boundary: true },
        PredicatePart { chars: CharSet::full(), at_boundary: true },
    );
    let at_end = Predicate(
        PredicatePart { chars: CharSet::full(), at_boundary: true },
        PredicatePart { chars: CharSet::new(), at_boundary: true },
    );
    let mut nfa = automaton(vec![
        Accept::never(),
        Accept::never(),
        Accept::never(),
        Accept::always(),
    ]);
    nfa.add_init_state(0);
    nfa.add_init_at_start_state(0);
    nfa.add_predicate(0, 1, at_start);
    nfa.add_transition(1, 2, CharRange::single('a' as u32));
    nfa.add_predicate(2, 3, at_end);
    let mut initial = regex_dfa::char_map::CharMultiMap::new();
    assert!(nfa.remove_predicates_once(&mut initial));
    // One new state for each predicate: first that of the state 0, then that of the state 2,
    // which is entered from wherever the state 2 is by then.
    assert_eq!(nfa.num_states(), 6);
    for s in 0..nfa.num_states() {
        assert!(nfa.states[s].transitions.predicates.is_empty());
    }
    assert_eq!(nfa.init, vec![0]);
    assert_eq!(nfa.init_at_start, vec![0, 4]);
    assert_eq!(initial.len(), 0);
    let a = 'a' as u32;
    assert_eq!(consuming(&nfa, 1), vec![(a, a, 2), (a, a, 5)]);
    assert_eq!(consuming(&nfa, 4), vec![(a, a, 2), (a, a, 5)]);
    assert!(consuming(&nfa, 5).is_empty());
    assert!(nfa.states[4].accept.is_never());
    assert!(nfa.states[5].accept.at_eoi && nfa.states[5].accept.at_char.is_empty());
    assert!(nfa.states[3].accept.is_always());
    assert!(!nfa.remove_predicates_once(&mut initial));
    assert_eq!(nfa.num_states(), 6);
}

#[test]
fn lowering_fails_on_too_few_states_only_where_there_is_something_to_lower() {
    let mut nfa = automaton(never(3));
    nfa.add_eps(0, 1);
    assert_eq!(nfa.byte_me(0), Ok(()));
    assert_eq!(nfa.byte_accept(0), Ok(()));
    nfa.add_transition(0, 1, CharRange::single('a' as u32));
    assert_eq!(nfa.clone().byte_me(2), Err(Error::TooManyStates));
    assert_eq!(nfa.byte_me(3), Ok(()));
    assert_eq!(Error::TooManyStates.description(), "State overflow");
}

#[test]
fn acceptance_over_bytes() {
    let mut only_a = CharSet::new();
    only_a.insert(CharRange::single('a' as u32));
    let mut nfa = automaton(vec![
        Accept { at_eoi: true, at_char: only_a },
        Accept::always(),
        Accept::never(),
    ]);
    assert_eq!(nfa.clone().byte_accept(2), Err(Error::TooManyStates));
    assert_eq!(nfa.clone().byte_accept(3), Ok(()));
    assert_eq!(nfa.byte_accept(10), Ok(()));
    assert_eq!(nfa.num_states(), 4);
    assert_eq!(nfa.states[0].dfa_accept, DfaAccept { at_eoi: true, otherwise: false, bytes_behind: 0 });
    assert_eq!(nfa.states[1].dfa_accept, DfaAccept { at_eoi: true, otherwise: true, bytes_behind: 0 });
    assert_eq!(nfa.states[2].dfa_accept, DfaAccept::never());
    assert_eq!(nfa.states[3].dfa_accept, DfaAccept { at_eoi: true, otherwise: true, bytes_behind: 1 });
    assert_eq!(consuming(&nfa, 0), vec![(0x61, 0x61, 3)]);
}

#[test]
fn conversion_to_a_byte_automaton() {
    let word = PredicatePart { chars: lower(), at_boundary: false };
    let not_word = PredicatePart { chars: lower().negated(), at_boundary: true };
    let mut nfa = automaton(vec![Accept::never(), Accept::never(), Accept::never(), Accept::always()]);
    nfa.add_init_state(0);
    nfa.add_transition(0, 1, CharRange::new(0x400, 0x4FF));
    nfa.add_predicate(1, 2, Predicate(not_word.clone(), word.clone()));
    nfa.add_predicate(1, 2, Predicate(word, not_word));
    nfa.add_transition(2, 3, CharRange::single('a' as u32));
    assert_eq!(nfa.clone().convert_to_byte_automaton(1), Err(Error::TooManyStates));
    assert_eq!(nfa.convert_to_byte_automaton(1000), Ok(()));
    for s in 0..nfa.num_states() {
        assert!(nfa.states[s].transitions.predicates.is_empty());
        for (_, end, _) in consuming(&nfa, s) {
            assert!(end <= 255);
        }
    }
    assert!(nfa.num_states() <= 1000);
}
