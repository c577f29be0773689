//! The threaded engine, and the programs that it runs.

use regex_dfa::char_map::{CharMap, CharRange, CharSet};
use regex_dfa::program::{InitStates, Inst, Program};
use regex_dfa::threaded::{NoSkipper, ProgThreads, Skipper, Text, Thread, ThreadedEngine, Threads};
use regex_dfa::transition::Accept;

fn ascii_word() -> CharSet {
    let mut set = CharSet::new();
    set.insert(CharRange::new('0' as u32, '9' as u32));
    set.insert(CharRange::new('A' as u32, 'Z' as u32));
    set.insert(CharRange::single('_' as u32));
    set.insert(CharRange::new('a' as u32, 'z' as u32));
    set
}

/// The program of `a+`, for the shortest match: an `a`, and then whatever.
fn a_plus() -> Program {
    Program {
        insts: vec![Inst::Char('a'), Inst::Acc(Accept::always()), Inst::Branch(CharMap::new())],
        init: InitStates {
            init_after_char: CharMap::new(),
            init_at_start: Some(0),
            init_otherwise: Some(0),
        },
    }
}

/// The program of `\ba\b`: it starts at the beginning of the input and behind a character
/// that is no word character, and accepts at the end and before such a character.
fn word_a() -> Program {
    let mut after: CharMap<usize> = CharMap::new();
    for r in ascii_word().negated().ranges() {
        after.push(*r, 0);
    }
    Program {
        insts: vec![
            Inst::Char('a'),
            Inst::Acc(Accept { at_eoi: true, at_char: ascii_word().negated() }),
            Inst::Branch(CharMap::new()),
        ],
        init: InitStates { init_after_char: after, init_at_start: Some(0), init_otherwise: None },
    }
}

#[test]
fn threads_add_once_for_each_state() {
    let mut t = Threads::with_capacity(3);
    assert_eq!(t.states, vec![0, 0, 0]);
    assert!(t.threads.is_empty());
    assert!(t.starts_after(0));
    t.add(1, 4);
    t.add(1, 5);
    t.add(0, 6);
    assert_eq!(
        t.threads,
        vec![Thread { state: 1, start_idx: 4 }, Thread { state: 0, start_idx: 6 }]
    );
    assert_eq!(t.states, vec![1, 1, 0]);
    assert!(t.starts_after(4));
    assert!(!t.starts_after(5));
}

#[test]
fn prog_threads_swap_and_clear() {
    let mut p = ProgThreads::with_capacity(2);
    p.next.add(1, 3);
    p.cur.add(0, 2);
    p.swap();
    assert_eq!(p.cur.threads, vec![Thread { state: 1, start_idx: 3 }]);
    assert_eq!(p.cur.states, vec![0, 1]);
    assert!(p.next.threads.is_empty());
    assert_eq!(p.next.states, vec![1, 0]);
    p.clear();
    assert!(p.cur.threads.is_empty() && p.next.threads.is_empty());
    assert_eq!(p.cur.states, vec![0, 0]);
    assert_eq!(p.next.states, vec![0, 0]);
}

#[test]
fn program_steps() {
    let prog = word_a();
    assert_eq!(prog.step(0, 'a'), (Some(1), false, false));
    assert_eq!(prog.step(0, 'b'), (None, false, false));
    assert_eq!(prog.step(1, ' '), (Some(2), true, true));
    assert_eq!(prog.step(1, 'x'), (Some(2), false, true));
    assert_eq!(prog.step(2, 'x'), (None, false, false));
    assert!(prog.check_eoi(1));
    assert!(!prog.check_eoi(0));
    assert_eq!(prog.init.state_after(None), Some(0));
    assert_eq!(prog.init.state_after(Some(' ')), Some(0));
    assert_eq!(prog.init.state_after(Some('a')), None);
    assert_eq!(prog.init.constant(), None);
    assert_eq!(a_plus().init.constant(), Some(0));
}

#[test]
fn engine_finds_the_first_and_shortest_match() {
    let engine = ThreadedEngine::new(a_plus());
    assert_eq!(engine.shortest_match("baaac"), Some((1, 2)));
    assert_eq!(engine.shortest_match("a"), Some((0, 1)));
    assert_eq!(engine.shortest_match("bbb"), None);
    assert_eq!(engine.shortest_match(""), None);
}

#[test]
fn engine_minds_word_boundaries() {
    let engine = ThreadedEngine::new(word_a());
    assert_eq!(engine.shortest_match(" a "), Some((1, 2)));
    assert_eq!(engine.shortest_match("ba"), None);
    assert_eq!(engine.shortest_match("a"), Some((0, 1)));
    assert_eq!(engine.shortest_match("ab a"), Some((3, 4)));
}

#[test]
fn engine_reports_indices_of_bytes() {
    let engine = ThreadedEngine::new(a_plus());
    // 'é' takes two bytes and '€' three.
    assert_eq!(engine.shortest_match("é€a!"), Some((5, 6)));
    assert_eq!(engine.shortest_match("éa"), Some((2, 3)));
}

#[test]
fn engine_without_program_finds_nothing() {
    let prog = Program {
        insts: Vec::new(),
        init: InitStates { init_after_char: CharMap::new(), init_at_start: None, init_otherwise: None },
    };
    assert_eq!(ThreadedEngine::new(prog).shortest_match("abc"), None);
}

#[test]
fn text_has_the_first_byte_of_each_character() {
    let text = Text::new("aé€𝄞z");
    assert_eq!(text.chars, vec![(0, 'a'), (1, 'é'), (3, '€'), (6, '𝄞'), (10, 'z')]);
    assert_eq!(text.len, 11);
    assert_eq!(text.byte_index(2), 3);
    assert_eq!(text.byte_index(5), 11);
    assert_eq!(Text::new("").len, 0);
}

#[test]
fn no_skipper_skips_to_where_a_match_may_begin() {
    let prog = word_a();
    let text = Text::new("xy a");
    let skip = NoSkipper(&prog.init);
    assert_eq!(skip.skip(&text, 0, None), Some((0, 0, 0)));
    assert_eq!(skip.skip(&text, 1, Some('x')), Some((3, 3, 0)));
    assert_eq!(skip.skip(&text, 4, Some('a')), None);
    let engine = ThreadedEngine::new(word_a());
    assert_eq!(engine.shortest_match_(&text, &NoSkipper(&engine.prog.init)), Some((3, 4)));
}

/// The program of `ab*c|b`, for the shortest match.
fn a_bs_c_or_b() -> Program {
    let mut first: CharMap<usize> = CharMap::new();
    first.push(CharRange::single('a' as u32), 1);
    first.push(CharRange::single('b' as u32), 2);
    let mut then: CharMap<usize> = CharMap::new();
    then.push(CharRange::single('b' as u32), 1);
    then.push(CharRange::single('c' as u32), 2);
    Program {
        insts: vec![
            Inst::Branch(first),
            Inst::Branch(then),
            Inst::Acc(Accept::always()),
            Inst::Branch(CharMap::new()),
        ],
        init: InitStates {
            init_after_char: CharMap::new(),
            init_at_start: Some(0),
            init_otherwise: Some(0),
        },
    }
}

#[test]
fn engine_keeps_the_match_it_remembers_when_the_text_ends() {
    let engine = ThreadedEngine::new(a_bs_c_or_b());
    // The thread that began at 0 lives to the end and never accepts; the match of the
    // first `b` is remembered meanwhile, and begins before the match of the second.
    assert_eq!(engine.shortest_match("abb"), Some((1, 2)));
    assert_eq!(engine.shortest_match("ab"), Some((1, 2)));
    assert_eq!(engine.shortest_match("abbc"), Some((0, 4)));
    assert_eq!(engine.shortest_match("a"), None);
}

/// The first match by trying every beginning in turn, and from each the ends in turn.
fn first_match_by_search(prog: &Program, s: &str) -> Option<(usize, usize)> {
    let chars: Vec<(usize, char)> = s.char_indices().collect();
    let n = chars.len();
    let byte = |i: usize| if i < n { chars[i].0 } else { s.len() };
    for i in 0..=n {
        let last = if i == 0 { None } else { Some(chars[i - 1].1) };
        let mut state = match prog.init.state_after(last) {
            Some(q) => q,
            None => continue,
        };
        for j in i..=n {
            if j == n {
                if prog.check_eoi(state) {
                    return Some((byte(i), byte(j)));
                }
                break;
            }
            let ch = chars[j].1;
            let (mut next, accept, retry) = prog.step(state, ch);
            if accept {
                return Some((byte(i), byte(j)));
            }
            if retry {
                next = prog.step(next.unwrap(), ch).0;
            }
            match next {
                Some(q) => state = q,
                None => break,
            }
        }
    }
    None
}

fn texts_up_to(len: usize, letters: &[char]) -> Vec<String> {
    let mut all = vec![String::new()];
    let mut from = 0;
    for _ in 0..len {
        let upto = all.len();
        for k in from..upto {
            for &c in letters {
                let mut t = all[k].clone();
                t.push(c);
                all.push(t);
            }
        }
        from = upto;
    }
    all
}

#[test]
fn engine_finds_what_a_search_through_all_beginnings_finds() {
    let letters = ['a', 'b', 'c', ' ', 'é'];
    let programs: Vec<fn() -> Program> = vec![a_plus, word_a, a_bs_c_or_b];
    for make in programs {
        let engine = ThreadedEngine::new(make());
        let prog = make();
        for text in texts_up_to(5, &letters) {
            assert_eq!(
                engine.shortest_match(&text),
                first_match_by_search(&prog, &text),
                "on {:?}",
                text
            );
        }
    }
}
