//! The removal of predicates and the lowering to bytes, on automata of regular expressions.

use regex_dfa::char_map::{CharMap, CharRange, CharSet};
use regex_dfa::nfa::Nfa;
use regex_dfa::transition::{Accept, Predicate, PredicatePart};
use regex_syntax::{Expr, Repeater};

struct NfaBuilder {
    auto: Nfa,
}

/// The characters that `\w` stands for.
fn word_chars() -> CharSet {
    let mut set = CharSet::new();
    if let Ok(Expr::Class(class)) = Expr::parse(r"\w") {
        for r in class.iter() {
            set.insert(CharRange::new(r.start as u32, r.end as u32));
        }
    }
    set
}

fn word_char() -> PredicatePart {
    PredicatePart { chars: word_chars(), at_boundary: false }
}

fn not_word_char() -> PredicatePart {
    PredicatePart { chars: word_chars().negated(), at_boundary: true }
}

fn anything() -> PredicatePart {
    PredicatePart { chars: CharSet::full(), at_boundary: true }
}

fn boundary() -> PredicatePart {
    PredicatePart { chars: CharSet::new(), at_boundary: true }
}

fn newline() -> PredicatePart {
    let mut chars = CharSet::new();
    chars.insert(CharRange::single('\n' as u32));
    PredicatePart { chars, at_boundary: true }
}

/// The number of states that the expression takes.
fn expr_len(e: &Expr) -> Result<usize, String> {
    Ok(match e {
        Expr::Empty => 2,
        Expr::Literal { chars, .. } => chars.len() + 1,
        Expr::AnyChar | Expr::AnyCharNoNL | Expr::Class(_) => 2,
        Expr::StartLine
        | Expr::EndLine
        | Expr::StartText
        | Expr::EndText
        | Expr::WordBoundary
        | Expr::NotWordBoundary => 2,
        Expr::Group { e, .. } => expr_len(e)?,
        Expr::Repeat { e, r, .. } => match r {
            Repeater::ZeroOrOne | Repeater::ZeroOrMore | Repeater::OneOrMore => expr_len(e)?,
            Repeater::Range { max: Some(0), .. } => 2,
            Repeater::Range { min, max } => {
                let copies = match max {
                    Some(max) => (*max).max(*min),
                    None => *min + 1,
                } as usize;
                copies * expr_len(e)?
            }
        },
        Expr::Concat(es) => {
            let mut n = 0;
            for e in es {
                n += expr_len(e)?;
            }
            n.max(2)
        }
        Expr::Alternate(es) => {
            let mut n = 2;
            for e in es {
                n += expr_len(e)?;
            }
            n
        }
        _ => return Err(String::from("expressions over bytes")),
    })
}

impl NfaBuilder {
    fn from_expr(expr: &Expr) -> Result<NfaBuilder, String> {
        let len = expr_len(expr)?;
        let mut ret = NfaBuilder { auto: Nfa::with_capacity(len) };
        for i in 0..len {
            ret.auto.add_state(if i + 1 == len { Accept::always() } else { Accept::never() });
        }
        ret.auto.add_init_state(0);
        ret.add_expr(expr, 0)?;
        Ok(ret)
    }

    fn to_automaton(self) -> Nfa {
        self.auto
    }

    fn transition(&mut self, from: usize, to: usize, r: CharRange) {
        assert!(from < self.auto.num_states() && to < self.auto.num_states(), "invalid state");
        self.auto.add_transition(from, to, r);
    }

    fn eps(&mut self, from: usize, to: usize) {
        assert!(from < self.auto.num_states() && to < self.auto.num_states(), "invalid state");
        self.auto.add_eps(from, to);
    }

    fn predicate(&mut self, from: usize, to: usize, behind: PredicatePart, ahead: PredicatePart) {
        assert!(from < self.auto.num_states() && to < self.auto.num_states(), "invalid state");
        self.auto.add_predicate(from, to, Predicate(behind, ahead));
    }

    /// Adds the expression from the state `start` on, and gives the state in which it ends.
    fn add_expr(&mut self, e: &Expr, start: usize) -> Result<usize, String> {
        let len = expr_len(e)?;
        let end = start + len - 1;
        match e {
            Expr::Empty => self.eps(start, end),
            Expr::Literal { chars, casei } => {
                for (i, ch) in chars.iter().enumerate() {
                    self.transition(start + i, start + i + 1, CharRange::single(*ch as u32));
                    if *casei {
                        for other in ch.to_lowercase().chain(ch.to_uppercase()) {
                            if other != *ch {
                                self.transition(
                                    start + i,
                                    start + i + 1,
                                    CharRange::single(other as u32),
                                );
                            }
                        }
                    }
                }
            }
            Expr::AnyChar => self.transition(start, end, CharRange::full()),
            Expr::AnyCharNoNL => {
                self.transition(start, end, CharRange::new(0, '\n' as u32 - 1));
                self.transition(start, end, CharRange::new('\n' as u32 + 1, u32::MAX));
            }
            Expr::Class(class) => {
                for r in class.iter() {
                    self.transition(start, end, CharRange::new(r.start as u32, r.end as u32));
                }
            }
            Expr::StartText => self.predicate(start, end, boundary(), anything()),
            Expr::EndText => self.predicate(start, end, anything(), boundary()),
            Expr::StartLine => self.predicate(start, end, newline(), anything()),
            Expr::EndLine => self.predicate(start, end, anything(), newline()),
            Expr::WordBoundary => {
                self.predicate(start, end, word_char(), not_word_char());
                self.predicate(start, end, not_word_char(), word_char());
            }
            Expr::NotWordBoundary => {
                self.predicate(start, end, word_char(), word_char());
                self.predicate(start, end, not_word_char(), not_word_char());
            }
            Expr::Group { e, .. } => {
                self.add_expr(e, start)?;
            }
            Expr::Repeat { r: Repeater::Range { max: Some(0), .. }, .. } => self.eps(start, end),
            Expr::Repeat { e, r, .. } => {
                let inner = expr_len(e)?;
                let copies = len / inner;
                let (min, max) = match r {
                    Repeater::ZeroOrOne => (0, Some(1)),
                    Repeater::ZeroOrMore => (0, None),
                    Repeater::OneOrMore => (1, None),
                    Repeater::Range { min, max } => (*min as usize, max.map(|m| m as usize)),
                };
                for c in 0..copies {
                    let s = start + c * inner;
                    let t = self.add_expr(e, s)?;
                    if c >= min {
                        self.eps(s, t);
                    }
                    if max.is_none() && c + 1 == copies {
                        self.eps(t, s);
                    }
                    if c + 1 < copies {
                        self.eps(t, t + 1);
                    }
                }
            }
            Expr::Concat(es) => {
                let mut cur = start;
                for (i, e) in es.iter().enumerate() {
                    let e_end = self.add_expr(e, cur)?;
                    if i + 1 < es.len() {
                        self.eps(e_end, e_end + 1);
                    } else if e_end != end {
                        self.eps(e_end, end);
                    }
                    cur = e_end + 1;
                }
                if es.is_empty() {
                    self.eps(start, end);
                }
            }
            Expr::Alternate(es) => {
                let mut cur = start + 1;
                for e in es {
                    self.eps(start, cur);
                    let e_end = self.add_expr(e, cur)?;
                    self.eps(e_end, end);
                    cur = e_end + 1;
                }
            }
            _ => return Err(String::from("expressions over bytes")),
        }
        Ok(end)
    }
}

fn from_regex(re: &str) -> Result<Nfa, String> {
    let expr = Expr::parse(re).map_err(|e| format!("{}", e))?;
    NfaBuilder::from_expr(&expr).map(|b| b.to_automaton())
}

fn word_char_map(word_state: usize, non_word_state: usize) -> CharMap<Vec<usize>> {
    let mut entries: Vec<(CharRange, Vec<usize>)> = Vec::new();
    for range in word_chars().ranges() {
        entries.push((*range, vec![word_state]));
    }
    for range in word_chars().negated().ranges() {
        entries.push((*range, vec![non_word_state]));
    }
    entries.sort_by_key(|e| e.0.start);
    CharMap::from_vec(entries)
}

#[test]
fn test_predicate_beginning() {
    let mut nfa = from_regex("^a").unwrap();
    // There should be a beginning predicate between states 0 and 1, an eps transition from 1
    // to 2, and an 'a' transition from 2 to 3.
    assert_eq!(nfa.states.len(), 4);
    nfa.remove_predicates();
    assert_eq!(nfa.states.len(), 5);

    let mut target = Nfa::with_capacity(6);
    target.add_state(Accept::never());
    target.add_state(Accept::never());
    target.add_state(Accept::never());
    target.add_state(Accept::always());
    target.add_state(Accept::never());
    target.add_transition(2, 3, CharRange::single('a' as u32));
    target.add_transition(4, 3, CharRange::single('a' as u32));
    target.add_eps(1, 2);
    target.init.push(0);
    target.init_at_start.push(0);
    target.init_at_start.push(4);
    assert!(nfa.same(&target))
}

#[test]
fn test_word_boundary_beginning() {
    let mut nfa = from_regex(r"\ba").unwrap();
    // There should be word boundary predicates between states 0 and 1, an eps transition from
    // 1 to 2, and an 'a' transition from 2 to 3. There will also be a useless state 4.
    assert_eq!(nfa.states.len(), 4);
    nfa.remove_predicates();
    assert_eq!(nfa.states.len(), 6);

    let mut target = Nfa::with_capacity(6);
    target.add_state(Accept::never());
    target.add_state(Accept::never());
    target.add_state(Accept::never());
    target.add_state(Accept::always());
    target.add_state(Accept::never());
    target.add_state(Accept::never());
    target.add_transition(2, 3, CharRange::single('a' as u32));
    target.add_transition(5, 3, CharRange::single('a' as u32));
    target.add_eps(1, 2);
    target.init.push(0);
    target.init_at_start.push(0);
    target.init_at_start.push(5);
    target.init_after_char = word_char_map(4, 5);
    assert!(nfa.same(&target))
}

#[test]
fn test_word_boundary_end() {
    let mut nfa = from_regex(r"a\b").unwrap();
    assert_eq!(nfa.states.len(), 4);
    nfa.remove_predicates();
    assert_eq!(nfa.states.len(), 6);

    let mut target = Nfa::with_capacity(6);
    target.add_state(Accept::never());
    target.add_state(Accept::never());
    target.add_state(Accept::never());
    target.add_state(Accept::always());
    target.add_state(Accept { at_eoi: true, at_char: word_chars().negated() });
    target.add_state(Accept { at_eoi: false, at_char: word_chars() });
    target.add_transition(0, 1, CharRange::single('a' as u32));
    target.add_transition(0, 4, CharRange::single('a' as u32));
    target.add_eps(1, 2);
    target.init.push(0);
    target.init_at_start.push(0);
    assert!(nfa.same(&target))
}

#[test]
fn test_max_size() {
    let nfa = from_regex(r"a[0-9]b").unwrap();
    assert!(nfa.clone().byte_me(10).is_ok());
    assert!(nfa.clone().byte_me(5).is_err());

    let mut nfa = from_regex(r"\ba\b").unwrap();
    nfa.remove_predicates();
    assert!(nfa.clone().byte_me(10).is_ok());
    assert!(nfa.clone().byte_me(5).is_err());
    assert!(nfa.clone().byte_accept(2000).is_ok());
    assert!(nfa.clone().byte_accept(500).is_err());

    let mut nfa = from_regex(r"blah.*\ba\b.*blah").unwrap();
    nfa.remove_predicates();
    assert!(nfa.clone().byte_me(10000).is_ok());
    assert!(nfa.clone().byte_me(8000).is_err());
}
