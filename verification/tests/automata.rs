use yoakke::bound::{LowerBound, UpperBound};
use yoakke::dfa::Automaton as Dfa;
use yoakke::interval::Interval;
use yoakke::nfa::Automaton as Nfa;
use yoakke::regex_ast::{GroupingElement, Node};
use yoakke::regex_parser::parse;

fn closure_ids(nfa: &Nfa<char, ()>, id: usize) -> Vec<usize> {
    let states = nfa.states();
    nfa.epsilon_closure(&states[id]).iter().map(|s| s.id()).collect()
}

#[test]
fn foo() {
    let rx = r"[A-Za-z_][A-Za-z_0-9]*";
    let ast = parse(rx).unwrap();
    let mut nf: Nfa<char, ()> = Nfa::new();
    nf.add_regex(&ast);
    let mut df = Dfa::from_nfa(nf, |a, _b| a);
    // The start, the state after one character and the state after more
    // characters of the identifier.
    assert!(!df.is_accepting(&df.start));
    let next = df.unique_state();
    assert!(next.id() >= 2);
}

#[test]
fn new_nfa_has_only_the_start() {
    let nfa: Nfa<char, ()> = Nfa::new();
    assert_eq!(nfa.states().len(), 1);
    assert_eq!(nfa.start.id(), 0);
    assert!(!nfa.is_accepting(&nfa.start));
    assert!(nfa.transitions_from(&nfa.start).is_none());
}

#[test]
fn unique_states_count_up() {
    let mut nfa: Nfa<char, u8> = Nfa::new();
    let a = nfa.unique_state();
    let b = nfa.unique_state();
    assert_eq!(a.id(), 1);
    assert_eq!(b.id(), 2);
    assert_eq!(nfa.states().len(), 3);
}

#[test]
fn accepting_values_are_kept() {
    let mut nfa: Nfa<char, u8> = Nfa::new();
    let a = nfa.unique_state();
    nfa.add_accepting_with_value(a, 7);
    assert_eq!(nfa.accepting_value(&a), Some(&7));
    assert!(nfa.is_accepting(&a));
    assert!(!nfa.is_accepting(&nfa.start));
    nfa.add_accepting(nfa.start);
    assert_eq!(nfa.accepting_value(&nfa.start), Some(&0));
}

#[test]
fn epsilon_closure_follows_chains_and_cycles() {
    let mut nfa: Nfa<char, ()> = Nfa::new();
    let a = nfa.unique_state();
    let b = nfa.unique_state();
    let c = nfa.unique_state();
    let _d = nfa.unique_state();
    nfa.add_epsilon_transition(nfa.start, a);
    nfa.add_epsilon_transition(a, b);
    nfa.add_epsilon_transition(b, a);
    nfa.add_epsilon_transition(b, c);
    assert_eq!(closure_ids(&nfa, 0), vec![0, 1, 2, 3]);
    assert_eq!(closure_ids(&nfa, 2), vec![1, 2, 3]);
    assert_eq!(closure_ids(&nfa, 3), vec![3]);
    assert_eq!(closure_ids(&nfa, 4), vec![4]);
}

#[test]
fn epsilon_transitions_are_not_repeated() {
    let mut nfa: Nfa<char, ()> = Nfa::new();
    let a = nfa.unique_state();
    nfa.add_epsilon_transition(nfa.start, a);
    nfa.add_epsilon_transition(nfa.start, a);
    assert_eq!(closure_ids(&nfa, 0), vec![0, 1]);
}

#[test]
fn transitions_unify_their_targets() {
    let mut nfa: Nfa<char, ()> = Nfa::new();
    let a = nfa.unique_state();
    let b = nfa.unique_state();
    let on = Interval::with_bounds(LowerBound::Included('a'), UpperBound::Included('z'));
    nfa.add_transition(nfa.start, on, a);
    nfa.add_transition(nfa.start, on, b);
    let map = nfa.transitions_from(&nfa.start).unwrap();
    assert_eq!(map.intervals.len(), 1);
    let targets: Vec<usize> = map.intervals[0].1.iter().map(|s| s.id()).collect();
    assert_eq!(targets, vec![1, 2]);
}

#[test]
fn literal_regex_builds_two_states() {
    let ast = parse("a").unwrap();
    let mut nfa: Nfa<char, ()> = Nfa::new();
    let (from, to) = nfa.add_regex(&ast);
    assert_eq!(from.id(), 1);
    assert_eq!(to.id(), 2);
    assert!(nfa.is_accepting(&to));
    assert_eq!(closure_ids(&nfa, 0), vec![0, 1]);
    let map = nfa.transitions_from(&from).unwrap();
    assert_eq!(map.intervals.len(), 1);
    assert_eq!(map.intervals[0].0, Interval::singleton('a'));
}

#[test]
fn alternative_regex_joins_both_branches() {
    let ast = parse("a|b").unwrap();
    let mut nfa: Nfa<char, ()> = Nfa::new();
    let (from, to) = nfa.add_regex(&ast);
    // Two new states around the fragments of 'a' and 'b'.
    assert_eq!(nfa.states().len(), 7);
    assert_eq!(closure_ids(&nfa, from.id()), vec![1, 3, 5]);
    assert!(nfa.is_accepting(&to));
}

#[test]
fn caret_in_a_grouping_is_a_literal() {
    let ast = parse("[^b]").unwrap();
    assert_eq!(
        *ast,
        Node::Grouping {
            negated: false,
            elements: vec![GroupingElement::Literal('^'), GroupingElement::Literal('b')],
        }
    );
}

#[test]
fn negated_grouping_takes_the_complement() {
    let ast = Node::Grouping { negated: true, elements: vec![GroupingElement::Literal('b')] };
    let mut nfa: Nfa<char, ()> = Nfa::new();
    let (from, _to) = nfa.add_regex(&ast);
    let map = nfa.transitions_from(&from).unwrap();
    assert_eq!(map.intervals.len(), 2);
    assert_eq!(map.intervals[0].0, Interval::with_bounds(LowerBound::Unbounded, UpperBound::Excluded('b')));
    assert_eq!(map.intervals[1].0, Interval::with_bounds(LowerBound::Excluded('b'), UpperBound::Unbounded));
}

#[test]
fn dfa_of_a_literal_has_two_states() {
    let ast = parse("a").unwrap();
    let mut nfa: Nfa<char, ()> = Nfa::new();
    nfa.add_regex(&ast);
    let mut dfa = Dfa::from_nfa(nfa, |a, _b| a);
    assert!(!dfa.is_accepting(&dfa.start));
    let next = dfa.unique_state();
    assert_eq!(next.id(), 2);
}

#[test]
fn dfa_unifies_accepting_values() {
    let mut nfa: Nfa<char, u32> = Nfa::new();
    let a = nfa.unique_state();
    let b = nfa.unique_state();
    nfa.add_epsilon_transition(nfa.start, a);
    nfa.add_epsilon_transition(nfa.start, b);
    nfa.add_accepting_with_value(a, 3);
    nfa.add_accepting_with_value(b, 4);
    let dfa = Dfa::from_nfa(nfa, |x, y| x * 10 + y);
    assert_eq!(dfa.accepting_value(&dfa.start), Some(&34));
}

#[test]
fn dfa_basics() {
    let mut dfa: Dfa<char, u8> = Dfa::new();
    assert_eq!(dfa.start.id(), 0);
    let s = dfa.unique_state();
    assert_eq!(s.id(), 1);
    dfa.add_accepting_with_value(s, 5);
    assert!(dfa.is_accepting(&s));
    assert_eq!(dfa.accepting_value(&s), Some(&5));
    dfa.add_accepting(dfa.start);
    assert_eq!(dfa.accepting_value(&dfa.start), Some(&0));
}

#[test]
fn automaton_of_a_single_regex() {
    let ast = parse("ab").unwrap();
    let nfa: Nfa<char, ()> = Nfa::from_regex(*ast);
    // Start state, two states per literal and the epsilon link between them.
    assert_eq!(nfa.states().len(), 5);
    let closure = closure_ids(&nfa, 0);
    assert_eq!(closure, vec![0, 1]);
    let accepting: Vec<usize> = nfa.states().iter().filter(|s| nfa.is_accepting(s)).map(|s| s.id()).collect();
    assert_eq!(accepting, vec![4]);
}

/// Whether the automaton reaches an accepting state reading `word`, found by
/// following epsilon closures and transitions.
fn nfa_accepts(nfa: &Nfa<char, ()>, word: &str) -> bool {
    let states = nfa.states();
    let mut current: Vec<usize> = nfa.epsilon_closure(&nfa.start).iter().map(|s| s.id()).collect();
    for c in word.chars() {
        let mut next: Vec<usize> = Vec::new();
        for &id in &current {
            if let Some(map) = nfa.transitions_from(&states[id]) {
                for (iv, targets) in &map.intervals {
                    if iv.contains(&c) {
                        for t in targets {
                            for r in nfa.epsilon_closure(t) {
                                if !next.contains(&r.id()) {
                                    next.push(r.id());
                                }
                            }
                        }
                    }
                }
            }
        }
        current = next;
    }
    current.iter().any(|&id| nfa.is_accepting(&states[id]))
}

#[test]
fn every_matching_word_is_read_to_the_accepting_state() {
    let ast = parse("a(b|[c-e])*f?").unwrap();
    let nfa: Nfa<char, ()> = Nfa::from_regex(*ast);
    for word in ["a", "ab", "abcde", "adf", "af", "abbbbf"] {
        assert!(nfa_accepts(&nfa, word), "{}", word);
    }
    for word in ["", "b", "ag", "aff", "fa"] {
        assert!(!nfa_accepts(&nfa, word), "{}", word);
    }
}

/// Whether the deterministic automaton reads `word` to an accepting state.
fn dfa_accepts(dfa: &Dfa<char, ()>, word: &str) -> bool {
    let states = dfa.states();
    let mut current = dfa.start;
    for c in word.chars() {
        let next = match dfa.transitions_from(&current) {
            Some(map) => map.intervals.iter().find(|(iv, _)| iv.contains(&c)).map(|(_, t)| *t),
            None => None,
        };
        match next {
            Some(t) => current = states[t.id()],
            None => return false,
        }
    }
    dfa.is_accepting(&current)
}

#[test]
fn determinized_automaton_accepts_what_the_nfa_accepts() {
    let rx = "a(b|[c-e])*f?";
    let nfa: Nfa<char, ()> = Nfa::from_regex(*parse(rx).unwrap());
    let dfa = Dfa::from_nfa(Nfa::from_regex(*parse(rx).unwrap()), |a, _b| a);
    for word in ["a", "ab", "abcde", "adf", "af", "abbbbf", "", "b", "ag", "aff", "fa", "abfb"] {
        assert_eq!(dfa_accepts(&dfa, word), nfa_accepts(&nfa, word), "{}", word);
    }
    assert!(dfa_accepts(&dfa, "acef"));
    assert!(!dfa_accepts(&dfa, "acefe"));
}

#[test]
fn escaped_special_characters_are_literals() {
    assert_eq!(*parse(r"\(").unwrap(), Node::Literal('('));
    assert_eq!(
        *parse(r"\*a").unwrap(),
        Node::Sequence { first: Box::new(Node::Literal('*')), second: Box::new(Node::Literal('a')) }
    );
    assert_eq!(
        *parse(r"[\]x]").unwrap(),
        Node::Grouping { negated: false, elements: vec![GroupingElement::Literal(']'), GroupingElement::Literal('x')] }
    );
    assert!(parse(r"\a").is_err());
    assert!(parse(r"\").is_err());
}

#[test]
fn dfa_unifies_in_ascending_order_of_the_nfa_states() {
    let mut nfa: Nfa<char, u32> = Nfa::new();
    let a = nfa.unique_state();
    let b = nfa.unique_state();
    let c = nfa.unique_state();
    nfa.add_epsilon_transition(nfa.start, c);
    nfa.add_epsilon_transition(nfa.start, a);
    nfa.add_epsilon_transition(a, b);
    nfa.add_accepting_with_value(a, 1);
    nfa.add_accepting_with_value(b, 2);
    nfa.add_accepting_with_value(c, 3);
    let dfa = Dfa::from_nfa(nfa, |x, y| x * 10 + y);
    assert_eq!(dfa.accepting_value(&dfa.start), Some(&123));
}

#[test]
fn a_transition_on_an_empty_interval_is_kept() {
    let mut nfa: Nfa<char, ()> = Nfa::new();
    let a = nfa.unique_state();
    nfa.add_transition(nfa.start, Interval::with_bounds(LowerBound::Included('e'), UpperBound::Excluded('e')), a);
    let m = nfa.transitions_from(&nfa.start).unwrap();
    assert_eq!(m.intervals.len(), 1);
    assert_eq!(m.intervals[0].1.len(), 1);
    assert_eq!(m.intervals[0].1[0].id(), a.id());
}

#[test]
fn an_added_epsilon_transition_joins_the_closure_of_its_target() {
    let mut nfa: Nfa<char, ()> = Nfa::new();
    let a = nfa.unique_state();
    let b = nfa.unique_state();
    let c = nfa.unique_state();
    nfa.add_epsilon_transition(b, c);
    nfa.add_epsilon_transition(nfa.start, a);
    assert_eq!(closure_ids(&nfa, 0), vec![0, 1]);
    // The start reaches `a`, so it now reaches what `b` reaches too.
    nfa.add_epsilon_transition(a, b);
    assert_eq!(closure_ids(&nfa, 0), vec![0, 1, 2, 3]);
    assert_eq!(closure_ids(&nfa, 1), vec![1, 2, 3]);
    // `c` does not reach `a`: its closure stays.
    assert_eq!(closure_ids(&nfa, 3), vec![3]);
}
