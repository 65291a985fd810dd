use yoakke::dfa::Automaton as Dfa;
use yoakke::dfa_lexer::{dfa_next_lexeme, lexer_automaton, AcceptingState, Lexeme, LexerBuildError};
use yoakke::lexer::LexerState;
use yoakke::token_defs::{LexerData, TokenDefinition};

fn def(variant: &str, regex: &str, precedence: usize, ignore: bool) -> TokenDefinition {
    TokenDefinition { variant: variant.to_string(), regex: regex.to_string(), precedence, ignore }
}

fn data(tokens: Vec<TokenDefinition>) -> LexerData {
    LexerData { enum_name: "K".to_string(), err_variant: "Error".to_string(), end_variant: "End".to_string(), tokens }
}

fn build(tokens: Vec<TokenDefinition>) -> Dfa<char, AcceptingState> {
    lexer_automaton(&data(tokens)).unwrap()
}

#[test]
fn a_pattern_that_does_not_parse_is_reported_first() {
    let r = lexer_automaton(&data(vec![def("A", "a", 1, false), def("B", "(", 0, false), def("C", "[", 0, false)]));
    assert!(matches!(r, Err(LexerBuildError::RegexSyntax(1))));
}

#[test]
fn overlapping_definitions_of_equal_precedence_conflict() {
    let r = lexer_automaton(&data(vec![def("A", "[a-c]+", 0, false), def("B", "[a-z]+", 0, false)]));
    assert!(matches!(r, Err(LexerBuildError::Conflict(0, 1))));
}

#[test]
fn disjoint_definitions_of_equal_precedence_do_not_conflict() {
    let r = lexer_automaton(&data(vec![def("A", "[a-c]+", 0, false), def("B", "[x-z]+", 0, false)]));
    assert!(r.is_ok());
}

#[test]
fn the_longest_match_is_read() {
    let dfa = build(vec![def("A", "a", 1, false), def("As", "a+", 0, false)]);
    let (st, kind, look) = dfa_next_lexeme(&dfa, "aab", &LexerState::new());
    assert_eq!(kind, Some(Lexeme::Definition(1)));
    assert_eq!(st.source_index, 2);
    assert_eq!(st.last_char, Some('a'));
    assert_eq!(st.position.column, 2);
    // The automaton looked at the `b` that stopped it.
    assert_eq!(look, 3);
}

#[test]
fn the_higher_precedence_wins_on_the_same_match() {
    let dfa = build(vec![def("Ident", "[a-z]+", 0, false), def("If", "if", 1, false)]);
    let (st, kind, look) = dfa_next_lexeme(&dfa, "if", &LexerState::new());
    assert_eq!(kind, Some(Lexeme::Definition(1)));
    assert_eq!((st.source_index, look), (2, 2));
    let (_, kind, _) = dfa_next_lexeme(&dfa, "ifs", &LexerState::new());
    assert_eq!(kind, Some(Lexeme::Definition(0)));
}

#[test]
fn an_ignored_definition_reads_no_kind() {
    let dfa = build(vec![def("Space", " ", 0, true), def("X", "x", 0, false)]);
    let (st, kind, look) = dfa_next_lexeme(&dfa, " x", &LexerState::new());
    assert_eq!(kind, None);
    assert_eq!((st.source_index, look), (1, 2));
    let (st, kind, _) = dfa_next_lexeme(&dfa, " x", &st);
    assert_eq!(kind, Some(Lexeme::Definition(1)));
    assert_eq!(st.source_index, 2);
}

#[test]
fn an_unknown_character_is_an_error_of_one_character() {
    let dfa = build(vec![def("X", "xy", 0, false)]);
    let (st, kind, look) = dfa_next_lexeme(&dfa, "xz", &LexerState::new());
    assert_eq!(kind, Some(Lexeme::Error));
    assert_eq!(st.source_index, 1);
    assert_eq!(look, 2);
    let (st, kind, look) = dfa_next_lexeme(&dfa, "é", &LexerState::new());
    assert_eq!(kind, Some(Lexeme::Error));
    assert_eq!((st.source_index, look), (2, 2));
}

#[test]
fn the_end_of_input_keeps_the_state() {
    let dfa = build(vec![def("X", "x", 0, false)]);
    let mut start = LexerState::new();
    start.source_index = 1;
    start.last_char = Some('x');
    start.position.column = 1;
    let (st, kind, look) = dfa_next_lexeme(&dfa, "x", &start);
    assert_eq!(kind, Some(Lexeme::End));
    assert_eq!(st, start);
    assert_eq!(look, 1);
}

#[test]
fn lines_advance_at_line_breaks() {
    let dfa = build(vec![def("B", "b", 0, false)]);
    let src = "b\r\nb\rb";
    let (st, kind, _) = dfa_next_lexeme(&dfa, src, &LexerState::new());
    assert_eq!(kind, Some(Lexeme::Definition(0)));
    assert_eq!((st.position.line, st.position.column), (0, 1));
    // A carriage return is a control character: no column.
    let (st, kind, _) = dfa_next_lexeme(&dfa, src, &st);
    assert_eq!(kind, Some(Lexeme::Error));
    assert_eq!((st.position.line, st.position.column), (0, 1));
    // The line feed after it makes one line break with it.
    let (st, kind, _) = dfa_next_lexeme(&dfa, src, &st);
    assert_eq!(kind, Some(Lexeme::Error));
    assert_eq!((st.position.line, st.position.column), (1, 0));
    let (st, _, _) = dfa_next_lexeme(&dfa, src, &st);
    assert_eq!((st.position.line, st.position.column), (1, 1));
    let (st, _, _) = dfa_next_lexeme(&dfa, src, &st);
    // A lone carriage return breaks the line at the next character.
    let (st, kind, _) = dfa_next_lexeme(&dfa, src, &st);
    assert_eq!(kind, Some(Lexeme::Definition(0)));
    assert_eq!((st.position.line, st.position.column), (2, 0));
    assert_eq!(st.source_index, 6);
    let (end, kind, _) = dfa_next_lexeme(&dfa, src, &st);
    assert_eq!(kind, Some(Lexeme::End));
    assert_eq!(end, st);
}
