use yoakke::lexer::{Lexer, LexerState, StandardLexer};
use yoakke::position::Position;
use yoakke::token::{Token, TokenType};

/// Words of letters, single other characters, spaces ignored.
#[derive(Debug, Clone, Copy, PartialEq, Eq)]
enum Kind {
    Word,
    Other,
    End,
}

impl TokenType for Kind {
    fn ends_input(&self) -> bool {
        *self == Kind::End
    }

    fn lexeme(src: &str, state: LexerState) -> (LexerState, Option<Self>, usize) {
        Self::next_lexeme_internal(src, &state)
    }

    fn is_end(&self) -> bool {
        *self == Kind::End
    }

    fn next_lexeme_internal(src: &str, state: &LexerState) -> (LexerState, Option<Self>, usize) {
        let bytes = src.as_bytes();
        let mut next = state.clone();
        if state.source_index >= bytes.len() {
            return (next, Some(Kind::End), state.source_index);
        }
        let c = bytes[state.source_index];
        next.source_index += 1;
        next.position.advance_columns(1);
        next.last_char = Some(c as char);
        if c == b' ' {
            let look = next.source_index;
            return (next, None, look);
        }
        if c.is_ascii_alphabetic() {
            while next.source_index < bytes.len() && bytes[next.source_index].is_ascii_alphabetic() {
                next.last_char = Some(bytes[next.source_index] as char);
                next.source_index += 1;
                next.position.advance_columns(1);
            }
            let look = if next.source_index < bytes.len() { next.source_index + 1 } else { next.source_index };
            return (next, Some(Kind::Word), look);
        }
        let look = next.source_index;
        (next, Some(Kind::Other), look)
    }
}

fn lex_all(lexer: &StandardLexer<Kind>) -> Vec<Token<Kind>> {
    let mut it = lexer.iter();
    let mut out = Vec::new();
    while let Some(t) = it.next() {
        out.push(t);
    }
    out
}

#[test]
fn position_moves() {
    let mut p = Position::new();
    assert_eq!((p.line, p.column), (0, 0));
    p.advance_columns(3);
    assert_eq!((p.line, p.column), (0, 3));
    p.newline();
    assert_eq!((p.line, p.column), (1, 0));
}

#[test]
fn token_shift_moves_the_range() {
    let mut t = Token { range: 4..7, kind: Kind::Word, position: Position::new(), lookahead: 1 };
    t.shift(3);
    assert_eq!(t.range, 7..10);
    t.shift(-7);
    assert_eq!(t.range, 0..3);
    assert_eq!(t.lookahead, 1);
}

#[test]
fn lexer_state_starts_at_zero() {
    let s = LexerState::new();
    assert_eq!(s.source_index, 0);
    assert_eq!(s.position, Position::new());
    assert_eq!(s.last_char, None);
}

#[test]
fn empty_source_gives_the_end_once() {
    let lexer = Kind::lexer();
    assert_eq!(lexer.source(), "");
    let tokens = lex_all(&lexer);
    assert_eq!(tokens.len(), 1);
    assert_eq!(tokens[0].kind, Kind::End);
    assert_eq!(tokens[0].range, 0..0);
}

#[test]
fn modify_lexes_an_inserted_source() {
    let mut lexer: StandardLexer<Kind> = StandardLexer::new();
    let m = lexer.modify(&[], 0..0, "ab c");
    assert_eq!(lexer.source(), "ab c");
    assert_eq!(m.erased, 0..0);
    assert_eq!(m.offset, 4);
    let kinds: Vec<Kind> = m.inserted.iter().map(|t| t.kind).collect();
    assert_eq!(kinds, vec![Kind::Word, Kind::Word, Kind::End]);
    assert_eq!(m.inserted[0].range, 0..2);
    assert_eq!(m.inserted[1].range, 3..4);
    assert_eq!(m.inserted, lex_all(&lexer));
}

#[test]
fn modify_relexes_incrementally() {
    let mut lexer: StandardLexer<Kind> = StandardLexer::new();
    let m = lexer.modify(&[], 0..0, "ab c d");
    let mut tokens = m.inserted;
    // Replace "c" by "xy"
    let m = lexer.modify(&tokens, 3..4, "xy");
    assert_eq!(lexer.source(), "ab xy d");
    assert_eq!(m.offset, 1);
    for t in &mut tokens[m.erased.end..] {
        t.shift(m.offset);
    }
    tokens.splice(m.erased, m.inserted);
    // The kept tokens after the edit keep their old line and column.
    let got: Vec<_> = tokens.iter().map(|t| (t.range.clone(), t.kind, t.lookahead)).collect();
    let expected: Vec<_> = lex_all(&lexer).iter().map(|t| (t.range.clone(), t.kind, t.lookahead)).collect();
    assert_eq!(got, expected);
}

#[test]
fn applied_modification_matches_a_full_relex() {
    let mut lexer: StandardLexer<Kind> = StandardLexer::new();
    let m = lexer.modify(&[], 0..0, "ab c d ef");
    let mut tokens = m.inserted;
    // Replace "c" by "xy!"
    let m = lexer.modify(&tokens, 3..4, "xy!");
    assert_eq!(lexer.source(), "ab xy! d ef");
    assert_eq!(m.offset, 2);
    m.apply(&mut tokens);
    // The kept tokens after the edit keep their old line and column.
    let got: Vec<_> = tokens.iter().map(|t| (t.range.clone(), t.kind, t.lookahead)).collect();
    let expected: Vec<_> = lex_all(&lexer).iter().map(|t| (t.range.clone(), t.kind, t.lookahead)).collect();
    assert_eq!(got, expected);
    assert_eq!(tokens[3].range, 7..8);
}
