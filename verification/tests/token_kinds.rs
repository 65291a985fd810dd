use yoakke::dfa::Automaton as Dfa;
use yoakke::dfa_lexer::{dfa_next_lexeme, lexer_automaton, AcceptingState, Lexeme};
use yoakke::lexer::{Lexer, LexerState, StandardLexer};
use yoakke::position::Position;
use yoakke::token::{Token, TokenType};
use yoakke::token_defs::{lexer_data, AttrSpec, LexerData, VariantSpec};

/// Identifiers, numbers, parentheses and two keywords; white space is
/// skipped. The lexer is the one the token definitions below derive: an
/// automaton built from them, read with the longest match.
#[derive(Clone, Copy, PartialEq, Eq, Debug)]
enum TokenKind {
    Error,
    End,
    Ws,
    Ident,
    IntLit,
    LP,
    RP,
    KwIf,
    KwElse,
}

fn variant(name: &str, attrs: Vec<AttrSpec>) -> VariantSpec {
    VariantSpec { name: name.to_string(), is_unit: true, attrs }
}

/// The attributes of the variants, as the derive reads them.
fn definitions() -> LexerData {
    let variants = vec![
        variant("Error", vec![AttrSpec::Error]),
        variant("End", vec![AttrSpec::End]),
        // White space: the space (the pattern syntax has no escapes for
        // control characters).
        variant("Ws", vec![AttrSpec::Regex(" ".to_string()), AttrSpec::Ignore]),
        variant("Ident", vec![AttrSpec::CIdent]),
        variant("IntLit", vec![AttrSpec::Regex("[0-9]+".to_string())]),
        variant("LP", vec![AttrSpec::Token("(".to_string())]),
        variant("RP", vec![AttrSpec::Token(")".to_string())]),
        variant("KwIf", vec![AttrSpec::Token("if".to_string())]),
        variant("KwElse", vec![AttrSpec::Token("else".to_string())]),
    ];
    lexer_data("TokenKind".to_string(), variants).unwrap()
}

fn automaton() -> (LexerData, Dfa<char, AcceptingState>) {
    let data = definitions();
    let dfa = lexer_automaton(&data).unwrap();
    (data, dfa)
}

fn kind_named(name: &str) -> TokenKind {
    match name {
        "Ws" => TokenKind::Ws,
        "Ident" => TokenKind::Ident,
        "IntLit" => TokenKind::IntLit,
        "LP" => TokenKind::LP,
        "RP" => TokenKind::RP,
        "KwIf" => TokenKind::KwIf,
        "KwElse" => TokenKind::KwElse,
        _ => unreachable!(),
    }
}

impl TokenType for TokenKind {
    fn ends_input(&self) -> bool {
        *self == TokenKind::End
    }

    fn lexeme(src: &str, state: LexerState) -> (LexerState, Option<Self>, usize) {
        Self::next_lexeme_internal(src, &state)
    }

    fn is_end(&self) -> bool {
        *self == TokenKind::End
    }

    fn next_lexeme_internal(src: &str, lex_state: &LexerState) -> (LexerState, Option<Self>, usize) {
        let (data, dfa) = automaton();
        let (next, lexeme, look) = dfa_next_lexeme(&dfa, src, lex_state);
        let kind = match lexeme {
            None => None,
            Some(Lexeme::Error) => Some(TokenKind::Error),
            Some(Lexeme::End) => Some(TokenKind::End),
            Some(Lexeme::Definition(k)) => Some(kind_named(&data.tokens[k].variant)),
        };
        (next, kind, look)
    }
}

fn lex_all(lexer: &StandardLexer<TokenKind>) -> Vec<Token<TokenKind>> {
    let mut it = lexer.iter();
    let mut out = Vec::new();
    while let Some(t) = it.next() {
        out.push(t);
    }
    out
}

#[test]
fn lex_empty() {
    let lexer = TokenKind::lexer();
    let expected = vec![Token { range: 0..0, kind: TokenKind::End, position: Position::new(), lookahead: 0 }];
    assert_eq!(lex_all(&lexer), expected);
}

#[test]
fn lex_keywords_identifiers_and_numbers() {
    let mut lexer = TokenKind::lexer();
    let m = lexer.modify(&[], 0..0, "if (x1) else 42");
    let kinds: Vec<TokenKind> = m.inserted.iter().map(|t| t.kind).collect();
    assert_eq!(
        kinds,
        vec![
            TokenKind::KwIf,
            TokenKind::LP,
            TokenKind::Ident,
            TokenKind::RP,
            TokenKind::KwElse,
            TokenKind::IntLit,
            TokenKind::End,
        ]
    );
    let ranges: Vec<std::ops::Range<usize>> = m.inserted.iter().map(|t| t.range.clone()).collect();
    assert_eq!(ranges, vec![0..2, 3..4, 4..6, 6..7, 8..12, 13..15, 15..15]);
    // An identifier looked one character past its end.
    assert_eq!(m.inserted[2].lookahead, 1);
    assert_eq!(m.inserted, lex_all(&lexer));
}

#[test]
fn lex_error_and_lines() {
    let mut lexer = TokenKind::lexer();
    let m = lexer.modify(&[], 0..0, "a\n#b");
    let kinds: Vec<TokenKind> = m.inserted.iter().map(|t| t.kind).collect();
    // Only the space is white space here: the line feed is an error too.
    assert_eq!(kinds, vec![TokenKind::Ident, TokenKind::Error, TokenKind::Error, TokenKind::Ident, TokenKind::End]);
    assert_eq!(m.inserted[1].range, 1..2);
    assert_eq!(m.inserted[2].range, 2..3);
    assert_eq!((m.inserted[3].position.line, m.inserted[3].position.column), (1, 1));
}

fn apply(lexer: &mut StandardLexer<TokenKind>, tokens: &mut Vec<Token<TokenKind>>, erased: std::ops::Range<usize>, inserted: &str) {
    let m = lexer.modify(tokens, erased, inserted);
    for t in &mut tokens[m.erased.end..] {
        t.shift(m.offset);
    }
    tokens.splice(m.erased, m.inserted);
}

#[test]
fn edits_near_the_start_agree_with_lexing_from_scratch() {
    let mut lexer = TokenKind::lexer();
    let mut tokens: Vec<Token<TokenKind>> = Vec::new();
    let edits: Vec<(std::ops::Range<usize>, &str)> = vec![(0..0, "if (abc) 12"), (4..5, "xy"), (0..2, "else")];
    for (erased, inserted) in edits {
        apply(&mut lexer, &mut tokens, erased, inserted);
        // The kept tokens after an edit keep their old line and column.
        let got: Vec<_> = tokens.iter().map(|t| (t.range.clone(), t.kind, t.lookahead)).collect();
        let expected: Vec<_> = lex_all(&lexer).iter().map(|t| (t.range.clone(), t.kind, t.lookahead)).collect();
        assert_eq!(got, expected);
    }
    assert_eq!(lexer.source(), "else (xybc) 12");
}

#[test]
fn relexing_starts_at_the_first_replaced_token() {
    let mut lexer = TokenKind::lexer();
    let mut tokens: Vec<Token<TokenKind>> = Vec::new();
    apply(&mut lexer, &mut tokens, 0..0, "else (xybc) 12");
    // The edit reaches the number (index 4); the tokens from the one before
    // it (index 3) are replaced, and lexing restarts at that token. Lexing
    // reads the end of input again, so every token from there is replaced.
    let m = lexer.modify(&tokens, 13..13, " 7");
    assert_eq!(lexer.source(), "else (xybc) 1 72");
    assert_eq!(m.offset, 2);
    assert_eq!(m.erased, 3..6);
    let ranges: Vec<std::ops::Range<usize>> = m.inserted.iter().map(|t| t.range.clone()).collect();
    assert_eq!(ranges, vec![10..11, 12..13, 14..16, 16..16]);
    m.apply(&mut tokens);
    assert_eq!(tokens, lex_all(&lexer));
}

#[test]
fn relexing_stops_at_a_moved_existing_token() {
    let mut lexer = TokenKind::lexer();
    let mut tokens: Vec<Token<TokenKind>> = Vec::new();
    apply(&mut lexer, &mut tokens, 0..0, "if a b c 12");
    let m = lexer.modify(&tokens, 3..4, "xyz");
    assert_eq!(lexer.source(), "if xyz b c 12");
    assert_eq!(m.offset, 2);
    assert_eq!(m.erased, 0..2);
    assert_eq!(m.inserted.len(), 2);
    m.apply(&mut tokens);
    let got: Vec<_> = tokens.iter().map(|t| (t.range.clone(), t.kind.clone(), t.lookahead)).collect();
    let expected: Vec<_> = lex_all(&lexer).iter().map(|t| (t.range.clone(), t.kind.clone(), t.lookahead)).collect();
    assert_eq!(got, expected);
}

#[test]
fn appending_agrees_with_lexing_from_scratch() {
    let mut lexer = TokenKind::lexer();
    let mut tokens: Vec<Token<TokenKind>> = Vec::new();
    let edits: Vec<(std::ops::Range<usize>, &str)> = vec![(0..0, "if"), (2..2, " (x"), (5..5, ") 1"), (8..8, "2"), (2..3, ""), (0..0, "\n")];
    for (erased, inserted) in edits {
        apply(&mut lexer, &mut tokens, erased, inserted);
        let full = lex_all(&lexer);
        let ranges: Vec<_> = tokens.iter().map(|t| (t.range.clone(), t.kind.clone(), t.lookahead)).collect();
        let expected: Vec<_> = full.iter().map(|t| (t.range.clone(), t.kind.clone(), t.lookahead)).collect();
        assert_eq!(ranges, expected);
    }
}
