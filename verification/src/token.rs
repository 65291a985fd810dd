//! Token definition.

use vstd::prelude::*;
use std::ops::Range;
use crate::position::Position;
use crate::lexer::{LexerState, StandardLexer};
use vstd::string::StringSliceAdditionalSpecFns;

verus! {

/// `Range::clone`, which the derived `Clone` of a token calls; nothing is
/// claimed of the copy it makes.
pub assume_specification<Idx: std::clone::Clone>[ <std::ops::Range<Idx> as std::clone::Clone>::clone ](r: &std::ops::Range<Idx>) -> std::ops::Range<Idx>;

/// A generic token that's being returned by the lexer.
#[derive(Debug, Clone, PartialEq, Eq)]
pub struct Token<T> {
    pub range: Range<usize>,
    pub kind: T,
    pub position: Position,
    pub lookahead: usize,
}

impl<T> Token<T> {
    /// Moves the token's source range by `offset` bytes.
    pub fn shift(&mut self, offset: isize)
        requires
            old(self).range.start <= isize::MAX,
            old(self).range.end <= isize::MAX,
            0 <= old(self).range.start + offset <= isize::MAX,
            0 <= old(self).range.end + offset <= isize::MAX,
        ensures
            final(self).range.start == old(self).range.start + offset,
            final(self).range.end == old(self).range.end + offset,
            final(self).kind == old(self).kind,
            final(self).position == old(self).position,
            final(self).lookahead == old(self).lookahead,
    {
        let start = self.range.start as isize + offset;
        let start = start as usize;
        let end = self.range.end as isize + offset;
        let end = end as usize;
        self.range.start = start;
        self.range.end = end;
    }
}

/// The type of the token kinds a lexer reads. A token-kind enumeration
/// implements it with the lexer its definitions derive: `next_lexeme_internal`
/// reads with `dfa_lexer::dfa_next_lexeme` over the automaton that
/// `dfa_lexer::lexer_automaton` builds from the definitions.
pub trait TokenType: Sized {
    fn lexer() -> (r: StandardLexer<Self>) where Self: PartialEq
        ensures
            r.text().len() == 0,
    {
        StandardLexer::new()
    }

    /// The kind marks the end of the input.
    spec fn ends_input(&self) -> bool;

    fn is_end(&self) -> (r: bool)
        ensures
            r == self.ends_input(),
    ;

    /// The lexeme read from `state` in the source `src`: the state after it,
    /// its kind (none for an ignored lexeme) and how far the source was
    /// looked at.
    spec fn lexeme(src: &str, state: LexerState) -> (LexerState, Option<Self>, usize);

    /// Reads the next lexeme of `src` from `state`: the state after it, the
    /// kind of token it is (none for an ignored lexeme) and the byte index up
    /// to which the source was looked at.
    ///
    /// An implementation never moves backwards nor past the end of the
    /// source, looks at least as far as it read, and moves forward past every
    /// lexeme but the end of input.
    fn next_lexeme_internal(src: &str, state: &LexerState) -> (r: (LexerState, Option<Self>, usize))
        ensures
            r == Self::lexeme(src, *state),
            r.0.source_index >= state.source_index,
            state.source_index <= src.spec_bytes().len() ==> r.0.source_index <= src.spec_bytes().len(),
            r.2 >= r.0.source_index,
            r.1 is None ==> r.0.source_index > state.source_index,
            r.1 matches Some(k) && !k.ends_input() ==> r.0.source_index > state.source_index,
    ;
}


/// Shifting a token by an offset and back restores its range.
pub proof fn lemma_shift_back<T>(t0: Token<T>, t1: Token<T>, t2: Token<T>, offset: int)
    requires
        t1.range.start == t0.range.start + offset,
        t1.range.end == t0.range.end + offset,
        t2.range.start == t1.range.start - offset,
        t2.range.end == t1.range.end - offset,
    ensures
        t2.range.start == t0.range.start,
        t2.range.end == t0.range.end,
{
}

} // verus!
