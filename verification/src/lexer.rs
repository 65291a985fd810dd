//! Structures for a lexer: the state every lexer carries, the iteration
//! over the tokens of a source, and the builtin lexer.

use vstd::prelude::*;
use vstd::std_specs::cmp::PartialEqSpec;
use vstd::string::StringSliceAdditionalSpecFns;
use vstd::utf8::{encode_utf8, decode_utf8, is_char_boundary};
use vstd::string::StringExecFns;
use vstd::string::StrSliceExecFns;
use std::marker::PhantomData;
use std::ops::Range;
use crate::position::Position;
use crate::token::{TokenType, Token};
use crate::relex::{full_lex, lexes_locally, moved_all, spliced_tokens, lemma_relex_agrees};

verus! {

/// Every lexer's minimal information it needs to carry.
#[derive(Debug, Clone, Copy, PartialEq, Eq)]
pub struct LexerState {
    pub source_index: usize,
    pub position: Position,
    pub last_char: Option<char>,
}

impl LexerState {
    /// The state at the start of a source.
    pub fn new() -> (r: Self)
        ensures
            r.source_index == 0,
            r.position.column == 0,
            r.position.line == 0,
            r.last_char is None,
    {
        Self { source_index: 0, position: Position::new(), last_char: None }
    }
}

/// Lexer interface.
pub trait Lexer {
    type TokenTag: TokenType;

    /// The edit of the bytes `erased` into `inserted` can be made on the
    /// source, given the tokens lexed from it.
    spec fn can_modify(&self, tokens: Seq<Token<Self::TokenTag>>, erased: Range<usize>, inserted: Seq<char>) -> bool;

    fn iter(&self) -> Iter<'_, Self::TokenTag>;

    fn modify(&mut self, tokens: &[Token<Self::TokenTag>], erased: Range<usize>, inserted: &str) -> Modification<Self::TokenTag>
        requires
            old(self).can_modify(tokens@, erased, inserted@),
    ;
}

/// Iterate over all tokens.
pub struct Iter<'a, T> {
    source: &'a str,
    state: LexerState,
    already_ended: bool,
    phantom: PhantomData<T>,
}

impl<'a, T> Iter<'a, T> {
    /// The source being read.
    pub closed spec fn text(&self) -> Seq<char> {
        self.source@
    }

    /// The source being read, as the string the lexemes are read from.
    pub closed spec fn source_str(&self) -> &'a str {
        self.source
    }

    /// The state the next lexeme is read from.
    pub closed spec fn current(&self) -> LexerState {
        self.state
    }

    /// The end token was handed out already.
    pub closed spec fn ended(&self) -> bool {
        self.already_ended
    }

    fn with_source_and_state(source: &'a str, state: LexerState) -> (r: Self)
        ensures
            r.text() == source@,
            r.source_str() == source,
            r.current() == state,
            !r.ended(),
    {
        Self { source, state, already_ended: false, phantom: PhantomData }
    }

    fn with_source(source: &'a str) -> (r: Self)
        ensures
            r.text() == source@,
            r.current().source_index == 0,
            !r.ended(),
    {
        Self::with_source_and_state(source, LexerState::new())
    }

    /// Takes the lexeme read from the current state: `next` is the state
    /// after it, `kind` its kind (none when it is ignored), `lookahead` how
    /// far the source was looked at, and `is_end` whether the kind is the
    /// end of input. Answers `None` to go on reading, or the answer of the
    /// iteration: a token, or nothing once the end was handed out.
    pub fn take_lexeme(&mut self, next: LexerState, kind: Option<T>, lookahead: usize, is_end: bool) -> (r: Option<
        Option<Token<T>>,
    >)
        requires
            next.source_index >= old(self).current().source_index,
            lookahead >= next.source_index,
        ensures
            final(self).text() == old(self).text(),
            final(self).source_str() == old(self).source_str(),
            final(self).current() == next,
            match kind {
                None => r is None && final(self).ended() == old(self).ended(),
                Some(k) => r is Some && if is_end && old(self).ended() {
                    r.unwrap() is None && final(self).ended()
                } else {
                    &&& final(self).ended() == (old(self).ended() || is_end)
                    &&& r.unwrap() matches Some(t) && t.range.start == old(self).current().source_index
                        && t.range.end == next.source_index && t.kind == k
                        && t.position == old(self).current().position
                        && t.lookahead == lookahead - next.source_index
                },
            },
    {
        match kind {
            Some(kind) => {
                let range = self.state.source_index..next.source_index;
                let lookahead = lookahead - range.end;
                let position = self.state.position;
                self.state = next;
                // If it's the end and we have already returned that, stop iteration
                if is_end {
                    if self.already_ended {
                        Some(None)
                    } else {
                        self.already_ended = true;
                        Some(Some(Token { range, kind, position, lookahead }))
                    }
                } else {
                    Some(Some(Token { range, kind, position, lookahead }))
                }
            },
            None => {
                // Ignored token
                self.state = next;
                None
            },
        }
    }
}

/// Each state of `chain` but the last reads an ignored lexeme that leads to
/// the next state of the chain.
pub open spec fn skips<T: TokenType>(src: &str, chain: Seq<LexerState>) -> bool {
    &&& chain.len() >= 1
    &&& forall|i: int|
        0 <= i < chain.len() - 1 ==> (#[trigger] T::lexeme(src, chain[i])).1 is None && T::lexeme(src, chain[i]).0
            == chain[i + 1]
}

/// Reading from `st` skips the ignored lexemes there and then reads the
/// lexeme of the token `t`, which leaves the state `after`.
pub open spec fn reads_token<T: TokenType>(src: &str, st: LexerState, t: Token<T>, after: LexerState) -> bool {
    exists|chain: Seq<LexerState>|
        #[trigger] skips::<T>(src, chain) && chain[0] == st && {
            let last = chain.last();
            let lx = T::lexeme(src, last);
            &&& lx.1 == Some(t.kind)
            &&& lx.0 == after
            &&& t.range.start == last.source_index
            &&& t.range.end == after.source_index
            &&& t.position == last.position
            &&& t.lookahead == lx.2 - after.source_index
        }
}

impl<'a, T: TokenType> Iter<'a, T> {
    /// The next token of the source, skipping ignored lexemes; the end token
    /// is handed out once, after it the iteration is over.
    pub fn next(&mut self) -> (r: Option<Token<T>>)
        ensures
            final(self).text() == old(self).text(),
            final(self).current().source_index >= old(self).current().source_index,
            old(self).current().source_index <= encode_utf8(old(self).text()).len()
                ==> final(self).current().source_index <= encode_utf8(old(self).text()).len(),
            old(self).ended() ==> final(self).ended(),
            r is None ==> old(self).ended() && final(self).ended(),
            r matches Some(t) ==> t.range.start >= old(self).current().source_index
                && t.range.end == final(self).current().source_index && t.range.start <= t.range.end,
            r matches Some(t) && !t.kind.ends_input() ==> final(self).current().source_index > old(self).current().source_index,
            r matches Some(t) && t.kind.ends_input() ==> !old(self).ended() && final(self).ended(),
            final(self).source_str() == old(self).source_str(),
            r matches Some(t) ==> reads_token(old(self).source_str(), old(self).current(), t, final(self).current()),
            r matches Some(t) ==> final(self).ended() == (old(self).ended() || t.kind.ends_input()),
            r matches Some(t) ==> reach(t) <= usize::MAX,
            r is None ==> exists|t: Token<T>|
                #[trigger] reads_token(old(self).source_str(), old(self).current(), t, final(self).current()) && t.kind.ends_input(),
    {
        let ghost mut chain: Seq<LexerState> = seq![self.state];
        loop
            invariant
                self.text() == old(self).text(),
                self.ended() == old(self).ended(),
                self.source_str() == old(self).source_str(),
                skips::<T>(self.source_str(), chain),
                chain[0] == old(self).current(),
                chain.last() == self.current(),
                self.current().source_index >= old(self).current().source_index,
                old(self).current().source_index <= encode_utf8(old(self).text()).len()
                    ==> self.current().source_index <= encode_utf8(old(self).text()).len(),
            decreases usize::MAX - self.state.source_index,
        {
            let (state, kind, lookahead) = T::next_lexeme_internal(self.source, &self.state);
            let is_end = match &kind {
                Some(k) => k.is_end(),
                None => false,
            };
            let ghost before = self.state.source_index;
            let ghost cur = self.state;
            let ghost gk = kind;
            let ghost gstate = state;
            let ghost gla = lookahead;
            match self.take_lexeme(state, kind, lookahead, is_end) {
                Some(answer) => {
                    proof {
                        assert(chain.last() == cur);
                        assert(skips::<T>(self.source_str(), chain) && chain[0] == old(self).current());
                        if answer is Some {
                            let t = answer.unwrap();
                        } else {
                            let t = Token {
                                range: Range { start: cur.source_index, end: gstate.source_index },
                                kind: gk.unwrap(),
                                position: cur.position,
                                lookahead: (gla - gstate.source_index) as usize,
                            };
                            assert(reads_token(old(self).source_str(), old(self).current(), t, self.current()));
                        }
                    }
                    return answer;
                },
                None => {
                    proof {
                        assert(self.state.source_index > before);
                        let c2 = chain.push(self.state);
                        assert forall|i: int| 0 <= i < c2.len() - 1 implies (#[trigger] T::lexeme(self.source_str(), c2[i])).1 is None && T::lexeme(self.source_str(), c2[i]).0 == c2[i + 1] by {
                            if i < chain.len() - 1 {
                                assert(c2[i] == chain[i] && c2[i + 1] == chain[i + 1]);
                            } else {
                                assert(c2[i] == cur);
                            }
                        }
                        chain = c2;
                    }
                },
            }
        }
    }
}

/// Modification descriptions.
pub struct Modification<T> {
    pub erased: Range<usize>,
    pub inserted: Vec<Token<T>>,
    pub offset: isize,
}

/// The token `t` moved by `offset` bytes.
pub open spec fn shifted<T>(t: Token<T>, offset: int) -> Token<T> {
    Token {
        range: Range { start: (t.range.start + offset) as usize, end: (t.range.end + offset) as usize },
        kind: t.kind,
        position: t.position,
        lookahead: t.lookahead,
    }
}

/// The token `t` can be moved by `offset` bytes.
pub open spec fn can_shift<T>(t: Token<T>, offset: int) -> bool {
    &&& t.range.start <= isize::MAX
    &&& t.range.end <= isize::MAX
    &&& 0 <= t.range.start + offset <= isize::MAX
    &&& 0 <= t.range.end + offset <= isize::MAX
}

impl<T> Modification<T> {
    /// Brings the tokens the modification was computed from up to date with
    /// the edited source: the tokens after the replaced ones move by the
    /// offset, and the replaced ones give way to the inserted ones.
    pub fn apply(self, tokens: &mut Vec<Token<T>>)
        requires
            self.erased.start <= self.erased.end <= old(tokens)@.len(),
            forall|i: int| self.erased.end <= i < old(tokens)@.len() ==> can_shift(#[trigger] old(tokens)@[i], self.offset as int),
        ensures
            final(tokens)@ == old(tokens)@.take(self.erased.start as int) + self.inserted@ + old(tokens)@.skip(
                self.erased.end as int,
            ).map_values(|t: Token<T>| shifted(t, self.offset as int)),
    {
        let offset = self.offset;
        let mut tail = tokens.split_off(self.erased.end);
        tokens.truncate(self.erased.start);
        let mut inserted = self.inserted;
        tokens.append(&mut inserted);
        let ghost base = tokens@;
        let ghost rest = tail@;
        let ghost mut k: int = 0;
        proof {
            assert(base =~= old(tokens)@.take(self.erased.start as int) + self.inserted@);
            assert(rest =~= old(tokens)@.skip(self.erased.end as int));
            assert(tokens@ =~= base + rest.take(0).map_values(|t: Token<T>| shifted(t, offset as int)));
        }
        while tail.len() > 0
            invariant
                0 <= k <= rest.len(),
                tail@ == rest.skip(k),
                tokens@ == base + rest.take(k).map_values(|t: Token<T>| shifted(t, offset as int)),
                forall|i: int| 0 <= i < rest.len() ==> can_shift(#[trigger] rest[i], offset as int),
            decreases tail@.len(),
        {
            let mut t = tail.remove(0);
            proof {
                assert(t == rest[k]);
                assert(can_shift(rest[k], offset as int));
            }
            t.shift(offset);
            tokens.push(t);
            proof {
                assert(t == shifted(rest[k], offset as int));
                assert(rest.take(k + 1).map_values(|t: Token<T>| shifted(t, offset as int)) =~= rest.take(k).map_values(
                    |t: Token<T>| shifted(t, offset as int),
                ).push(shifted(rest[k], offset as int)));
                assert(tail@ =~= rest.skip(k + 1));
                k = k + 1;
            }
        }
        proof {
            assert(rest.take(k) =~= rest);
        }
    }
}

/// The builtin lexer.
pub struct StandardLexer<T> {
    source: String,
    phantom: PhantomData<T>,
}

/// How far the token `t` looked into the source.
pub open spec fn reach<T>(t: Token<T>) -> int {
    t.range.end + t.lookahead
}

/// `l` is where the tokens looking at or past `at` begin: every token before
/// it looked short of `at`, and the one at it (if any) did not.
pub open spec fn first_reaching<T>(tokens: Seq<Token<T>>, at: int, l: int) -> bool {
    &&& 0 <= l <= tokens.len()
    &&& forall|j: int| 0 <= j < l ==> reach(#[trigger] tokens[j]) < at
    &&& l < tokens.len() ==> reach(tokens[l]) >= at
}

/// `u` is where the tokens from `l` on begin to end at or past `at`.
pub open spec fn first_ending<T>(tokens: Seq<Token<T>>, l: int, at: int, u: int) -> bool {
    &&& l <= u <= tokens.len()
    &&& forall|j: int| l <= j < u ==> (#[trigger] tokens[j]).range.end < at
    &&& u < tokens.len() ==> tokens[u].range.end >= at
}

impl<T: PartialEq> StandardLexer<T> {
    /// The source text.
    pub closed spec fn text(&self) -> Seq<char> {
        self.source@
    }

    pub fn new() -> (r: Self)
        ensures
            r.text().len() == 0,
    {
        Self { source: String::new(), phantom: PhantomData }
    }

    pub fn source(&self) -> (r: &str)
        ensures
            r@ == self.text(),
    {
        self.source.as_str()
    }

    /// The range of tokens an edit of the source range `erased` certainly
    /// invalidates: from the token before the first one that looked at the
    /// start of the edit, to the token after the first one (from there) that
    /// ends at or past its end.
    fn invalidated_range(tokens: &[Token<T>], erased: &Range<usize>) -> (r: Range<usize>)
        requires
            forall|i: int| 0 <= i < tokens@.len() ==> reach(#[trigger] tokens@[i]) <= usize::MAX,
        ensures
            exists|l: int, u: int|
                first_reaching(tokens@, erased.start as int, l) && first_ending(tokens@, l, erased.end as int, u)
                    && r.start == (if l > 0 { l - 1 } else { 0 })
                    && r.end == (if u < tokens@.len() { u + 1 } else { u }),
    {
        let mut lower: usize = 0;
        while lower < tokens.len() && tokens[lower].range.end + tokens[lower].lookahead < erased.start
            invariant
                lower <= tokens@.len(),
                forall|i: int| 0 <= i < tokens@.len() ==> reach(#[trigger] tokens@[i]) <= usize::MAX,
                forall|j: int| 0 <= j < lower ==> reach(#[trigger] tokens@[j]) < erased.start,
            decreases tokens@.len() - lower,
        {
            lower = lower + 1;
        }
        let mut upper: usize = lower;
        while upper < tokens.len() && tokens[upper].range.end < erased.end
            invariant
                lower <= upper <= tokens@.len(),
                forall|j: int| lower <= j < upper ==> (#[trigger] tokens@[j]).range.end < erased.end,
            decreases tokens@.len() - upper,
        {
            upper = upper + 1;
        }
        let ghost l = lower as int;
        let ghost u = upper as int;
        proof {
            assert(first_reaching(tokens@, erased.start as int, l));
            assert(first_ending(tokens@, l, erased.end as int, u));
        }
        if lower > 0 {
            lower -= 1;
        }
        if upper < tokens.len() {
            upper += 1;
        }
        lower..upper
    }

    /// The tokens are the same, once the second is moved by `offs2`.
    fn equivalent_tokens(t1: &Token<T>, t2: &Token<T>, offs2: isize) -> (r: bool)
        ensures
            !(t1.range.start == t2.range.start + offs2 && t1.range.end == t2.range.end + offs2
                && t1.lookahead == t2.lookahead) ==> !r,
            T::obeys_eq_spec() ==> (r == (t1.range.start == t2.range.start + offs2 && t1.range.end
                == t2.range.end + offs2 && t1.lookahead == t2.lookahead && t1.kind.eq_spec(&t2.kind))),
    {
        t1.range.start as i128 == t2.range.start as i128 + offs2 as i128 && t1.range.end as i128 == t2.range.end as i128
            + offs2 as i128 && t1.lookahead == t2.lookahead && t1.kind == t2.kind
    }
}


/// The text with the bytes `erased` of its encoding replaced by `inserted`.
pub open spec fn spliced_text(text: Seq<char>, erased: Range<usize>, inserted: Seq<char>) -> Seq<char> {
    decode_utf8(encode_utf8(text).subrange(0, erased.start as int)) + inserted + decode_utf8(
        encode_utf8(text).subrange(erased.end as int, encode_utf8(text).len() as int),
    )
}

/// Where the tokens reaching `at` begin.
pub open spec fn reaching_index<T>(tokens: Seq<Token<T>>, at: int) -> int {
    choose|l: int| first_reaching(tokens, at, l)
}

/// The first index of the tokens certainly invalidated by an edit at `at`.
pub open spec fn invalid_start<T>(tokens: Seq<Token<T>>, at: int) -> int {
    if reaching_index(tokens, at) > 0 { reaching_index(tokens, at) - 1 } else { 0 }
}

/// There is one place where the tokens reaching `at` begin.
pub(crate) proof fn lemma_first_reaching_unique<T>(tokens: Seq<Token<T>>, at: int, l: int)
    requires
        first_reaching(tokens, at, l),
    ensures
        reaching_index(tokens, at) == l,
{
    let m = reaching_index(tokens, at);
    assert(first_reaching(tokens, at, m));
    if m < l {
        assert(reach(tokens[m]) < at);
    } else if l < m {
        assert(reach(tokens[l]) < at);
    }
}

/// Where the tokens from `l` on begin to end at or past `at`.
pub open spec fn ending_index<T>(tokens: Seq<Token<T>>, l: int, at: int) -> int {
    choose|u: int| first_ending(tokens, l, at, u)
}

/// The end of the tokens certainly invalidated by an edit of `erased`: one
/// past the first token (from those reaching the edit) that ends at or past
/// its end.
pub open spec fn invalid_end<T>(tokens: Seq<Token<T>>, erased: Range<usize>) -> int {
    let u = ending_index(tokens, reaching_index(tokens, erased.start as int), erased.end as int);
    if u < tokens.len() { u + 1 } else { u }
}

/// There is one place where the tokens from `l` on begin to end at `at`.
proof fn lemma_first_ending_unique<T>(tokens: Seq<Token<T>>, l: int, at: int, u: int)
    requires
        first_ending(tokens, l, at, u),
    ensures
        ending_index(tokens, l, at) == u,
{
    let m = ending_index(tokens, l, at);
    assert(first_ending(tokens, l, at, m));
    if m < u {
        assert(tokens[m].range.end < at);
    } else if u < m {
        assert(tokens[u].range.end < at);
    }
}

/// The state relexing starts from in the edited text `text`: that of the
/// first replaced token, which the edit does not reach, with the character
/// before it, or else the start of the source.
pub open spec fn relex_start<T>(tokens: Seq<Token<T>>, start: int, text: Seq<char>) -> LexerState {
    if start > 0 {
        let t = tokens[start];
        let before = decode_utf8(encode_utf8(text).subrange(0, t.range.start as int));
        LexerState {
            source_index: t.range.start,
            position: t.position,
            last_char: if before.len() == 0 { None } else { Some(before.last()) },
        }
    } else {
        LexerState { source_index: 0, position: Position { column: 0, line: 0 }, last_char: None }
    }
}

/// The tokens `toks` are read one after the other from `st`, which leaves
/// the state `after`.
pub open spec fn reads_tokens<T: TokenType>(src: &str, st: LexerState, toks: Seq<Token<T>>, after: LexerState) -> bool
    decreases toks.len(),
{
    if toks.len() == 0 {
        after == st
    } else {
        exists|mid: LexerState|
            reads_tokens::<T>(src, st, toks.drop_last(), mid) && #[trigger] reads_token::<T>(src, mid, toks.last(), after)
    }
}

/// Reading one more token extends what was read.
pub(crate) proof fn lemma_reads_push<T: TokenType>(src: &str, st: LexerState, toks: Seq<Token<T>>, mid: LexerState, t: Token<T>, after: LexerState)
    requires
        reads_tokens::<T>(src, st, toks, mid),
        reads_token::<T>(src, mid, t, after),
    ensures
        reads_tokens::<T>(src, st, toks.push(t), after),
{
    assert(toks.push(t).drop_last() =~= toks);
    assert(toks.push(t).last() == t);
}

/// The relexed token `t` starts past the inserted text (which ends at byte
/// `last_insertion`) and does not end before the existing token at `e`,
/// moved by `offset`.
pub open spec fn meets_existing<T>(tokens: Seq<Token<T>>, t: Token<T>, last_insertion: int, e: int, offset: int) -> bool {
    &&& t.range.start > last_insertion
    &&& e < tokens.len()
    &&& t.range.end > tokens[e].range.start + offset
}

/// `t2`, moved by `offset`, has the range and the lookahead of `t1`.
pub open spec fn same_place<T>(t1: Token<T>, t2: Token<T>, offset: int) -> bool {
    &&& t1.range.start == t2.range.start + offset
    &&& t1.range.end == t2.range.end + offset
    &&& t1.lookahead == t2.lookahead
}

/// The end of the replaced tokens once the first `k` relexed tokens `ins`
/// are kept: it starts at `e0` and passes each existing token that a kept
/// token meets.
pub open spec fn erased_end_after<T>(tokens: Seq<Token<T>>, ins: Seq<Token<T>>, k: nat, e0: int, last_insertion: int, offset: int) -> int
    decreases k,
{
    if k == 0 {
        e0
    } else {
        let e = erased_end_after(tokens, ins, (k - 1) as nat, e0, last_insertion, offset);
        if meets_existing(tokens, ins[k - 1], last_insertion, e, offset) { e + 1 } else { e }
    }
}

/// The end of the replaced tokens depends only on the tokens kept so far.
proof fn lemma_erased_end_prefix<T>(tokens: Seq<Token<T>>, ins: Seq<Token<T>>, t: Token<T>, k: nat, e0: int, li: int, offset: int)
    requires
        k <= ins.len(),
    ensures
        erased_end_after(tokens, ins.push(t), k, e0, li, offset) == erased_end_after(tokens, ins, k, e0, li, offset),
    decreases k,
{
    if k > 0 {
        lemma_erased_end_prefix(tokens, ins, t, (k - 1) as nat, e0, li, offset);
        assert(ins.push(t)[k - 1] == ins[k - 1]);
    }
}

/// The kept relexed token `t` is not the existing token at `e`, moved by
/// `offset`, where it meets it.
pub open spec fn not_a_match<T: PartialEq>(tokens: Seq<Token<T>>, t: Token<T>, li: int, e: int, offset: int) -> bool {
    meets_existing(tokens, t, li, e, offset) ==> !(same_place(t, tokens[e], offset) && t.kind.eq_spec(&tokens[e].kind))
}

/// Relexing stopped before the token `t`, read from `after`: past the
/// inserted text, it is the existing token at `r_end` moved by `offset`.
pub open spec fn stops_at_match<T: TokenType + PartialEq>(
    tokens: Seq<Token<T>>,
    src: &str,
    last_insertion: int,
    offset: int,
    ins: Seq<Token<T>>,
    r_end: int,
    after: LexerState,
) -> bool {
    exists|t: Token<T>, a2: LexerState|
        #[trigger] reads_token::<T>(src, after, t, a2) && meets_existing(tokens, t, last_insertion, r_end, offset) && same_place(
            t,
            tokens[r_end],
            offset,
        ) && (T::obeys_eq_spec() ==> t.kind.eq_spec(&tokens[r_end].kind)) && ((exists|i: int|
            0 <= i < ins.len() && (#[trigger] ins[i]).kind.ends_input()) ==> !t.kind.ends_input())
}

/// Relexing read the end of input, and reading from `after` gives the end of
/// input again.
pub open spec fn stops_at_end<T: TokenType>(src: &str, ins: Seq<Token<T>>, after: LexerState) -> bool {
    &&& exists|t: Token<T>, a2: LexerState| #[trigger] reads_token::<T>(src, after, t, a2) && t.kind.ends_input()
    &&& exists|i: int| 0 <= i < ins.len() && (#[trigger] ins[i]).kind.ends_input()
}

/// What relexing after an edit gives: `ins` are the tokens read from the
/// relexing start in the edited source `src`, with at most one end of input
/// among them, and the replaced tokens end at `r_end`. Relexing stopped
/// before the first token that, past the inserted text, is an existing token
/// moved by `offset`; or once the end of input was read again after the end
/// token, and then every token from the first replaced one on is replaced.
pub open spec fn relexed<T: TokenType + PartialEq>(
    tokens: Seq<Token<T>>,
    erased: Range<usize>,
    src: &str,
    last_insertion: int,
    offset: int,
    ins: Seq<Token<T>>,
    r_end: int,
) -> bool {
    let st = relex_start(tokens, invalid_start(tokens, erased.start as int), src@);
    let e0 = invalid_end(tokens, erased);
    &&& T::obeys_eq_spec() ==> forall|i: int|
        0 <= i < ins.len() ==> not_a_match(tokens, #[trigger] ins[i], last_insertion, erased_end_after(tokens, ins, i as nat, e0, last_insertion, offset), offset)
    &&& forall|i: int, j: int| 0 <= i < j < ins.len() && (#[trigger] ins[i]).kind.ends_input() ==> !(#[trigger] ins[j]).kind.ends_input()
    &&& exists|after: LexerState| #[trigger] reads_tokens::<T>(src, st, ins, after) && {
        ||| r_end == erased_end_after(tokens, ins, ins.len(), e0, last_insertion, offset) && stops_at_match(tokens, src, last_insertion, offset, ins, r_end, after)
        ||| r_end == tokens.len() && stops_at_end(src, ins, after)
    }
}

/// The source with the bytes `erased` replaced by `inserted`.
fn splice_source(source: &String, erased: &Range<usize>, inserted: &str) -> (r: String)
    requires
        erased.start <= erased.end,
        is_char_boundary(encode_utf8(source@), erased.start as int),
        is_char_boundary(encode_utf8(source@), erased.end as int),
    ensures
        r@ == spliced_text(source@, *erased, inserted@),
{
    let text = source.as_str();
    proof {
        vstd::utf8::encode_utf8_valid_utf8(source@);
    }
    let (prefix, _) = text.split_at(erased.start);
    let (_, suffix) = text.split_at(erased.end);
    proof {
        vstd::utf8::encode_utf8_decode_utf8(prefix@);
        vstd::utf8::encode_utf8_decode_utf8(suffix@);
    }
    let mut r = String::from_str(prefix);
    r.append(inserted);
    r.append(suffix);
    r
}

/// The character ending at byte `idx` of `s`, if any.
fn char_before(s: &str, idx: usize) -> (r: Option<char>)
    requires
        is_char_boundary(encode_utf8(s@), idx as int),
    ensures
        r == (if decode_utf8(encode_utf8(s@).subrange(0, idx as int)).len() == 0 {
            None
        } else {
            Some(decode_utf8(encode_utf8(s@).subrange(0, idx as int)).last())
        }),
{
    proof {
        vstd::utf8::encode_utf8_valid_utf8(s@);
    }
    let (prefix, _) = s.split_at(idx);
    proof {
        vstd::utf8::encode_utf8_decode_utf8(prefix@);
    }
    let n = prefix.unicode_len();
    if n == 0 {
        None
    } else {
        Some(prefix.get_char(n - 1))
    }
}

impl<T: PartialEq + TokenType> StandardLexer<T> {
    /// The conditions under which an edit can be made: the erased bytes lie
    /// between characters of the source, the lengths involved fit an
    /// `isize`, and the token before the invalidated ones (if any) starts
    /// between two characters of the edited source.
    pub open spec fn edit_fits(&self, tokens: Seq<Token<T>>, erased: Range<usize>, inserted: Seq<char>) -> bool {
        let bytes = encode_utf8(self.text());
        let new_bytes = encode_utf8(spliced_text(self.text(), erased, inserted));
        &&& erased.start <= erased.end <= bytes.len()
        &&& is_char_boundary(bytes, erased.start as int)
        &&& is_char_boundary(bytes, erased.end as int)
        &&& forall|i: int| 0 <= i < tokens.len() ==> reach(#[trigger] tokens[i]) <= usize::MAX
        &&& forall|i: int| 0 <= i < tokens.len() ==> (#[trigger] tokens[i]).range.end <= isize::MAX && tokens[i].range.start <= isize::MAX
        &&& erased.end - erased.start <= isize::MAX
        &&& erased.start + encode_utf8(inserted).len() <= isize::MAX
        &&& new_bytes.len() + encode_utf8(inserted).len() <= isize::MAX
        &&& invalid_start(tokens, erased.start as int) > 0 ==> is_char_boundary(
            new_bytes,
            tokens[invalid_start(tokens, erased.start as int)].range.start as int,
        )
    }
}

/// Keeping one more relexed token `t` moves the end of the replaced tokens
/// past the existing token it meets, and keeps every kept token short of an
/// existing one it meets.
proof fn lemma_keep_token<T: TokenType + PartialEq>(
    tokens: Seq<Token<T>>,
    ins: Seq<Token<T>>,
    t: Token<T>,
    e0: int,
    li: int,
    offset: int,
)
    requires
        T::obeys_eq_spec() ==> forall|i: int|
            0 <= i < ins.len() ==> not_a_match(tokens, #[trigger] ins[i], li, erased_end_after(tokens, ins, i as nat, e0, li, offset), offset),
        T::obeys_eq_spec() ==> not_a_match(tokens, t, li, erased_end_after(tokens, ins, ins.len(), e0, li, offset), offset),
    ensures
        erased_end_after(tokens, ins.push(t), ins.len() + 1, e0, li, offset) == (if meets_existing(
            tokens,
            t,
            li,
            erased_end_after(tokens, ins, ins.len(), e0, li, offset),
            offset,
        ) {
            erased_end_after(tokens, ins, ins.len(), e0, li, offset) + 1
        } else {
            erased_end_after(tokens, ins, ins.len(), e0, li, offset)
        }),
        T::obeys_eq_spec() ==> forall|i: int|
            0 <= i < ins.push(t).len() ==> not_a_match(tokens, #[trigger] ins.push(t)[i], li, erased_end_after(tokens, ins.push(t), i as nat, e0, li, offset), offset),
{
    let n = ins.len();
    lemma_erased_end_prefix(tokens, ins, t, n, e0, li, offset);
    assert(ins.push(t)[n as int] == t);
    assert forall|i: int| 0 <= i < ins.push(t).len() implies #[trigger] erased_end_after(tokens, ins.push(t), i as nat, e0, li, offset)
        == erased_end_after(tokens, ins, i as nat, e0, li, offset) by {
        lemma_erased_end_prefix(tokens, ins, t, i as nat, e0, li, offset);
    }
    assert forall|i: int| 0 <= i < n implies #[trigger] ins.push(t)[i] == ins[i] by {
    }
}

impl<T: TokenType + PartialEq> Lexer for StandardLexer<T> {
    type TokenTag = T;

    open spec fn can_modify(&self, tokens: Seq<Token<T>>, erased: Range<usize>, inserted: Seq<char>) -> bool {
        self.edit_fits(tokens, erased, inserted)
    }

    fn iter(&self) -> (r: Iter<'_, T>)
        ensures
            r.text() == self.text(),
            r.current().source_index == 0,
            !r.ended(),
    {
        Iter::with_source(self.source.as_str())
    }

    /// Edits the source and relexes from the token before the first one the
    /// edit can affect, until a token equivalent to an existing one (moved
    /// by the edit) comes after the inserted text.
    fn modify(&mut self, tokens: &[Token<T>], erased: Range<usize>, inserted: &str) -> (r: Modification<T>)
        ensures
            final(self).text() == spliced_text(old(self).text(), erased, inserted@),
            r.offset == encode_utf8(inserted@).len() - (erased.end - erased.start),
            r.erased.start == invalid_start(tokens@, erased.start as int),
            r.erased.start <= r.erased.end <= tokens@.len(),
            forall|i: int| 0 <= i < r.inserted@.len() ==> (#[trigger] r.inserted@[i]).range.start <= r.inserted@[i].range.end
                <= encode_utf8(final(self).text()).len(),
            exists|src: &str| src@ == final(self).text() && #[trigger] relexed(tokens@, erased, src, erased.start + encode_utf8(inserted@).len(), r.offset as int, r.inserted@, r.erased.end as int),
            forall|old_src: &str|
                old_src@ == old(self).text() && #[trigger] full_lex::<T>(old_src, tokens@) && lexes_locally::<T>() && T::obeys_eq_spec()
                    && (forall|x: T, y: T| #[trigger] x.eq_spec(&y) ==> x == y)
                ==> exists|src: &str, full: Seq<Token<T>>| src@ == final(self).text() && #[trigger] full_lex::<T>(src, full)
                    && moved_all(spliced_tokens(tokens@, r.erased.start as int, r.erased.end as int, r.inserted@, r.offset as int), full, 0),
    {
        let ghost old_text = self.source@;
        // Modify the source string
        let new_source = splice_source(&self.source, &erased, inserted);
        self.source = new_source;
        let ghost new_bytes = encode_utf8(self.source@);
        // 'invalid' is the range of tokens that are definitely affected and removed
        let mut invalid = Self::invalidated_range(tokens, &erased);
        proof {
            let (l, u) = choose|l: int, u: int|
                first_reaching(tokens@, erased.start as int, l) && first_ending(tokens@, l, erased.end as int, u)
                    && invalid.start == (if l > 0 { l - 1 } else { 0 })
                    && invalid.end == (if u < tokens@.len() { u + 1 } else { u });
            lemma_first_reaching_unique(tokens@, erased.start as int, l);
            lemma_first_ending_unique(tokens@, l, erased.end as int, u);
            vstd::utf8::encode_utf8_valid_utf8(self.source@);
        }
        // How much the characters shifted from the source change
        let inserted_len = inserted.len();
        let offset = inserted_len as isize - (erased.end - erased.start) as isize;
        // Construct an initial state: that of the first replaced token, which
        // the edit does not reach
        let start_state = if invalid.start > 0 {
            let first_tok = &tokens[invalid.start];
            let first_idx = first_tok.range.start;
            LexerState {
                source_index: first_idx,
                position: first_tok.position,
                last_char: char_before(self.source.as_str(), first_idx),
            }
        } else {
            LexerState::new()
        };
        proof {
            if invalid.start > 0 {
                vstd::utf8::is_char_boundary_start_end_of_seq(new_bytes);
            }
        }
        // The index where we can count on equivalent state
        let last_insertion = erased.start + inserted_len;
        let mut new_tokens: Vec<Token<T>> = Vec::new();
        let ghost st = start_state;
        let ghost e0 = invalid.end as int;
        let ghost li = last_insertion as int;
        let ghost off = offset as int;
        let ghost text = self.source@;
        let src = self.source.as_str();
        proof {
            assert(st == relex_start(tokens@, invalid.start as int, text));
            assert(e0 == invalid_end(tokens@, erased));
            assert(reads_tokens::<T>(src, st, new_tokens@, st));
        }
        let mut reached_end = false;
        // Now we go until we hit an equivalent state
        let mut it = Iter::<T>::with_source_and_state(src, start_state);
        loop
            invariant_except_break
                reads_tokens::<T>(src, st, new_tokens@, it.current()),
                it.ended() <==> exists|i: int| 0 <= i < new_tokens@.len() && (#[trigger] new_tokens@[i]).kind.ends_input(),
                !reached_end,
            invariant
                text == self.source@,
                src@ == text,
                it.source_str() == src,
                st == relex_start(tokens@, invalid.start as int, text),
                e0 == invalid_end(tokens@, erased),
                li == erased.start + inserted_len,
                li == last_insertion,
                off == offset,
                invalid.end == erased_end_after(tokens@, new_tokens@, new_tokens@.len(), e0, li, off),
                T::obeys_eq_spec() ==> forall|i: int|
                    0 <= i < new_tokens@.len() ==> not_a_match(tokens@, #[trigger] new_tokens@[i], li, erased_end_after(tokens@, new_tokens@, i as nat, e0, li, off), off),
                forall|i: int, j: int| 0 <= i < j < new_tokens@.len() && (#[trigger] new_tokens@[i]).kind.ends_input() ==> !(#[trigger] new_tokens@[j]).kind.ends_input(),
                it.text() == self.source@,
                new_bytes == encode_utf8(self.source@),
                it.current().source_index <= new_bytes.len(),
                new_bytes.len() + inserted_len <= isize::MAX,
                offset == inserted_len - (erased.end - erased.start),
                erased.start <= erased.end,
                erased.end - erased.start <= isize::MAX,
                inserted_len <= isize::MAX,
                invalid.start == invalid_start(tokens@, erased.start as int),
                invalid.start <= invalid.end <= tokens@.len(),
                forall|i: int| 0 <= i < tokens@.len() ==> (#[trigger] tokens@[i]).range.end <= isize::MAX && tokens@[i].range.start <= isize::MAX,
                forall|i: int| 0 <= i < new_tokens@.len() ==> (#[trigger] new_tokens@[i]).range.start <= new_tokens@[i].range.end
                    <= new_bytes.len(),
            ensures
                exists|after: LexerState| #[trigger] reads_tokens::<T>(src, st, new_tokens@, after) && {
                    ||| !reached_end && stops_at_match(tokens@, src, li, off, new_tokens@, invalid.end as int, after)
                    ||| reached_end && stops_at_end(src, new_tokens@, after)
                },
            decreases 2 * (usize::MAX - it.current().source_index) + (if it.ended() { 0int } else { 1int }),
        {
            let ghost before = it;
            let ghost nt0 = new_tokens@;
            let ghost e_b = invalid.end as int;
            match it.next() {
                None => {
                    // The end of input was read again: everything on is relexed
                    reached_end = true;
                    proof {
                        assert(reads_tokens::<T>(src, st, new_tokens@, before.current()));
                    }
                    break;
                },
                Some(token) => {
                    let ghost g = token;
                    proof {
                        assert(token.range.end == it.current().source_index);
                        assert(token.range.start <= token.range.end);
                        assert(reads_token::<T>(src, before.current(), g, it.current()));
                    }
                    if token.range.start > last_insertion {
                        // Possibly an equivalent state
                        if invalid.end < tokens.len() {
                            // Compare tokens
                            let existing = &tokens[invalid.end];
                            if token.range.end as i128 <= existing.range.start as i128 + offset as i128 {
                                // We just insert, the new token is completely before the existing one
                                new_tokens.push(token);
                            } else {
                                // The new token is after or intersects with the existing one
                                if Self::equivalent_tokens(&token, existing, offset) {
                                    // Equivalent, we are done
                                    proof {
                                        assert(meets_existing(tokens@, g, li, invalid.end as int, off));
                                        assert(same_place(g, tokens@[invalid.end as int], off));
                                        assert(reads_tokens::<T>(src, st, new_tokens@, before.current()));
                                        if exists|i: int| 0 <= i < new_tokens@.len() && (#[trigger] new_tokens@[i]).kind.ends_input() {
                                            assert(before.ended());
                                        }
                                    }
                                    break;
                                } else {
                                    // Not equivalent, erase, insert
                                    invalid.end += 1;
                                    new_tokens.push(token);
                                }
                            }
                        } else {
                            // We are inserting at the end
                            new_tokens.push(token);
                        }
                    } else {
                        // No possibility of an equivalent state, just insert
                        new_tokens.push(token);
                    }
                    proof {
                        assert(g.range.end <= new_bytes.len());
                        assert(new_tokens@ == nt0.push(g));
                        lemma_keep_token(tokens@, nt0, g, e0, li, off);
                        lemma_reads_push(src, st, nt0, before.current(), g, it.current());
                        if g.kind.ends_input() {
                            assert(!before.ended());
                            assert forall|i: int| 0 <= i < nt0.len() implies !(#[trigger] nt0[i]).kind.ends_input() by {
                            }
                        }
                        assert forall|i: int, j: int| 0 <= i < j < new_tokens@.len() && (#[trigger] new_tokens@[i]).kind.ends_input()
                            implies !(#[trigger] new_tokens@[j]).kind.ends_input() by {
                            if j < nt0.len() {
                                assert(new_tokens@[i] == nt0[i] && new_tokens@[j] == nt0[j]);
                            } else {
                                assert(new_tokens@[i] == nt0[i]);
                                assert(new_tokens@[j] == g);
                            }
                        }
                        if it.ended() {
                            if g.kind.ends_input() {
                                assert(new_tokens@[nt0.len() as int] == g);
                            } else {
                                assert(before.ended());
                                let i = choose|i: int| 0 <= i < nt0.len() && (#[trigger] nt0[i]).kind.ends_input();
                                assert(new_tokens@[i] == nt0[i]);
                            }
                        } else {
                            assert forall|i: int| 0 <= i < new_tokens@.len() implies !(#[trigger] new_tokens@[i]).kind.ends_input() by {
                                if i < nt0.len() {
                                    assert(new_tokens@[i] == nt0[i]);
                                }
                            }
                        }
                    }
                },
            }
        }
        if reached_end {
            invalid.end = tokens.len();
        }
        let r = Modification { erased: invalid, inserted: new_tokens, offset };
        proof {
            assert(src@ == self.text());
            assert(relexed(tokens@, erased, src, erased.start + encode_utf8(inserted@).len(), r.offset as int, r.inserted@, r.erased.end as int)) by {
                let after = choose|after: LexerState| #[trigger] reads_tokens::<T>(src, st, new_tokens@, after) && {
                    ||| !reached_end && stops_at_match(tokens@, src, li, off, new_tokens@, e0, after)
                    ||| reached_end && stops_at_end(src, new_tokens@, after)
                };
            }
            assert forall|old_src: &str|
                old_src@ == old(self).text() && #[trigger] full_lex::<T>(old_src, tokens@) && lexes_locally::<T>() && T::obeys_eq_spec()
                    && (forall|x: T, y: T| #[trigger] x.eq_spec(&y) ==> x == y)
                implies exists|src2: &str, full: Seq<Token<T>>| src2@ == self.text() && #[trigger] full_lex::<T>(src2, full)
                    && moved_all(spliced_tokens(tokens@, r.erased.start as int, r.erased.end as int, r.inserted@, r.offset as int), full, 0) by {
                lemma_relex_agrees(old_src, src, tokens@, erased, inserted@, r.offset as int, r.inserted@, r.erased.end as int);
            }
        }
        r
    }
}

} // verus!

verus! {

/// Encoding two texts one after the other encodes them in turn.
pub(crate) proof fn lemma_encode_concat(a: Seq<char>, b: Seq<char>)
    ensures
        encode_utf8(a + b) == encode_utf8(a) + encode_utf8(b),
    decreases a.len(),
{
    if a.len() == 0 {
        assert(a + b =~= b);
        assert(encode_utf8(a) + encode_utf8(b) =~= encode_utf8(b));
    } else {
        lemma_encode_concat(a.drop_first(), b);
        assert((a + b).drop_first() =~= a.drop_first() + b);
        assert((a + b)[0] == a[0]);
        assert(encode_utf8(a + b) =~= encode_utf8(a) + encode_utf8(b));
    }
}

/// The bytes of the source after an edit (what `modify` leaves as the
/// source): the bytes before the edit, those of the inserted text, and the
/// bytes after the edit.
pub proof fn lemma_spliced_bytes(text: Seq<char>, erased: Range<usize>, inserted: Seq<char>)
    requires
        erased.start <= erased.end <= encode_utf8(text).len(),
        is_char_boundary(encode_utf8(text), erased.start as int),
        is_char_boundary(encode_utf8(text), erased.end as int),
    ensures
        encode_utf8(spliced_text(text, erased, inserted)) == encode_utf8(text).subrange(0, erased.start as int)
            + encode_utf8(inserted) + encode_utf8(text).subrange(erased.end as int, encode_utf8(text).len() as int),
{
    let bytes = encode_utf8(text);
    let pre = bytes.subrange(0, erased.start as int);
    let post = bytes.subrange(erased.end as int, bytes.len() as int);
    vstd::utf8::encode_utf8_valid_utf8(text);
    vstd::utf8::valid_utf8_split(bytes, erased.start as int);
    vstd::utf8::valid_utf8_split(bytes, erased.end as int);
    vstd::utf8::decode_utf8_encode_utf8(pre);
    vstd::utf8::decode_utf8_encode_utf8(post);
    lemma_encode_concat(decode_utf8(pre), inserted);
    lemma_encode_concat(decode_utf8(pre) + inserted, decode_utf8(post));
}

} // verus!
