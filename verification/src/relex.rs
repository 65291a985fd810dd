//! Relexing after an edit, held against lexing the edited source from
//! scratch.

use vstd::prelude::*;
use vstd::string::StringSliceAdditionalSpecFns;
use vstd::utf8::{encode_utf8, is_char_boundary};
use std::ops::Range;
use crate::position::Position;
use crate::token::{Token, TokenType};
use crate::lexer::{LexerState, reads_token, reads_tokens, skips, reach, first_reaching, relex_start, shifted, lemma_reads_push,
    lemma_first_reaching_unique, lemma_spliced_bytes, spliced_text, relexed, stops_at_match, stops_at_end, invalid_start, invalid_end,
    erased_end_after, meets_existing, same_place};
use vstd::std_specs::cmp::PartialEqSpec;

verus! {

/// The token `t2` is `t1` moved by `d` bytes, of the same kind and the same
/// lookahead; only its line and column may differ.
pub open spec fn moved<T>(t1: Token<T>, t2: Token<T>, d: int) -> bool {
    &&& t2.range.start == t1.range.start + d
    &&& t2.range.end == t1.range.end + d
    &&& t2.kind == t1.kind
    &&& t2.lookahead == t1.lookahead
}

/// Each token of `s2` is the token of `s1` at the same place, moved by `d`.
pub open spec fn moved_all<T>(s1: Seq<Token<T>>, s2: Seq<Token<T>>, d: int) -> bool {
    &&& s2.len() == s1.len()
    &&& forall|i: int| 0 <= i < s1.len() ==> moved(s1[i], #[trigger] s2[i], d)
}

/// Byte `k` of `s1` is byte `k + d` of `s2`.
pub open spec fn byte_agrees(s1: &str, s2: &str, k: int, d: int) -> bool {
    0 <= k + d < s2.spec_bytes().len() && s2.spec_bytes()[k + d] == s1.spec_bytes()[k]
}

/// Where `s1` is looked at, from byte `from` up to byte `to`, `s2` holds the
/// same bytes `d` bytes further on; and if that reaches the end of `s1`,
/// `s2` ends `d` bytes further on.
#[verifier::opaque]
pub open spec fn window_agrees(s1: &str, s2: &str, from: int, to: int, d: int) -> bool {
    &&& forall|k: int| from <= k < to && 0 <= k < s1.spec_bytes().len() ==> #[trigger] byte_agrees(s1, s2, k, d)
    &&& 0 <= from
    &&& to >= s1.spec_bytes().len() ==> s2.spec_bytes().len() == s1.spec_bytes().len() + d
}

/// The same, for a whole region from `lo` up to `hi`, where a window reaching
/// the end of `s1` lies below `hi` only if `hi` is past that end.
#[verifier::opaque]
pub open spec fn region_agrees(s1: &str, s2: &str, lo: int, hi: int, d: int) -> bool {
    &&& forall|k: int| lo <= k < hi && 0 <= k < s1.spec_bytes().len() ==> #[trigger] byte_agrees(s1, s2, k, d)
    &&& 0 <= lo
    &&& hi > s1.spec_bytes().len() ==> s2.spec_bytes().len() == s1.spec_bytes().len() + d
}

/// The state at the start of a source.
pub open spec fn source_start() -> LexerState {
    LexerState { source_index: 0, position: Position { column: 0, line: 0 }, last_char: None }
}

/// How the lexer of `T` is expected to read, for relexing to be sound:
/// - a token, with the ignored lexemes before it, is read alike wherever the
///   bytes it looked at (from where reading started up to its reach) are
///   the same, whatever the line, column and last character;
/// - reading from the start of a token reads that token again;
/// - reading never moves backwards;
/// - after the end of input, the end of input is read again.
/// Marks a state that reading restarts from.
pub open spec fn restarted(x: LexerState) -> bool {
    true
}

#[verifier::opaque]
pub open spec fn lexes_locally<T: TokenType>() -> bool {
    &&& forall|s1: &str, s2: &str, a1: LexerState, t1: Token<T>, b1: LexerState, a2: LexerState, d: int|
        #![trigger reads_token::<T>(s1, a1, t1, b1), window_agrees(s1, s2, a1.source_index as int, reach(t1), d), restarted(a2)]
        reads_token::<T>(s1, a1, t1, b1) && a2.source_index == a1.source_index + d && window_agrees(
            s1,
            s2,
            a1.source_index as int,
            reach(t1),
            d,
        ) ==> exists|t2: Token<T>, b2: LexerState|
            #[trigger] reads_token::<T>(s2, a2, t2, b2) && moved(t1, t2, d) && b2.source_index == b1.source_index + d
    &&& forall|s: &str, a: LexerState, t: Token<T>, b: LexerState, x: LexerState|
        #![trigger reads_token::<T>(s, a, t, b), restarted(x)]
        reads_token::<T>(s, a, t, b) && x.source_index == t.range.start ==> exists|t2: Token<T>, b2: LexerState|
            #[trigger] reads_token::<T>(s, x, t2, b2) && moved(t, t2, 0) && b2.source_index == b.source_index
    &&& forall|s: &str, a: LexerState, t: Token<T>, b: LexerState|
        #[trigger] reads_token::<T>(s, a, t, b) ==> a.source_index <= t.range.start <= t.range.end
    &&& forall|s: &str, a: LexerState, t: Token<T>, b: LexerState|
        #![trigger reads_token::<T>(s, a, t, b), restarted(b)]
        reads_token::<T>(s, a, t, b) && t.kind.ends_input() ==> exists|t2: Token<T>, b2: LexerState|
            #[trigger] reads_token::<T>(s, b, t2, b2) && t2.kind.ends_input()
}

/// `toks` are all the tokens an iteration over `src` hands out: read one
/// after the other from the start of the source, with the end of input last
/// and only there, after which the end of input is read again.
pub open spec fn full_lex<T: TokenType>(src: &str, toks: Seq<Token<T>>) -> bool {
    exists|after: LexerState|
        #[trigger] reads_tokens::<T>(src, source_start(), toks, after) && {
            &&& toks.len() > 0
            &&& toks.last().kind.ends_input()
            &&& forall|i: int| 0 <= i < toks.len() - 1 ==> !(#[trigger] toks[i]).kind.ends_input()
            &&& exists|t: Token<T>, a2: LexerState| #[trigger] reads_token::<T>(src, after, t, a2) && t.kind.ends_input()
        }
}

/// The token read where the bytes it looked at agree is read alike.
proof fn use_local<T: TokenType>(s1: &str, s2: &str, a1: LexerState, t1: Token<T>, b1: LexerState, a2: LexerState, d: int) -> (r: (Token<T>, LexerState))
    requires
        lexes_locally::<T>(),
        reads_token::<T>(s1, a1, t1, b1),
        a2.source_index == a1.source_index + d,
        window_agrees(s1, s2, a1.source_index as int, reach(t1), d),
    ensures
        reads_token::<T>(s2, a2, r.0, r.1),
        moved(t1, r.0, d),
        r.1.source_index == b1.source_index + d,
{
    reveal(lexes_locally);
    assert(restarted(a2));
    choose|t2: Token<T>, b2: LexerState|
        #[trigger] reads_token::<T>(s2, a2, t2, b2) && moved(t1, t2, d) && b2.source_index == b1.source_index + d
}

/// Reading from the start of a token reads it again.
proof fn use_resume<T: TokenType>(s: &str, a: LexerState, t: Token<T>, b: LexerState, x: LexerState) -> (r: (Token<T>, LexerState))
    requires
        lexes_locally::<T>(),
        reads_token::<T>(s, a, t, b),
        x.source_index == t.range.start,
    ensures
        reads_token::<T>(s, x, r.0, r.1),
        moved(t, r.0, 0),
        r.1.source_index == b.source_index,
{
    reveal(lexes_locally);
    assert(restarted(x));
    choose|t2: Token<T>, b2: LexerState|
        #[trigger] reads_token::<T>(s, x, t2, b2) && moved(t, t2, 0) && b2.source_index == b.source_index
}

/// Reading moves forward.
proof fn use_forward<T: TokenType>(s: &str, a: LexerState, t: Token<T>, b: LexerState)
    requires
        lexes_locally::<T>(),
        reads_token::<T>(s, a, t, b),
    ensures
        a.source_index <= t.range.start <= t.range.end,
        t.range.end == b.source_index,
{
    reveal(lexes_locally);
}

/// After the end of input, the end of input is read again.
proof fn use_end<T: TokenType>(s: &str, a: LexerState, t: Token<T>, b: LexerState) -> (r: (Token<T>, LexerState))
    requires
        lexes_locally::<T>(),
        reads_token::<T>(s, a, t, b),
        t.kind.ends_input(),
    ensures
        reads_token::<T>(s, b, r.0, r.1),
        r.0.kind.ends_input(),
{
    reveal(lexes_locally);
    assert(restarted(b));
    choose|t2: Token<T>, b2: LexerState| #[trigger] reads_token::<T>(s, b, t2, b2) && t2.kind.ends_input()
}

/// Reading a token from a state gives one token and one state.
proof fn lemma_read_unique<T: TokenType>(s: &str, a: LexerState, t1: Token<T>, b1: LexerState, t2: Token<T>, b2: LexerState)
    requires
        reads_token::<T>(s, a, t1, b1),
        reads_token::<T>(s, a, t2, b2),
    ensures
        t1 == t2,
        b1 == b2,
{
    let c1 = choose|c: Seq<LexerState>|
        #[trigger] skips::<T>(s, c) && c[0] == a && {
            let last = c.last();
            let lx = T::lexeme(s, last);
            &&& lx.1 == Some(t1.kind)
            &&& lx.0 == b1
            &&& t1.range.start == last.source_index
            &&& t1.range.end == b1.source_index
            &&& t1.position == last.position
            &&& t1.lookahead == lx.2 - b1.source_index
        };
    let c2 = choose|c: Seq<LexerState>|
        #[trigger] skips::<T>(s, c) && c[0] == a && {
            let last = c.last();
            let lx = T::lexeme(s, last);
            &&& lx.1 == Some(t2.kind)
            &&& lx.0 == b2
            &&& t2.range.start == last.source_index
            &&& t2.range.end == b2.source_index
            &&& t2.position == last.position
            &&& t2.lookahead == lx.2 - b2.source_index
        };
    lemma_chains_agree::<T>(s, c1, c2, 0);
    if c1.len() < c2.len() {
        lemma_chains_agree::<T>(s, c1, c2, c1.len() - 1);
        assert(T::lexeme(s, c2[c1.len() - 1]).1 is None);
    } else if c2.len() < c1.len() {
        lemma_chains_agree::<T>(s, c1, c2, c2.len() - 1);
        assert(T::lexeme(s, c1[c2.len() - 1]).1 is None);
    } else {
        lemma_chains_agree::<T>(s, c1, c2, c1.len() - 1);
    }
    assert(t1.range == t2.range);
}

/// Two chains of ignored lexemes from one state agree as far as both go.
proof fn lemma_chains_agree<T: TokenType>(s: &str, c1: Seq<LexerState>, c2: Seq<LexerState>, i: int)
    requires
        skips::<T>(s, c1),
        skips::<T>(s, c2),
        c1[0] == c2[0],
        0 <= i < c1.len(),
        i < c2.len(),
    ensures
        c1[i] == c2[i],
    decreases i,
{
    if i > 0 {
        lemma_chains_agree::<T>(s, c1, c2, i - 1);
        assert(T::lexeme(s, c1[i - 1]).0 == c1[i]);
        assert(T::lexeme(s, c2[i - 1]).0 == c2[i]);
    }
}

/// Reading `xs` and then `ys` is reading `xs + ys`.
proof fn lemma_reads_concat<T: TokenType>(s: &str, st: LexerState, xs: Seq<Token<T>>, m: LexerState, ys: Seq<Token<T>>, b: LexerState)
    requires
        reads_tokens::<T>(s, st, xs, m),
        reads_tokens::<T>(s, m, ys, b),
    ensures
        reads_tokens::<T>(s, st, xs + ys, b),
    decreases ys.len(),
{
    if ys.len() == 0 {
        assert(xs + ys =~= xs);
    } else {
        let mid = choose|mid: LexerState|
            reads_tokens::<T>(s, m, ys.drop_last(), mid) && #[trigger] reads_token::<T>(s, mid, ys.last(), b);
        lemma_reads_concat(s, st, xs, m, ys.drop_last(), mid);
        assert((xs + ys).drop_last() =~= xs + ys.drop_last());
        assert((xs + ys).last() == ys.last());
        lemma_reads_push(s, st, xs + ys.drop_last(), mid, ys.last(), b);
        assert((xs + ys.drop_last()).push(ys.last()) =~= xs + ys);
    }
}

/// Reading `xs + ys` passes through a state from which `ys` is read.
proof fn lemma_reads_split<T: TokenType>(s: &str, st: LexerState, xs: Seq<Token<T>>, ys: Seq<Token<T>>, b: LexerState) -> (m: LexerState)
    requires
        reads_tokens::<T>(s, st, xs + ys, b),
    ensures
        reads_tokens::<T>(s, st, xs, m),
        reads_tokens::<T>(s, m, ys, b),
    decreases ys.len(),
{
    if ys.len() == 0 {
        assert(xs + ys =~= xs);
        b
    } else {
        assert((xs + ys).drop_last() =~= xs + ys.drop_last());
        assert((xs + ys).last() == ys.last());
        let mid = choose|mid: LexerState|
            reads_tokens::<T>(s, st, (xs + ys).drop_last(), mid) && #[trigger] reads_token::<T>(s, mid, (xs + ys).last(), b);
        let m = lemma_reads_split(s, st, xs, ys.drop_last(), mid);
        lemma_reads_push(s, m, ys.drop_last(), mid, ys.last(), b);
        assert(ys.drop_last().push(ys.last()) =~= ys);
        m
    }
}

/// Reading a window inside an agreeing region agrees.
proof fn lemma_window_in_region(s1: &str, s2: &str, lo: int, hi: int, d: int, from: int, to: int)
    requires
        region_agrees(s1, s2, lo, hi, d),
        lo <= from,
        to < hi,
    ensures
        window_agrees(s1, s2, from, to, d),
{
    reveal(window_agrees);
    reveal(region_agrees);
}

/// Tokens read where the sources agree are read alike in both, moved by `d`.
proof fn lemma_reads_transfer<T: TokenType>(
    s1: &str,
    s2: &str,
    a1: LexerState,
    xs: Seq<Token<T>>,
    b1: LexerState,
    a2: LexerState,
    lo: int,
    hi: int,
    d: int,
) -> (r: (Seq<Token<T>>, LexerState))
    requires
        lexes_locally::<T>(),
        reads_tokens::<T>(s1, a1, xs, b1),
        a2.source_index == a1.source_index + d,
        lo <= a1.source_index,
        region_agrees(s1, s2, lo, hi, d),
        forall|i: int| 0 <= i < xs.len() ==> reach(#[trigger] xs[i]) < hi,
    ensures
        reads_tokens::<T>(s2, a2, r.0, r.1),
        moved_all(xs, r.0, d),
        r.1.source_index == b1.source_index + d,
        a1.source_index <= b1.source_index,
    decreases xs.len(),
{
    if xs.len() == 0 {
        (Seq::empty(), a2)
    } else {
        let mid = choose|mid: LexerState|
            reads_tokens::<T>(s1, a1, xs.drop_last(), mid) && #[trigger] reads_token::<T>(s1, mid, xs.last(), b1);
        assert forall|i: int| 0 <= i < xs.drop_last().len() implies reach(#[trigger] xs.drop_last()[i]) < hi by {
            assert(xs.drop_last()[i] == xs[i]);
        }
        let (ys, m2) = lemma_reads_transfer(s1, s2, a1, xs.drop_last(), mid, a2, lo, hi, d);
        let last = xs.last();
        assert(reach(xs[xs.len() - 1]) < hi);
        lemma_window_in_region(s1, s2, lo, hi, d, mid.source_index as int, reach(last));
        assert(reads_token::<T>(s1, mid, last, b1));
        use_forward(s1, mid, last, b1);
        let (t2, b2) = use_local(s1, s2, mid, last, b1, m2, d);
        lemma_reads_push(s2, a2, ys, m2, t2, b2);
        assert forall|i: int| 0 <= i < xs.len() implies moved(xs[i], #[trigger] ys.push(t2)[i], d) by {
            if i < xs.len() - 1 {
                assert(xs[i] == xs.drop_last()[i]);
            }
        }
        (ys.push(t2), b2)
    }
}

/// After the end of input, only the end of input is read: the token after
/// an end token ends input, and so does any token read after the last one.
proof fn lemma_end_stays<T: TokenType>(s: &str, st: LexerState, xs: Seq<Token<T>>, after: LexerState, i: int)
    requires
        lexes_locally::<T>(),
        reads_tokens::<T>(s, st, xs, after),
        0 <= i < xs.len(),
        xs[i].kind.ends_input(),
    ensures
        i < xs.len() - 1 ==> xs[i + 1].kind.ends_input(),
        forall|t: Token<T>, a2: LexerState| i == xs.len() - 1 && #[trigger] reads_token::<T>(s, after, t, a2) ==> t.kind.ends_input(),
    decreases xs.len(),
{
    let mid = choose|mid: LexerState|
        reads_tokens::<T>(s, st, xs.drop_last(), mid) && #[trigger] reads_token::<T>(s, mid, xs.last(), after);
    if i == xs.len() - 1 {
        assert(reads_token::<T>(s, mid, xs.last(), after));
        let (t2, b2) = use_end(s, mid, xs.last(), after);
        assert forall|t: Token<T>, a2: LexerState| #[trigger] reads_token::<T>(s, after, t, a2) implies t.kind.ends_input() by {
            lemma_read_unique(s, after, t, a2, t2, b2);
        }
    } else {
        assert(xs.drop_last()[i] == xs[i]);
        lemma_end_stays(s, st, xs.drop_last(), mid, i);
        if i == xs.len() - 2 {
            assert(reads_token::<T>(s, mid, xs.last(), after));
        } else {
            assert(xs.drop_last()[i + 1] == xs[i + 1]);
        }
    }
}

} // verus!

verus! {

/// The tokens after an edit: those before the replaced ones, the inserted
/// ones, and those after the replaced ones, moved by `offset`.
pub open spec fn spliced_tokens<T>(tokens: Seq<Token<T>>, start: int, end: int, inserted: Seq<Token<T>>, offset: int) -> Seq<Token<T>> {
    tokens.take(start) + inserted + tokens.skip(end).map_values(|t: Token<T>| shifted(t, offset))
}

/// Some place is where the tokens reaching `at` begin.
proof fn lemma_reaching_exists<T>(tokens: Seq<Token<T>>, at: int) -> (l: int)
    ensures
        first_reaching(tokens, at, l),
    decreases tokens.len(),
{
    if tokens.len() == 0 {
        0
    } else {
        let l0 = lemma_reaching_exists(tokens.drop_last(), at);
        assert forall|j: int| 0 <= j < l0 implies reach(#[trigger] tokens[j]) < at by {
            assert(tokens[j] == tokens.drop_last()[j]);
        }
        if l0 < tokens.len() - 1 {
            assert(tokens[l0] == tokens.drop_last()[l0]);
            l0
        } else if reach(tokens.last()) >= at {
            l0
        } else {
            tokens.len() as int
        }
    }
}

/// A source agrees with itself.
proof fn lemma_self_region(s: &str)
    ensures
        region_agrees(s, s, 0, 2 * (usize::MAX as int) + 1, 0),
{
    reveal(region_agrees);
    assert forall|k: int| 0 <= k < 2 * (usize::MAX as int) + 1 && 0 <= k < s.spec_bytes().len() implies #[trigger] byte_agrees(s, s, k, 0) by {
        assert(k + 0 == k);
    }
}

/// A token is read as a sequence of one.
proof fn lemma_reads_one<T: TokenType>(s: &str, a: LexerState, t: Token<T>, b: LexerState)
    requires
        reads_token::<T>(s, a, t, b),
    ensures
        reads_tokens::<T>(s, a, seq![t], b),
{
    assert(reads_tokens::<T>(s, a, Seq::<Token<T>>::empty(), a));
    lemma_reads_push(s, a, Seq::<Token<T>>::empty(), a, t, b);
    assert(Seq::<Token<T>>::empty().push(t) =~= seq![t]);
}

/// A sequence of one is a token read.
proof fn lemma_one_reads<T: TokenType>(s: &str, a: LexerState, t: Token<T>, b: LexerState)
    requires
        reads_tokens::<T>(s, a, seq![t], b),
    ensures
        reads_token::<T>(s, a, t, b),
{
    let mid = choose|mid: LexerState|
        reads_tokens::<T>(s, a, seq![t].drop_last(), mid) && #[trigger] reads_token::<T>(s, mid, seq![t].last(), b);
    assert(seq![t].drop_last().len() == 0);
}

/// Relexing from its start, in the edited source, reads what a full lex of
/// the edited source reads up to the same place: the kept tokens before the
/// edit and then the inserted ones, up to line and column.
proof fn lemma_relex_head<T: TokenType>(
    old_src: &str,
    new_src: &str,
    tokens: Seq<Token<T>>,
    s: int,
    a: int,
    l: int,
    after_old: LexerState,
    ins: Seq<Token<T>>,
    after: LexerState,
) -> (r: (Seq<Token<T>>, LexerState))
    requires
        lexes_locally::<T>(),
        reads_tokens::<T>(old_src, source_start(), tokens, after_old),
        0 <= l <= tokens.len(),
        a == (if l > 0 { l - 1 } else { 0 }),
        a < tokens.len(),
        forall|j: int| 0 <= j < l ==> reach(#[trigger] tokens[j]) < s,
        region_agrees(old_src, new_src, 0, s, 0),
        reads_tokens::<T>(new_src, relex_start(tokens, a, new_src@), ins, after),
    ensures
        a > 0 ==> exists|t2: Token<T>, b2: LexerState|
            #[trigger] reads_token::<T>(new_src, relex_start(tokens, a, new_src@), t2, b2) && t2.range.start < s,
        ins.len() > 0 || a == 0 ==> {
            &&& reads_tokens::<T>(new_src, source_start(), r.0, r.1)
            &&& moved_all(tokens.take(a) + ins, r.0, 0)
            &&& r.1.source_index == after.source_index
        },
{
    let st = relex_start(tokens, a, new_src@);
    assert(tokens =~= tokens.take(a) + tokens.skip(a));
    let m = lemma_reads_split(old_src, source_start(), tokens.take(a), tokens.skip(a), after_old);
    assert forall|i: int| 0 <= i < tokens.take(a).len() implies reach(#[trigger] tokens.take(a)[i]) < s by {
        assert(tokens.take(a)[i] == tokens[i]);
    }
    let (yp, m2) = lemma_reads_transfer(old_src, new_src, source_start(), tokens.take(a), m, source_start(), 0, s, 0);
    let huge = 2 * (usize::MAX as int) + 1;
    lemma_self_region(new_src);
    if a == 0 {
        assert(st == source_start());
        assert(yp.len() == 0);
        assert(m2 == source_start()) by {
            assert(reads_tokens::<T>(new_src, source_start(), yp, m2));
        }
        lemma_reads_concat(new_src, source_start(), yp, m2, ins, after);
        assert forall|i: int| 0 <= i < (tokens.take(a) + ins).len() implies moved((tokens.take(a) + ins)[i], #[trigger] (yp + ins)[i], 0) by {
            assert((tokens.take(a) + ins)[i] == ins[i]);
            assert((yp + ins)[i] == ins[i]);
        }
        (yp + ins, after)
    } else {
        assert(tokens.skip(a) =~= seq![tokens[a]] + tokens.skip(a + 1));
        let ma1 = lemma_reads_split(old_src, m, seq![tokens[a]], tokens.skip(a + 1), after_old);
        lemma_one_reads(old_src, m, tokens[a], ma1);
        assert(reach(tokens[a]) < s);
        lemma_window_in_region(old_src, new_src, 0, s, 0, m.source_index as int, reach(tokens[a]));
        let (ta, ma1n) = use_local(old_src, new_src, m, tokens[a], ma1, m2, 0);
        let (t2, b2) = use_resume(new_src, m2, ta, ma1n, st);
        use_forward(old_src, m, tokens[a], ma1);
        assert(t2.range.start < s);
        if ins.len() == 0 {
            (yp, m2)
        } else {
            assert(ins =~= seq![ins[0]] + ins.skip(1));
            let q = lemma_reads_split(new_src, st, seq![ins[0]], ins.skip(1), after);
            lemma_one_reads(new_src, st, ins[0], q);
            lemma_read_unique(new_src, st, ins[0], q, t2, b2);
            assert forall|i: int| 0 <= i < ins.skip(1).len() implies reach(#[trigger] ins.skip(1)[i]) < huge by {
            }
            let (yr, aft) = lemma_reads_transfer(new_src, new_src, q, ins.skip(1), after, ma1n, 0, huge, 0);
            lemma_reads_one(new_src, m2, ta, ma1n);
            lemma_reads_concat(new_src, source_start(), yp, m2, seq![ta], ma1n);
            lemma_reads_concat(new_src, source_start(), yp + seq![ta], ma1n, yr, aft);
            let full = yp + seq![ta] + yr;
            let spl = tokens.take(a) + ins;
            assert forall|i: int| 0 <= i < spl.len() implies moved(spl[i], #[trigger] full[i], 0) by {
                if i < a {
                    assert(spl[i] == tokens.take(a)[i]);
                    assert(full[i] == yp[i]);
                } else if i == a {
                    assert(spl[i] == ins[0]);
                    assert(full[i] == ta);
                } else {
                    assert(spl[i] == ins.skip(1)[i - a - 1]);
                    assert(full[i] == yr[i - a - 1]);
                }
            }
            (full, aft)
        }
    }
}


/// The sources agree before the edit, and after it, moved by the offset.
proof fn lemma_edit_regions(old_src: &str, new_src: &str, erased: Range<usize>, inserted: Seq<char>, d: int)
    requires
        erased.start <= erased.end <= old_src.spec_bytes().len(),
        is_char_boundary(old_src.spec_bytes(), erased.start as int),
        is_char_boundary(old_src.spec_bytes(), erased.end as int),
        new_src@ == spliced_text(old_src@, erased, inserted),
        d == encode_utf8(inserted).len() - (erased.end - erased.start),
    ensures
        region_agrees(old_src, new_src, 0, erased.start as int, 0),
        region_agrees(old_src, new_src, erased.end as int, 2 * (usize::MAX as int) + 1, d),
{
    let ob = old_src.spec_bytes();
    let nb = new_src.spec_bytes();
    let st = erased.start as int;
    let en = erased.end as int;
    let mid = encode_utf8(inserted);
    lemma_spliced_bytes(old_src@, erased, inserted);
    assert(nb == ob.subrange(0, st) + mid + ob.subrange(en, ob.len() as int));
    assert(nb.len() == ob.len() + d);
    reveal(region_agrees);
    assert forall|k: int| 0 <= k < st && 0 <= k < ob.len() implies #[trigger] byte_agrees(old_src, new_src, k, 0) by {
        assert(nb[k] == ob[k]);
    }
    assert forall|k: int| en <= k < 2 * (usize::MAX as int) + 1 && 0 <= k < ob.len() implies #[trigger] byte_agrees(old_src, new_src, k, d) by {
        assert(nb[k + d] == ob.subrange(en, ob.len() as int)[k - en]);
    }
}

/// A token read where reading from `x` reads a token read from `a`, where
/// `x` and `a` are at the same byte.
proof fn lemma_same_index<T: TokenType>(s: &str, a: LexerState, t: Token<T>, b: LexerState, x: LexerState) -> (r: (Token<T>, LexerState))
    requires
        lexes_locally::<T>(),
        reads_token::<T>(s, a, t, b),
        x.source_index == a.source_index,
    ensures
        reads_token::<T>(s, x, r.0, r.1),
        moved(t, r.0, 0),
        r.1.source_index == b.source_index,
{
    let huge = 2 * (usize::MAX as int) + 1;
    lemma_self_region(s);
    lemma_window_in_region(s, s, 0, huge, 0, a.source_index as int, reach(t));
    use_local(s, s, a, t, b, x, 0)
}

/// Where the end of input is read at most once among the tokens `xs` read
/// from `st`, and at all, it is the last of them, and after them only the
/// end of input is read.
proof fn lemma_end_last<T: TokenType>(s: &str, st: LexerState, xs: Seq<Token<T>>, after: LexerState, i: int)
    requires
        lexes_locally::<T>(),
        reads_tokens::<T>(s, st, xs, after),
        0 <= i < xs.len(),
        xs[i].kind.ends_input(),
        forall|p: int, q: int| 0 <= p < q < xs.len() && (#[trigger] xs[p]).kind.ends_input() ==> !(#[trigger] xs[q]).kind.ends_input(),
    ensures
        i == xs.len() - 1,
        forall|t: Token<T>, a2: LexerState| #[trigger] reads_token::<T>(s, after, t, a2) ==> t.kind.ends_input(),
{
    lemma_end_stays(s, st, xs, after, i);
    if i < xs.len() - 1 {
        assert(!xs[i + 1].kind.ends_input());
    }
}

/// The case where relexing read the end of input.
proof fn lemma_relex_to_end<T: TokenType + PartialEq>(
    new_src: &str,
    tokens: Seq<Token<T>>,
    a: int,
    st: LexerState,
    ins: Seq<Token<T>>,
    after: LexerState,
    r0: Seq<Token<T>>,
    r1: LexerState,
)
    requires
        lexes_locally::<T>(),
        0 <= a < tokens.len(),
        forall|i: int| 0 <= i < tokens.len() - 1 ==> !(#[trigger] tokens[i]).kind.ends_input(),
        reads_tokens::<T>(new_src, st, ins, after),
        forall|p: int, q: int| 0 <= p < q < ins.len() && (#[trigger] ins[p]).kind.ends_input() ==> !(#[trigger] ins[q]).kind.ends_input(),
        stops_at_end(new_src, ins, after),
        reads_tokens::<T>(new_src, source_start(), r0, r1),
        moved_all(tokens.take(a) + ins, r0, 0),
        r1.source_index == after.source_index,
    ensures
        full_lex::<T>(new_src, r0),
        moved_all(spliced_tokens(tokens, a, tokens.len() as int, ins, 0), r0, 0),
{
    let i_end = choose|i: int| 0 <= i < ins.len() && (#[trigger] ins[i]).kind.ends_input();
    lemma_end_last(new_src, st, ins, after, i_end);
    let (te, ae) = choose|t: Token<T>, a2: LexerState| #[trigger] reads_token::<T>(new_src, after, t, a2) && t.kind.ends_input();
    let (t2, b2) = lemma_same_index(new_src, after, te, ae, r1);
    let spl = tokens.take(a) + ins;
    assert(spliced_tokens(tokens, a, tokens.len() as int, ins, 0) =~= spl);
    assert(r0.len() == spl.len());
    assert(r0.last().kind == ins.last().kind) by {
        assert(moved(spl[spl.len() - 1], r0[r0.len() - 1], 0));
    }
    assert forall|i: int| 0 <= i < r0.len() - 1 implies !(#[trigger] r0[i]).kind.ends_input() by {
        assert(moved(spl[i], r0[i], 0));
        if i < a {
            assert(spl[i] == tokens[i]);
        } else {
            assert(spl[i] == ins[i - a]);
        }
    }
    assert(full_lex::<T>(new_src, r0)) by {
        assert(reads_token::<T>(new_src, r1, t2, b2) && t2.kind.ends_input());
    }
}

/// The case where relexing stopped before an existing token.
proof fn lemma_relex_to_match<T: TokenType + PartialEq>(
    old_src: &str,
    new_src: &str,
    tokens: Seq<Token<T>>,
    after_old: LexerState,
    e: int,
    li: int,
    d: int,
    a: int,
    st: LexerState,
    ins: Seq<Token<T>>,
    r_end: int,
    after: LexerState,
    r0: Seq<Token<T>>,
    r1: LexerState,
)
    requires
        lexes_locally::<T>(),
        T::obeys_eq_spec(),
        forall|x: T, y: T| #[trigger] x.eq_spec(&y) ==> x == y,
        reads_tokens::<T>(old_src, source_start(), tokens, after_old),
        tokens.len() > 0,
        tokens.last().kind.ends_input(),
        forall|i: int| 0 <= i < tokens.len() - 1 ==> !(#[trigger] tokens[i]).kind.ends_input(),
        exists|t: Token<T>, a2: LexerState| #[trigger] reads_token::<T>(old_src, after_old, t, a2) && t.kind.ends_input(),
        region_agrees(old_src, new_src, e, 2 * (usize::MAX as int) + 1, d),
        li == e + d,
        0 <= a <= r_end,
        reads_tokens::<T>(new_src, st, ins, after),
        forall|p: int, q: int| 0 <= p < q < ins.len() && (#[trigger] ins[p]).kind.ends_input() ==> !(#[trigger] ins[q]).kind.ends_input(),
        stops_at_match(tokens, new_src, li, d, ins, r_end, after),
        reads_tokens::<T>(new_src, source_start(), r0, r1),
        moved_all(tokens.take(a) + ins, r0, 0),
        r1.source_index == after.source_index,
    ensures
        exists|full: Seq<Token<T>>| #[trigger] full_lex::<T>(new_src, full) && moved_all(spliced_tokens(tokens, a, r_end, ins, d), full, 0),
{
    let huge = 2 * (usize::MAX as int) + 1;
    let (t, a2) = choose|t: Token<T>, a2: LexerState|
        #[trigger] reads_token::<T>(new_src, after, t, a2) && meets_existing(tokens, t, li, r_end, d) && same_place(t, tokens[r_end], d)
            && (T::obeys_eq_spec() ==> t.kind.eq_spec(&tokens[r_end].kind))
            && ((exists|i: int| 0 <= i < ins.len() && (#[trigger] ins[i]).kind.ends_input()) ==> !t.kind.ends_input());
    assert(t.kind == tokens[r_end].kind);
    assert forall|i: int| 0 <= i < ins.len() implies !(#[trigger] ins[i]).kind.ends_input() by {
        if ins[i].kind.ends_input() {
            lemma_end_last(new_src, st, ins, after, i);
        }
    }
    let tk = tokens[r_end];
    assert(tokens =~= tokens.take(r_end) + tokens.skip(r_end));
    let m = lemma_reads_split(old_src, source_start(), tokens.take(r_end), tokens.skip(r_end), after_old);
    assert(tokens.skip(r_end) =~= seq![tk] + tokens.skip(r_end + 1));
    let m1 = lemma_reads_split(old_src, m, seq![tk], tokens.skip(r_end + 1), after_old);
    lemma_one_reads(old_src, m, tk, m1);
    use_forward(old_src, m, tk, m1);
    use_forward(new_src, after, t, a2);
    let (t2, b2) = lemma_same_index(new_src, after, t, a2, r1);
    let rest = tokens.skip(r_end + 1);
    assert forall|i: int| 0 <= i < rest.len() implies reach(#[trigger] rest[i]) < huge by {
    }
    let (ys, bend) = lemma_reads_transfer(old_src, new_src, m1, rest, after_old, b2, e, huge, d);
    lemma_reads_one(new_src, r1, t2, b2);
    lemma_reads_concat(new_src, source_start(), r0, r1, seq![t2], b2);
    lemma_reads_concat(new_src, source_start(), r0 + seq![t2], b2, ys, bend);
    let full = r0 + seq![t2] + ys;
    let spl = spliced_tokens(tokens, a, r_end, ins, d);
    let head = tokens.take(a) + ins;
    assert(spl =~= head + seq![shifted(tk, d)] + rest.map_values(|x: Token<T>| shifted(x, d))) by {
        assert(tokens.skip(r_end).map_values(|x: Token<T>| shifted(x, d)) =~= seq![shifted(tk, d)] + rest.map_values(|x: Token<T>| shifted(x, d)));
    }
    assert forall|i: int| 0 <= i < spl.len() implies moved(spl[i], #[trigger] full[i], 0) by {
        if i < head.len() {
            assert(spl[i] == head[i]);
            assert(full[i] == r0[i]);
        } else if i == head.len() {
            assert(spl[i] == shifted(tk, d));
            assert(full[i] == t2);
        } else {
            let j = i - head.len() - 1;
            assert(spl[i] == shifted(rest[j], d));
            assert(full[i] == ys[j]);
            assert(moved(rest[j], ys[j], d));
        }
    }
    let (te, ae) = choose|t: Token<T>, a2: LexerState| #[trigger] reads_token::<T>(old_src, after_old, t, a2) && t.kind.ends_input();
    lemma_window_in_region(old_src, new_src, e, huge, d, after_old.source_index as int, reach(te));
    let (te2, ae2) = use_local(old_src, new_src, after_old, te, ae, bend, d);
    assert(full.len() == spl.len());
    assert(full.last().kind.ends_input()) by {
        if ys.len() > 0 {
            assert(moved(rest[rest.len() - 1], ys[ys.len() - 1], d));
            assert(rest[rest.len() - 1] == tokens.last());
            assert(full.last() == ys.last());
        } else {
            assert(r_end == tokens.len() - 1);
            assert(full.last() == t2);
        }
    }
    assert forall|i: int| 0 <= i < full.len() - 1 implies !(#[trigger] full[i]).kind.ends_input() by {
        assert(moved(spl[i], full[i], 0));
        if i < head.len() {
            assert(spl[i] == head[i]);
            if i < a {
                assert(head[i] == tokens[i]);
            } else {
                assert(head[i] == ins[i - a]);
            }
        } else if i == head.len() {
            assert(r_end < tokens.len() - 1);
        } else {
            let j = i - head.len() - 1;
            assert(spl[i] == shifted(rest[j], d));
            assert(rest[j] == tokens[r_end + 1 + j]);
        }
    }
    assert(full_lex::<T>(new_src, full)) by {
        assert(reads_token::<T>(new_src, bend, te2, ae2) && te2.kind.ends_input());
    }
}

/// Relexing after an edit agrees with lexing the edited source from scratch.
/// Where `tokens` are all the tokens of the source before the edit, and
/// relexing (as `modify` does it) read `ins` and replaced the tokens up to
/// `r_end`, the tokens before the replaced ones, then `ins`, then the tokens
/// from `r_end` on moved by the offset are all the tokens of the edited
/// source: of the same kinds, in the same places, with the same lookahead
/// (the line and column of a moved token are those it had). This holds for
/// a token kind whose lexer reads locally and whose `==` is equality.
pub proof fn lemma_relex_agrees<T: TokenType + PartialEq>(
    old_src: &str,
    new_src: &str,
    tokens: Seq<Token<T>>,
    erased: Range<usize>,
    inserted: Seq<char>,
    offset: int,
    ins: Seq<Token<T>>,
    r_end: int,
)
    requires
        lexes_locally::<T>(),
        T::obeys_eq_spec(),
        forall|x: T, y: T| #[trigger] x.eq_spec(&y) ==> x == y,
        full_lex::<T>(old_src, tokens),
        erased.start <= erased.end <= old_src.spec_bytes().len(),
        is_char_boundary(old_src.spec_bytes(), erased.start as int),
        is_char_boundary(old_src.spec_bytes(), erased.end as int),
        new_src@ == spliced_text(old_src@, erased, inserted),
        offset == encode_utf8(inserted).len() - (erased.end - erased.start),
        0 <= r_end,
        relexed(tokens, erased, new_src, erased.start + encode_utf8(inserted).len(), offset, ins, r_end),
    ensures
        exists|full: Seq<Token<T>>| #[trigger] full_lex::<T>(new_src, full)
            && moved_all(spliced_tokens(tokens, invalid_start(tokens, erased.start as int), r_end, ins, offset), full, 0),
{
    let sb = erased.start as int;
    let li = erased.start + encode_utf8(inserted).len();
    lemma_edit_regions(old_src, new_src, erased, inserted, offset);
    let after_old = choose|after: LexerState|
        #[trigger] reads_tokens::<T>(old_src, source_start(), tokens, after) && {
            &&& tokens.len() > 0
            &&& tokens.last().kind.ends_input()
            &&& forall|i: int| 0 <= i < tokens.len() - 1 ==> !(#[trigger] tokens[i]).kind.ends_input()
            &&& exists|t: Token<T>, a2: LexerState| #[trigger] reads_token::<T>(old_src, after, t, a2) && t.kind.ends_input()
        };
    let l = lemma_reaching_exists(tokens, sb);
    lemma_first_reaching_unique(tokens, sb, l);
    let a = if l > 0 { l - 1 } else { 0 };
    assert(invalid_start(tokens, sb) == a);
    let st = relex_start(tokens, a, new_src@);
    let e0 = invalid_end(tokens, erased);
    let after = choose|after: LexerState| #[trigger] reads_tokens::<T>(new_src, st, ins, after) && {
        ||| r_end == erased_end_after(tokens, ins, ins.len(), e0, li, offset) && stops_at_match(tokens, new_src, li, offset, ins, r_end, after)
        ||| r_end == tokens.len() && stops_at_end(new_src, ins, after)
    };
    let (r0, r1) = lemma_relex_head(old_src, new_src, tokens, sb, a, l, after_old, ins, after);
    if ins.len() == 0 && a > 0 {
        if stops_at_match(tokens, new_src, li, offset, ins, r_end, after) {
            let (t, a2) = choose|t: Token<T>, a2: LexerState|
                #[trigger] reads_token::<T>(new_src, after, t, a2) && meets_existing(tokens, t, li, r_end, offset);
            assert(reads_tokens::<T>(new_src, st, ins, after));
            assert(after == st);
            let (t2, b2) = choose|t2: Token<T>, b2: LexerState| #[trigger] reads_token::<T>(new_src, st, t2, b2) && t2.range.start < sb;
            lemma_read_unique(new_src, st, t, a2, t2, b2);
        }
    } else if stops_at_match(tokens, new_src, li, offset, ins, r_end, after) && r_end == erased_end_after(tokens, ins, ins.len(), e0, li, offset) {
        let (t, a2) = choose|t: Token<T>, a2: LexerState|
            #[trigger] reads_token::<T>(new_src, after, t, a2) && meets_existing(tokens, t, li, r_end, offset) && same_place(t, tokens[r_end], offset);
        assert(a <= r_end) by {
            if r_end < a {
                use_forward(new_src, after, t, a2);
                assert(reach(tokens[r_end]) < sb);
            }
        }
        lemma_relex_to_match(old_src, new_src, tokens, after_old, erased.end as int, li, offset, a, st, ins, r_end, after, r0, r1);
    } else {
        lemma_relex_to_end(new_src, tokens, a, st, ins, after, r0, r1);
        assert(spliced_tokens(tokens, a, tokens.len() as int, ins, 0) =~= spliced_tokens(tokens, a, tokens.len() as int, ins, offset));
    }
}

} // verus!
