//! The lexer a token-kind enumeration derives: a deterministic automaton
//! built from its token definitions, and the reading of one lexeme with it.

use vstd::prelude::*;
use vstd::string::StringSliceAdditionalSpecFns;
use vstd::std_specs::iter::IteratorSpec;
use vstd::utf8::{encode_utf8, decode_utf8, is_char_boundary};
use crate::dfa::{Automaton as Dfa, State, lemma_deterministic, folded, folds_to, accepting_values, accepting_values_below, accepting_folds};
use crate::nfa::{Automaton as Nfa, thompson_size, repetitions_ordered};
use crate::regex_ast::{Node, Quantifier};
use crate::regex_lang::matches_word;
use crate::nfa::lemma_reads_lift;
use crate::regex_parser::{parse, spec_parse, Parsed};
use crate::token_defs::{LexerData, TokenDefinition};
use crate::interval_map::copy_of;
use crate::lexer::{LexerState, lemma_encode_concat};
use crate::position::Position;
use crate::regex_parser::{spec_is_control, is_control};

verus! {

broadcast use vstd::string::next_postcondition;

/// What a state of the lexer's automaton accepts: the definition (by its
/// place among the token definitions), its precedence, and whether its
/// matches are ignored.
#[derive(Debug, Clone, Copy, PartialEq, Eq)]
pub struct AcceptingState {
    pub definition: usize,
    pub precedence: usize,
    pub ignore: bool,
}

/// The kind of a lexeme: a defined token, an error, or the end of input.
#[derive(Debug, Clone, Copy, PartialEq, Eq)]
pub enum Lexeme {
    Definition(usize),
    Error,
    End,
}

/// The point on which the automaton reads the character `c`.
pub open spec fn char_point(c: char) -> int {
    2 * (c as int)
}

/// The points of the characters `cs`, in order.
pub open spec fn char_points(cs: Seq<char>) -> Seq<int> {
    cs.map_values(|c: char| char_point(c))
}

/// The number of bytes of `c` in UTF-8.
pub open spec fn char_width(c: char) -> nat {
    encode_utf8(seq![c]).len()
}

/// The state after reading the character `c`: one byte index further by
/// its width, on a new line after a carriage return or at a line feed, one
/// column further at any other character that is not a control character.
pub open spec fn after_char(st: LexerState, c: char) -> LexerState {
    LexerState {
        source_index: (st.source_index + char_width(c)) as usize,
        position: if st.last_char == Some('\r') || c == '\n' {
            Position { column: 0, line: (st.position.line + 1) as usize }
        } else if spec_is_control(c) {
            st.position
        } else {
            Position { column: (st.position.column + 1) as usize, line: st.position.line }
        },
        last_char: Some(c),
    }
}

/// The state after reading the characters `cs` in turn.
pub open spec fn after_chars(st: LexerState, cs: Seq<char>) -> LexerState
    decreases cs.len(),
{
    if cs.len() == 0 {
        st
    } else {
        after_char(after_chars(st, cs.drop_last()), cs.last())
    }
}

/// The automaton reads the first `i` characters of `cs`.
pub open spec fn reads_prefix<AV>(dfa: &Dfa<char, AV>, cs: Seq<char>, i: nat) -> bool {
    dfa.run_state(char_points(cs.take(i as int))) is Some
}

/// How many characters of `cs`, counted on from `i`, the automaton reads
/// before it meets one it cannot read or the end.
pub open spec fn read_len<AV>(dfa: &Dfa<char, AV>, cs: Seq<char>, i: nat) -> nat
    decreases cs.len() - i,
{
    if i >= cs.len() || !reads_prefix(dfa, cs, i + 1) {
        i
    } else {
        read_len(dfa, cs, i + 1)
    }
}

/// The length of the longest prefix of `cs` of at most `i` characters, and
/// of at least one, that the automaton reads to an accepting state.
pub open spec fn best_upto<AV>(dfa: &Dfa<char, AV>, cs: Seq<char>, i: nat) -> Option<nat>
    decreases i,
{
    if i == 0 {
        None
    } else if dfa.accepts_word(char_points(cs.take(i as int))) {
        Some(i)
    } else {
        best_upto(dfa, cs, (i - 1) as nat)
    }
}

/// The value the automaton accepts the first `j` characters of `cs` with.
pub open spec fn accepted_value<AV>(dfa: &Dfa<char, AV>, cs: Seq<char>, j: nat) -> AV {
    dfa.accepting_at(dfa.run_state(char_points(cs.take(j as int))).unwrap()).unwrap()
}

/// The kind of lexeme an accepting state gives: none where it is ignored.
pub open spec fn lexeme_of(v: AcceptingState) -> Option<Lexeme> {
    if v.ignore {
        None
    } else {
        Some(Lexeme::Definition(v.definition))
    }
}

/// The characters of `src` from the byte `i` on.
pub open spec fn chars_from(src: &str, i: int) -> Seq<char> {
    decode_utf8(src.spec_bytes().subrange(i, src.spec_bytes().len() as int))
}

/// The UTF-8 width of a character.
fn width_of(c: char) -> (r: usize)
    ensures
        r == char_width(c),
        1 <= r <= 4,
{
    proof {
        vstd::utf8::char_is_scalar(c);
        assert(seq![c].drop_first() =~= Seq::<char>::empty());
        assert(seq![c][0] == c);
        assert(encode_utf8(Seq::<char>::empty()) =~= Seq::<u8>::empty());
        assert(encode_utf8(seq![c]) =~= vstd::utf8::encode_scalar(c as u32));
    }
    let v = c as u32;
    if v <= 0x7F {
        1
    } else if v <= 0x7FF {
        2
    } else if v <= 0xFFFF {
        3
    } else {
        4
    }
}

/// The state the automaton moves to from `s` on the character `c`, if any.
fn step(dfa: &Dfa<char, AcceptingState>, s: State, c: char) -> (r: Option<State>)
    requires
        dfa.inv(),
    ensures
        r is Some <==> dfa.moves(s.index(), char_point(c)),
        r matches Some(t) ==> dfa.moves_to(s.index(), char_point(c), t.index()),
{
    match dfa.transitions_from(&s) {
        None => None,
        Some(m) => {
            let mut k: usize = 0;
            while k < m.intervals.len()
                invariant
                    m.intervals@ == dfa.transitions_at(s.index()),
                    k <= m.intervals@.len(),
                    forall|q: int| 0 <= q < k ==> !(#[trigger] m.intervals@[q]).0.has_point(char_point(c)),
                decreases m.intervals@.len() - k,
            {
                if m.intervals[k].0.contains(&c) {
                    let t = m.intervals[k].1;
                    proof {
                        assert(dfa.transitions_at(s.index())[k as int].0.has_point(char_point(c)));
                    }
                    return Some(t);
                }
                k = k + 1;
            }
            None
        },
    }
}

/// Reading the first `i` characters of `cs` determines how far reading
/// goes, once the automaton cannot read on.
proof fn lemma_read_len<AV>(dfa: &Dfa<char, AV>, cs: Seq<char>, k: nat, i: nat)
    requires
        k <= i <= cs.len(),
        forall|m: nat| k < m <= i ==> #[trigger] reads_prefix(dfa, cs, m),
        i == cs.len() || !reads_prefix(dfa, cs, i + 1),
    ensures
        read_len(dfa, cs, k) == i,
    decreases i - k,
{
    if k < i {
        assert(reads_prefix(dfa, cs, k + 1));
        lemma_read_len(dfa, cs, k + 1, i);
    }
}

/// Reading one more character appends its point.
proof fn lemma_points_push(cs: Seq<char>, i: int)
    requires
        0 <= i < cs.len(),
    ensures
        char_points(cs.take((i + 1) as int)) == char_points(cs.take(i)).push(char_point(cs[i])),
        cs.take((i + 1) as int) == cs.take(i).push(cs[i]),
{
    assert(cs.take((i + 1) as int) =~= cs.take(i).push(cs[i]));
    assert(char_points(cs.take((i + 1) as int)) =~= char_points(cs.take(i)).push(char_point(cs[i])));
}

/// Reads the next lexeme of `src` from `state` with the automaton `dfa`:
/// it reads characters as long as the automaton can, and takes the longest
/// prefix read to an accepting state, without a kind where that state is
/// ignored. Where it accepted none, the first character is an error; at the
/// end of the input, the end of input is read and the state stays. The
/// third value is the byte index up to which the source was looked at: past
/// the character that stopped the automaton, or the end.
pub fn dfa_next_lexeme(dfa: &Dfa<char, AcceptingState>, src: &str, state: &LexerState) -> (r: (LexerState, Option<Lexeme>, usize))
    requires
        dfa.inv(),
        src.spec_bytes().len() <= usize::MAX,
        state.source_index <= src.spec_bytes().len(),
        is_char_boundary(src.spec_bytes(), state.source_index as int),
        state.position.line + chars_from(src, state.source_index as int).len() <= usize::MAX,
        state.position.column + chars_from(src, state.source_index as int).len() <= usize::MAX,
    ensures
        ({
            let cs = chars_from(src, state.source_index as int);
            let n = read_len(dfa, cs, 0);
            &&& r.2 == after_chars(*state, cs.take((if n < cs.len() { n + 1 } else { n }) as int)).source_index
            &&& match best_upto(dfa, cs, n) {
                Some(j) => r.0 == after_chars(*state, cs.take(j as int)) && r.1 == lexeme_of(accepted_value(dfa, cs, j)),
                None => if cs.len() > 0 {
                    r.0 == after_chars(*state, cs.take(1)) && r.1 == Some(Lexeme::Error)
                } else {
                    r.0 == *state && r.1 == Some(Lexeme::End)
                },
            }
        }),
{
    let ghost bytes = src.spec_bytes();
    let ghost cs = chars_from(src, state.source_index as int);
    proof {
        vstd::utf8::encode_utf8_valid_utf8(src@);
    }
    let (_, rest) = src.split_at(state.source_index);
    proof {
        vstd::utf8::encode_utf8_decode_utf8(rest@);
        assert(rest@ == cs);
        vstd::string::axiom_spec_iter(rest);
    }
    let mut chars = rest.chars();
    let mut current = dfa.initial();
    let mut last_accepting: Option<(LexerState, Option<Lexeme>)> = None;
    let mut first: Option<LexerState> = None;
    let mut last = *state;
    let ghost mut i: nat = 0;
    proof {
        assert(cs.take(0) =~= Seq::<char>::empty());
        assert(char_points(cs.take(0)) =~= Seq::<int>::empty());
        assert(cs.skip(0) =~= cs);
        assert(encode_utf8(cs.take(0)) =~= Seq::<u8>::empty());
    }
    loop
        invariant
            dfa.inv(),
            cs == chars_from(src, state.source_index as int),
            encode_utf8(cs).len() == bytes.len() - state.source_index,
            bytes == src.spec_bytes(),
            bytes.len() <= usize::MAX,
            state.position.line + cs.len() <= usize::MAX,
            state.position.column + cs.len() <= usize::MAX,
            i <= cs.len(),
            chars.remaining() == cs.skip(i as int),
            last == after_chars(*state, cs.take(i as int)),
            last.source_index == state.source_index + encode_utf8(cs.take(i as int)).len(),
            last.position.line <= state.position.line + i,
            last.position.column <= state.position.column + i,
            i == 0 ==> first is None,
            i > 0 ==> first == Some(after_chars(*state, cs.take(1))),
            forall|m: nat| 0 < m <= i ==> #[trigger] reads_prefix(dfa, cs, m),
            dfa.run_state(char_points(cs.take(i as int))) == Some(current.index()),
            last_accepting == (match best_upto(dfa, cs, i) {
                Some(j) => Some((after_chars(*state, cs.take(j as int)), lexeme_of(accepted_value(dfa, cs, j)))),
                None => None::<(LexerState, Option<Lexeme>)>,
            }),
        decreases cs.len() - i,
    {
        let next = chars.next();
        match next {
            None => {
                proof {
                    assert(i == cs.len());
                    lemma_read_len(dfa, cs, 0, i);
                }
                let look = last.source_index;
                return match last_accepting {
                    Some((s, k)) => (s, k, look),
                    None => match first {
                        Some(f) => (f, Some(Lexeme::Error), look),
                        None => (*state, Some(Lexeme::End), look),
                    },
                };
            },
            Some(c) => {
                proof {
                    assert(c == cs[i as int]);
                    assert(cs.skip(i as int).drop_first() =~= cs.skip((i + 1) as int));
                    lemma_points_push(cs, i as int);
                    lemma_encode_concat(cs.take(i as int), seq![c]);
                    assert(cs.take(i as int).push(c) =~= cs.take(i as int) + seq![c]);
                    assert(cs =~= cs.take((i + 1) as int) + cs.skip((i + 1) as int));
                    lemma_encode_concat(cs.take((i + 1) as int), cs.skip((i + 1) as int));
                    assert(cs.take((i + 1) as int).drop_last() =~= cs.take(i as int));
                }
                let ghost before = last;
                let w = width_of(c);
                let newline = c == '\n' || match last.last_char {
                    Some(p) => p == '\r',
                    None => false,
                };
                if newline {
                    last.position.newline();
                } else if !is_control(c) {
                    last.position.advance_columns(1);
                }
                last.source_index = last.source_index + w;
                last.last_char = Some(c);
                if first.is_none() {
                    first = Some(last);
                }
                proof {
                    assert(last == after_char(before, c));
                    let t1 = cs.take((i + 1) as int);
                    assert(t1.drop_last() =~= cs.take(i as int));
                    assert(t1.last() == c);
                    assert(after_chars(*state, t1) == after_char(after_chars(*state, t1.drop_last()), t1.last()));
                    i = i + 1;
                    assert(last == after_chars(*state, cs.take(i as int)));
                }
                match step(dfa, current, c) {
                    None => {
                        proof {
                            let ps = char_points(cs.take((i - 1) as int));
                            assert(char_points(cs.take(i as int)) == ps.push(char_point(c)));
                            assert(ps.push(char_point(c)).drop_last() =~= ps);
                            assert(!reads_prefix(dfa, cs, i));
                            lemma_read_len(dfa, cs, 0, (i - 1) as nat);
                        }
                        let look = last.source_index;
                        return match last_accepting {
                            Some((s, k)) => (s, k, look),
                            None => match first {
                                Some(f) => (f, Some(Lexeme::Error), look),
                                None => (*state, Some(Lexeme::End), look),
                            },
                        };
                    },
                    Some(t) => {
                        proof {
                            let ps = char_points(cs.take((i - 1) as int));
                            let d = current.index();
                            let t2 = choose|t2: nat| dfa.moves_to(d, char_point(c), t2);
                            lemma_deterministic(dfa, d, char_point(c), t.index(), t2);
                            assert(char_points(cs.take(i as int)).drop_last() =~= ps);
                            assert(dfa.run_state(char_points(cs.take(i as int))) == Some(t.index()));
                        }
                        current = t;
                        match dfa.accepting_value(&t) {
                            Some(v) => {
                                let k = if v.ignore {
                                    None
                                } else {
                                    Some(Lexeme::Definition(v.definition))
                                };
                                last_accepting = Some((last, k));
                            },
                            None => {},
                        }
                    },
                }
            },
        }
    }
}

} // verus!

verus! {

/// Why no lexer is built from the token definitions.
#[derive(Debug, Clone, Copy, PartialEq, Eq)]
pub enum LexerBuildError {
    /// The pattern of the definition (by its place) is no regular expression.
    RegexSyntax(usize),
    /// The automaton would need more states than a `usize` numbers, by the
    /// definition at this place.
    TooLarge(usize),
    /// The two definitions have the same precedence and are both accepted
    /// in one state of the automaton.
    Conflict(usize, usize),
}

/// What the subset construction carries per state: the definition winning
/// so far, and the first two found tied.
#[derive(Clone, Copy)]
pub struct Candidate {
    pub best: AcceptingState,
    pub tie: Option<(usize, usize)>,
}

/// Unifying two candidates: a tie found before stays; else the higher
/// precedence wins, and on equal precedence the first stays and the two
/// are found tied.
pub open spec fn unified(a: Candidate, b: Candidate) -> Candidate {
    if a.tie is Some {
        a
    } else if b.tie is Some {
        b
    } else if a.best.precedence > b.best.precedence {
        a
    } else if a.best.precedence < b.best.precedence {
        b
    } else {
        Candidate { best: a.best, tie: Some((a.best.definition, b.best.definition)) }
    }
}

/// `v` wins among the candidates `vals`: it is one of them, and every other
/// has a lower precedence.
pub open spec fn wins(v: AcceptingState, vals: Seq<Candidate>) -> bool {
    &&& exists|i: int| 0 <= i < vals.len() && (#[trigger] vals[i]).best == v
    &&& forall|i: int| 0 <= i < vals.len() ==> (#[trigger] vals[i]).best == v || vals[i].best.precedence < v.precedence
}

/// Two of the candidates `vals`, the one for `a` before the one for `b`,
/// have the same precedence.
pub open spec fn tied_in(a: usize, b: usize, vals: Seq<Candidate>) -> bool {
    exists|i: int, j: int|
        0 <= i < j < vals.len() && (#[trigger] vals[i]).best.definition == a && (#[trigger] vals[j]).best.definition == b
            && vals[i].best.precedence == vals[j].best.precedence
}

/// The pattern parses as a regular expression.
pub open spec fn parses(pattern: Seq<char>) -> bool {
    spec_parse(pattern) is Matched
}

/// The accepting state of the definition at place `k`.
pub open spec fn defines(tokens: Seq<TokenDefinition>, k: int, v: AcceptingState) -> bool {
    &&& 0 <= k < tokens.len()
    &&& v.definition == k
    &&& v.precedence == tokens[k].precedence
    &&& v.ignore == tokens[k].ignore
}

/// The automaton joining the patterns' automata: well formed, and each of
/// its accepting states accepts with a candidate for one definition, with
/// no tie.
pub open spec fn lexer_nfa(tokens: Seq<TokenDefinition>, nfa: Nfa<char, Candidate>) -> bool {
    &&& nfa.inv()
    &&& forall|s: nat| #[trigger] nfa.accepting_at(s) is Some ==> defines(tokens, nfa.accepting_at(s).unwrap().best.definition as int,
        nfa.accepting_at(s).unwrap().best) && nfa.accepting_at(s).unwrap().tie is None
    &&& exists|nodes: Seq<Box<Node>>| #![trigger nodes.len()] nodes.len() == tokens.len() && forall|k: int| 0 <= k < tokens.len() ==> {
        &&& parsed_as(tokens[k].regex@, *#[trigger] nodes[k])
        &&& reads_pattern(nfa, *nodes[k], k)
    }
}

/// The pattern parses as the syntax tree of `rx`.
pub open spec fn parsed_as(pattern: Seq<char>, rx: Node) -> bool {
    exists|j: usize| spec_parse(pattern) == Parsed::Matched(rx.tree(), j)
}

/// Every word `rx` matches leads the automaton from its start to a state
/// accepting for the definition at place `k`.
pub open spec fn reads_pattern(nfa: Nfa<char, Candidate>, rx: Node, k: int) -> bool {
    forall|w: Seq<int>| #[trigger] matches_word(&rx, w) ==> exists|s: nat|
        #[trigger] nfa.reads(nfa.start_state().index(), w, s) && nfa.accepting_at(s) is Some && nfa.accepting_at(s).unwrap().best.definition == k
}

/// The higher precedence wins; on a tie the earlier value stays and the tie
/// is kept.
fn unify_candidates(a: Candidate, b: Candidate) -> (r: Candidate)
    ensures
        r == unified(a, b),
{
    if a.tie.is_some() {
        a
    } else if b.tie.is_some() {
        b
    } else if a.best.precedence > b.best.precedence {
        a
    } else if a.best.precedence < b.best.precedence {
        b
    } else {
        Candidate { best: a.best, tie: Some((a.best.definition, b.best.definition)) }
    }
}

/// The number of states Thompson's construction hands out for `rx`, where
/// its repetitions are ordered and that number fits a `usize`.
fn fragment_size(rx: &Node) -> (r: Option<usize>)
    ensures
        r matches Some(k) ==> repetitions_ordered(rx) && k == thompson_size(rx),
    decreases rx,
{
    match rx {
        Node::Alternative { first, second } => match (fragment_size(first), fragment_size(second)) {
            (Some(a), Some(b)) => if a <= usize::MAX - 2 && b <= usize::MAX - 2 - a {
                Some(a + b + 2)
            } else {
                None
            },
            _ => None,
        },
        Node::Sequence { first, second } => match (fragment_size(first), fragment_size(second)) {
            (Some(a), Some(b)) => if a <= usize::MAX - b {
                Some(a + b)
            } else {
                None
            },
            _ => None,
        },
        Node::Quantified { subnode, quantifier } => match fragment_size(subnode) {
            Some(k) => match quantifier {
                Quantifier::AtLeast(count) => {
                    if *count < usize::MAX {
                        match (*count + 1).checked_mul(k) {
                            Some(m) => if m < usize::MAX {
                                Some(m + 1)
                            } else {
                                None
                            },
                            None => None,
                        }
                    } else {
                        None
                    }
                },
                Quantifier::Between(least, most) => {
                    if *least <= *most {
                        match most.checked_mul(k) {
                            Some(m) => if m <= usize::MAX - 2 {
                                Some(m + 2)
                            } else {
                                None
                            },
                            None => None,
                        }
                    } else {
                        None
                    }
                },
            },
            None => None,
        },
        _ => Some(2),
    }
}

/// Each value of the accepting states of `set` is that of some accepting
/// state.
proof fn lemma_values_accepting<AV>(nfa: Nfa<char, AV>, set: Set<nat>, k: nat)
    ensures
        forall|i: int| #![trigger accepting_values_below(nfa, set, k)[i]] 0 <= i < accepting_values_below(nfa, set, k).len()
            ==> exists|s: nat| #[trigger] nfa.accepting_at(s) == Some(accepting_values_below(nfa, set, k)[i]),
    decreases k,
{
    if k > 0 {
        lemma_values_accepting(nfa, set, (k - 1) as nat);
        let rest = accepting_values_below(nfa, set, (k - 1) as nat);
        let vals = accepting_values_below(nfa, set, k);
        assert forall|i: int| #![trigger vals[i]] 0 <= i < vals.len() implies exists|s: nat| #[trigger] nfa.accepting_at(s) == Some(vals[i]) by {
            if i < rest.len() {
                assert(vals[i] == rest[i]);
            } else {
                assert(nfa.accepting_at((k - 1) as nat) == Some(vals[i]));
            }
        }
    }
}

/// The fold of values that each define a token keeps one of them, and a
/// tie it reports is one between two definitions of equal precedence.
proof fn lemma_fold_defines<F: Fn(Candidate, Candidate) -> Candidate>(unify: F, tokens: Seq<TokenDefinition>, vals: Seq<Candidate>, w: Candidate)
    requires
        folded(unify, vals, w),
        forall|i: int| 0 <= i < vals.len() ==> defines(tokens, (#[trigger] vals[i]).best.definition as int, vals[i].best) && vals[i].tie is None,
        forall|a: Candidate, b: Candidate, r: Candidate| #[trigger] call_ensures(unify, (a, b), r) ==> r == unified(a, b),
    ensures
        defines(tokens, w.best.definition as int, w.best),
        w.tie matches Some(p) ==> p.0 < tokens.len() && p.1 < tokens.len() && tokens[p.0 as int].precedence == tokens[p.1 as int].precedence,
        exists|i: int| 0 <= i < vals.len() && (#[trigger] vals[i]).best == w.best,
        w.tie is None ==> wins(w.best, vals),
        w.tie matches Some(p) ==> tied_in(p.0, p.1, vals),
    decreases vals.len(),
{
    if vals.len() <= 1 {
        assert(copy_of(vals[0], w));
    } else {
        let (a, c) = choose|a: Candidate, c: Candidate|
            folded(unify, vals.drop_last(), a) && copy_of(vals.last(), c) && #[trigger] call_ensures(unify, (a, c), w);
        assert forall|i: int| 0 <= i < vals.drop_last().len() implies defines(tokens, (#[trigger] vals.drop_last()[i]).best.definition as int, vals.drop_last()[i].best) && vals.drop_last()[i].tie is None by {
            assert(vals.drop_last()[i] == vals[i]);
        }
        lemma_fold_defines(unify, tokens, vals.drop_last(), a);
        assert(c == vals.last());
        let pre = vals.drop_last();
        let n = vals.len() - 1;
        assert(vals[n] == c);
        let ia = choose|i: int| 0 <= i < pre.len() && (#[trigger] pre[i]).best == a.best;
        assert(vals[ia] == pre[ia]);
        if w.tie is None {
            assert(a.tie is None);
            assert forall|i: int| 0 <= i < vals.len() implies (#[trigger] vals[i]).best == w.best || vals[i].best.precedence < w.best.precedence by {
                if i < n {
                    assert(vals[i] == pre[i]);
                }
            }
        }
        if w.tie is Some {
            if a.tie is Some {
                let (x, y) = a.tie.unwrap();
                let (i, j) = choose|i: int, j: int|
                    0 <= i < j < pre.len() && (#[trigger] pre[i]).best.definition == x && (#[trigger] pre[j]).best.definition == y
                        && pre[i].best.precedence == pre[j].best.precedence;
                assert(vals[i] == pre[i] && vals[j] == pre[j]);
            } else {
                assert(vals[ia].best.definition == a.best.definition);
            }
        }
    }
}

/// The automaton the lexer of the token definitions `data` reads with:
/// every pattern is parsed (the first that does not parse is an error),
/// the patterns' automata are joined at one start, accepting with their
/// definitions, and the subset construction makes it deterministic; a state
/// accepted by several definitions accepts with the one of the highest
/// precedence, and two of equal precedence met there are a conflict.
pub fn lexer_automaton(data: &LexerData) -> (r: Result<Dfa<char, AcceptingState>, LexerBuildError>)
    ensures
        match r {
            Err(LexerBuildError::RegexSyntax(i)) => i < data.tokens@.len() && !parses(data.tokens@[i as int].regex@)
                && forall|j: int| 0 <= j < i ==> parses(#[trigger] data.tokens@[j].regex@),
            Err(LexerBuildError::TooLarge(i)) => i < data.tokens@.len()
                && forall|j: int| 0 <= j < data.tokens@.len() ==> parses(#[trigger] data.tokens@[j].regex@),
            Err(LexerBuildError::Conflict(a, b)) => a < data.tokens@.len() && b < data.tokens@.len()
                && data.tokens@[a as int].precedence == data.tokens@[b as int].precedence
                && forall|j: int| 0 <= j < data.tokens@.len() ==> parses(#[trigger] data.tokens@[j].regex@)
                && exists|nfa: Nfa<char, Candidate>, dc: Dfa<char, Candidate>, sets: Seq<Set<nat>>, x: nat|
                    #![trigger dc.determinizes(nfa, sets), sets[x as int]]
                    dc.determinizes(nfa, sets) && lexer_nfa(data.tokens@, nfa) && x < sets.len()
                    && tied_in(a, b, accepting_values(nfa, sets[x as int])),
            Ok(d) => {
                &&& d.inv()
                &&& forall|j: int| 0 <= j < data.tokens@.len() ==> parses(#[trigger] data.tokens@[j].regex@)
                &&& forall|s: nat| #[trigger] d.accepting_at(s) is Some ==> defines(data.tokens@, d.accepting_at(s).unwrap().definition as int, d.accepting_at(s).unwrap())
                &&& exists|nfa: Nfa<char, Candidate>, sets: Seq<Set<nat>>| #[trigger] d.determinizes(nfa, sets) && lexer_nfa(data.tokens@, nfa)
                    && forall|x: nat| x < sets.len() && #[trigger] d.accepting_at(x) is Some
                        ==> wins(d.accepting_at(x).unwrap(), accepting_values(nfa, sets[x as int]))
            },
        },
{
    let n = data.tokens.len();
    let mut nodes: Vec<Box<Node>> = Vec::new();
    let mut k: usize = 0;
    while k < n
        invariant
            n == data.tokens@.len(),
            k <= n,
            nodes@.len() == k,
            forall|j: int| 0 <= j < k ==> parses(#[trigger] data.tokens@[j].regex@),
            forall|j: int| 0 <= j < k ==> parsed_as(data.tokens@[j].regex@, *#[trigger] nodes@[j]),
        decreases n - k,
    {
        match parse(data.tokens[k].regex.as_str()) {
            Ok(rx) => {
                nodes.push(rx);
            },
            Err(_) => {
                return Err(LexerBuildError::RegexSyntax(k));
            },
        }
        k = k + 1;
    }
    let mut nfa: Nfa<char, Candidate> = Nfa::new();
    let mut k: usize = 0;
    while k < n
        invariant
            n == data.tokens@.len(),
            k <= n,
            nodes@.len() == n,
            forall|j: int| 0 <= j < n ==> parses(#[trigger] data.tokens@[j].regex@),
            nfa.inv(),
            forall|s: nat| #[trigger] nfa.accepting_at(s) is Some ==> defines(data.tokens@, nfa.accepting_at(s).unwrap().best.definition as int, nfa.accepting_at(s).unwrap().best) && nfa.accepting_at(s).unwrap().tie is None,
            forall|j: int| 0 <= j < n ==> parsed_as(data.tokens@[j].regex@, *#[trigger] nodes@[j]),
            forall|j: int| 0 <= j < k ==> reads_pattern(nfa, *#[trigger] nodes@[j], j),
        decreases n - k,
    {
        let rx: &Node = &nodes[k];
        let size = match fragment_size(rx) {
            Some(z) => z,
            None => {
                return Err(LexerBuildError::TooLarge(k));
            },
        };
        if size > usize::MAX - nfa.last_state() {
            return Err(LexerBuildError::TooLarge(k));
        }
        let def = &data.tokens[k];
        let value = Candidate { best: AcceptingState { definition: k, precedence: def.precedence, ignore: def.ignore }, tie: None };
        let ghost before = nfa;
        let (_, fin) = nfa.add_regex_with_accepting_value(rx, value);
        proof {
            assert forall|j: int| 0 <= j < k + 1 implies reads_pattern(nfa, *#[trigger] nodes@[j], j) by {
                if j < k {
                    assert(reads_pattern(before, *nodes@[j], j));
                    assert forall|w: Seq<int>| #[trigger] matches_word(&*nodes@[j], w) implies exists|s: nat|
                        #[trigger] nfa.reads(nfa.start_state().index(), w, s) && nfa.accepting_at(s) is Some && nfa.accepting_at(s).unwrap().best.definition == j by {
                        let s = choose|s: nat| #[trigger] before.reads(before.start_state().index(), w, s) && before.accepting_at(s) is Some
                            && before.accepting_at(s).unwrap().best.definition == j;
                        lemma_reads_lift(&before, &nfa, before.start_state().index(), w, s);
                        before.lemma_accepting_bounded(s);
                        assert(nfa.accepting_at(s) == before.accepting_at(s));
                    }
                } else {
                    assert forall|w: Seq<int>| #[trigger] matches_word(&*nodes@[j], w) implies exists|s: nat|
                        #[trigger] nfa.reads(nfa.start_state().index(), w, s) && nfa.accepting_at(s) is Some && nfa.accepting_at(s).unwrap().best.definition == j by {
                        assert(nfa.reads(nfa.start_state().index(), w, fin.index()));
                    }
                }
            }
            assert forall|s: nat| #[trigger] nfa.accepting_at(s) is Some implies defines(data.tokens@, nfa.accepting_at(s).unwrap().best.definition as int, nfa.accepting_at(s).unwrap().best) && nfa.accepting_at(s).unwrap().tie is None by {
                if nfa.accepting_at(s) != before.accepting_at(s) {
                    assert(nfa.accepting_at(s) == Some(value));
                }
            }
        }
        k = k + 1;
    }
    let ghost built = nfa;
    let unify = |a: Candidate, b: Candidate| -> (r: Candidate)
        ensures
            r == unified(a, b),
    {
        unify_candidates(a, b)
    };
    let dfa = Dfa::from_nfa(nfa, unify);
    let ghost sets = choose|sets: Seq<Set<nat>>| #[trigger] dfa.determinizes(built, sets) && accepting_folds(dfa, unify, built, sets);
    proof {
        assert(lexer_nfa(data.tokens@, built)) by {
            assert(nodes@.len() == data.tokens@.len());
        }
        assert forall|s: nat| #[trigger] dfa.accepting_at(s) is Some implies defines(data.tokens@, dfa.accepting_at(s).unwrap().best.definition as int, dfa.accepting_at(s).unwrap().best)
            && (dfa.accepting_at(s).unwrap().tie matches Some(p) ==> p.0 < n && p.1 < n && data.tokens@[p.0 as int].precedence == data.tokens@[p.1 as int].precedence)
            && s < sets.len()
            && (dfa.accepting_at(s).unwrap().tie is None ==> wins(dfa.accepting_at(s).unwrap().best, accepting_values(built, sets[s as int])))
            && (dfa.accepting_at(s).unwrap().tie matches Some(p) ==> tied_in(p.0, p.1, accepting_values(built, sets[s as int]))) by {
            let c = dfa.accepting_at(s).unwrap();
            dfa.lemma_accepting_bounded(s);
            assert(s < sets.len());
            let vals = accepting_values(built, sets[s as int]);
            assert(folds_to(unify, vals, dfa.accepting_at(s)));
            lemma_values_accepting(built, sets[s as int], built.counter() + 1);
            assert forall|i: int| 0 <= i < vals.len() implies defines(data.tokens@, (#[trigger] vals[i]).best.definition as int, vals[i].best) && vals[i].tie is None by {
                let t = choose|t: nat| #[trigger] built.accepting_at(t) == Some(vals[i]);
            }
            lemma_fold_defines(unify, data.tokens@, vals, c);
        }
    }
    let states = dfa.states();
    let mut k: usize = 0;
    while k < states.len()
        invariant
            dfa.inv(),
            k <= states@.len(),
            states@.len() == dfa.counter() + 1,
            forall|i: int| 0 <= i < states@.len() ==> (#[trigger] states@[i]).index() == i,
            forall|s: nat| s < k ==> (#[trigger] dfa.accepting_at(s) is Some ==> dfa.accepting_at(s).unwrap().tie is None),
            n == data.tokens@.len(),
            forall|j: int| 0 <= j < n ==> parses(#[trigger] data.tokens@[j].regex@),
            forall|s: nat| #[trigger] dfa.accepting_at(s) is Some ==> defines(data.tokens@, dfa.accepting_at(s).unwrap().best.definition as int, dfa.accepting_at(s).unwrap().best)
                && (dfa.accepting_at(s).unwrap().tie matches Some(p) ==> p.0 < n && p.1 < n && data.tokens@[p.0 as int].precedence == data.tokens@[p.1 as int].precedence)
                && s < sets.len()
                && (dfa.accepting_at(s).unwrap().tie is None ==> wins(dfa.accepting_at(s).unwrap().best, accepting_values(built, sets[s as int])))
                && (dfa.accepting_at(s).unwrap().tie matches Some(p) ==> tied_in(p.0, p.1, accepting_values(built, sets[s as int]))),
            dfa.determinizes(built, sets),
            lexer_nfa(data.tokens@, built),
        decreases states@.len() - k,
    {
        match dfa.accepting_value(&states[k]) {
            Some(c) => match c.tie {
                Some((a, b)) => {
                    proof {
                        let x = states@[k as int].index();
                        assert(dfa.accepting_at(x) == Some(*c));
                        assert(tied_in(a, b, accepting_values(built, sets[x as int])));
                        assert(dfa.determinizes(built, sets) && lexer_nfa(data.tokens@, built) && x < sets.len()
                            && tied_in(a, b, accepting_values(built, sets[x as int])));
                    }
                    return Err(LexerBuildError::Conflict(a, b));
                },
                None => {},
            },
            None => {},
        }
        proof {
            assert(states@[k as int].index() == k);
        }
        k = k + 1;
    }
    let strip = |c: Candidate| -> (v: AcceptingState)
        ensures
            v == c.best,
    {
        c.best
    };
    let d = dfa.map_values(strip);
    proof {
        assert forall|s: nat| #[trigger] d.accepting_at(s) is Some implies defines(data.tokens@, d.accepting_at(s).unwrap().definition as int, d.accepting_at(s).unwrap()) by {
            assert(dfa.accepting_at(s) is Some);
        }
        assert forall|x: nat| x < sets.len() implies #[trigger] d.follows(built, sets, x) by {
            assert(dfa.follows(built, sets, x));
            assert(d.transitions_at(x) == dfa.transitions_at(x));
            assert forall|p: int| #[trigger] d.moves(x, p) == dfa.moves(x, p) by {
            }
            assert forall|p: int, t: nat| #[trigger] d.moves_to(x, p, t) == dfa.moves_to(x, p, t) by {
            }
        }
        assert forall|x: nat| x < sets.len() implies #[trigger] d.accepts_as(built, sets, x) by {
            assert(dfa.accepts_as(built, sets, x));
            assert(d.accepting_at(x) is Some == dfa.accepting_at(x) is Some);
        }
        assert(d.determinizes(built, sets));
        assert forall|x: nat| x < sets.len() && #[trigger] d.accepting_at(x) is Some implies wins(d.accepting_at(x).unwrap(), accepting_values(built, sets[x as int])) by {
            assert(dfa.accepting_at(x) is Some);
            assert(dfa.accepting_at(x).unwrap().tie is None);
        }
    }
    Ok(d)
}

} // verus!
