//! The token definitions of a token-kind enumeration, read from the
//! attributes of its variants: `#[end]` and `#[error]` mark the variants
//! for the end of input and for a lexing error, `#[token("...")]`,
//! `#[regex("...")]` and `#[c_ident]` define what a variant matches, and
//! `#[ignore]` drops the matches of a definition from the token stream.

use vstd::prelude::*;
use crate::regex_parser::{spec_is_special, is_special_char, spec_is_control, spec_is_nonspecial, spec_parse, spec_alternative, spec_sequence,
    spec_quantified, spec_atom, spec_quantifier, char_at, Parsed};
use crate::regex_ast::{Node, RegexTree};
use crate::regex_lang::matches_word;
use crate::rnd::push_char;
use vstd::string::StrSliceExecFns;

verus! {

/// An attribute of a variant that the lexer reads.
pub enum AttrSpec {
    End,
    Error,
    Token(String),
    Regex(String),
    CIdent,
    Ignore,
}

/// A variant of the enumeration: its name, whether it has no fields, and
/// its attributes in order.
pub struct VariantSpec {
    pub name: String,
    pub is_unit: bool,
    pub attrs: Vec<AttrSpec>,
}

/// What a variant matches: the regular expression, its precedence (a
/// literal token wins over a pattern), and whether matches are ignored.
pub struct TokenDefinition {
    pub variant: String,
    pub regex: String,
    pub precedence: usize,
    pub ignore: bool,
}

/// The enumeration's name, its error and end variants, and the token
/// definitions in the order of the variants.
pub struct LexerData {
    pub enum_name: String,
    pub err_variant: String,
    pub end_variant: String,
    pub tokens: Vec<TokenDefinition>,
}

/// Why the attributes do not define a lexer.
#[derive(Debug, Clone, Copy, PartialEq, Eq)]
pub enum LexerDataError {
    /// A variant has fields.
    NonUnitVariant,
    /// An `end` variant has another attribute.
    EndWithOther,
    /// An `error` variant has another attribute.
    ErrorWithOther,
    /// A variant has more than one definition.
    MultipleDefinitions,
    /// A variant is ignored before (or without) its definition.
    IgnoreWithoutDefinition,
    /// More than one `end`.
    DuplicateEnd,
    /// More than one `error`.
    DuplicateError,
    /// No `end`.
    MissingEnd,
    /// No `error`.
    MissingError,
}

/// The pattern of a C-style identifier.
pub open spec fn c_ident_pattern() -> Seq<char> {
    "[A-Za-z_][A-Za-z0-9_]*"@
}

/// `s` with a backslash before each character that has a meaning in a
/// regular expression, so that it matches `s` itself.
pub open spec fn escaped(s: Seq<char>) -> Seq<char>
    decreases s.len(),
{
    if s.len() == 0 {
        Seq::empty()
    } else if spec_is_special(s.last()) {
        escaped(s.drop_last()) + seq!['\\', s.last()]
    } else {
        escaped(s.drop_last()).push(s.last())
    }
}

/// The attribute `a` is `end`.
pub open spec fn ends() -> spec_fn(AttrSpec) -> bool {
    |a: AttrSpec| a is End
}

/// The attribute `a` is `error`.
pub open spec fn errors() -> spec_fn(AttrSpec) -> bool {
    |a: AttrSpec| a is Error
}

/// The attribute `a` defines what the variant matches.
pub open spec fn defines() -> spec_fn(AttrSpec) -> bool {
    |a: AttrSpec| a is Token || a is Regex || a is CIdent
}

/// The attribute `a` is `ignore`.
pub open spec fn ignores() -> spec_fn(AttrSpec) -> bool {
    |a: AttrSpec| a is Ignore
}

/// How many of the attributes satisfy `p`.
pub open spec fn count(attrs: Seq<AttrSpec>, p: spec_fn(AttrSpec) -> bool) -> nat
    decreases attrs.len(),
{
    if attrs.len() == 0 {
        0
    } else {
        count(attrs.drop_last(), p) + if p(attrs.last()) { 1nat } else { 0nat }
    }
}

/// The first definition among the attributes.
pub open spec fn definition(attrs: Seq<AttrSpec>) -> Option<AttrSpec>
    decreases attrs.len(),
{
    if attrs.len() == 0 {
        None
    } else if definition(attrs.drop_last()) is Some {
        definition(attrs.drop_last())
    } else if defines()(attrs.last()) {
        Some(attrs.last())
    } else {
        None
    }
}

/// An `ignore` comes before any definition among the attributes.
pub open spec fn ignored_early(attrs: Seq<AttrSpec>) -> bool
    decreases attrs.len(),
{
    if attrs.len() == 0 {
        false
    } else {
        ignored_early(attrs.drop_last()) || (attrs.last() is Ignore && definition(attrs.drop_last()) is None)
    }
}

/// What is wrong with the variant alone, if anything.
pub open spec fn variant_error(v: VariantSpec) -> Option<LexerDataError> {
    let a = v.attrs@;
    if !v.is_unit {
        Some(LexerDataError::NonUnitVariant)
    } else if count(a, ends()) > 0 && count(a, ends()) < a.len() {
        Some(LexerDataError::EndWithOther)
    } else if count(a, errors()) > 0 && count(a, errors()) < a.len() {
        Some(LexerDataError::ErrorWithOther)
    } else if count(a, defines()) > 1 {
        Some(LexerDataError::MultipleDefinitions)
    } else if ignored_early(a) {
        Some(LexerDataError::IgnoreWithoutDefinition)
    } else {
        None
    }
}

/// The error of the first of the first `k` variants that has one.
pub open spec fn first_variant_error(vs: Seq<VariantSpec>, k: nat) -> Option<LexerDataError>
    decreases k,
{
    if k == 0 {
        None
    } else if first_variant_error(vs, (k - 1) as nat) is Some {
        first_variant_error(vs, (k - 1) as nat)
    } else {
        variant_error(vs[k - 1])
    }
}

/// How many attributes satisfying `p` the first `k` variants have.
pub open spec fn total(vs: Seq<VariantSpec>, p: spec_fn(AttrSpec) -> bool, k: nat) -> nat
    decreases k,
{
    if k == 0 {
        0
    } else {
        total(vs, p, (k - 1) as nat) + count(vs[k - 1].attrs@, p)
    }
}

/// What the attributes of all variants are refused for, if anything: the
/// first variant that is wrong alone, then a second `end` or `error`, then
/// a missing one.
pub open spec fn lexer_data_error(vs: Seq<VariantSpec>) -> Option<LexerDataError> {
    let n = vs.len();
    if first_variant_error(vs, n) is Some {
        first_variant_error(vs, n)
    } else if total(vs, ends(), n) > 1 {
        Some(LexerDataError::DuplicateEnd)
    } else if total(vs, errors(), n) > 1 {
        Some(LexerDataError::DuplicateError)
    } else if total(vs, ends(), n) == 0 {
        Some(LexerDataError::MissingEnd)
    } else if total(vs, errors(), n) == 0 {
        Some(LexerDataError::MissingError)
    } else {
        None
    }
}

/// The regular expression and precedence of a definition.
pub open spec fn pattern_of(d: AttrSpec) -> (Seq<char>, usize) {
    match d {
        AttrSpec::Token(s) => (escaped(s@), 1),
        AttrSpec::Regex(s) => (s@, 0),
        _ => (c_ident_pattern(), 0),
    }
}

/// A token definition as plain values: variant, pattern, precedence and
/// whether it is ignored.
pub open spec fn definition_view(t: TokenDefinition) -> (Seq<char>, Seq<char>, usize, bool) {
    (t.variant@, t.regex@, t.precedence, t.ignore)
}

/// The token definitions of the first `k` variants, in order.
pub open spec fn definitions(vs: Seq<VariantSpec>, k: nat) -> Seq<(Seq<char>, Seq<char>, usize, bool)>
    decreases k,
{
    if k == 0 {
        Seq::empty()
    } else {
        let v = vs[k - 1];
        match definition(v.attrs@) {
            Some(d) => definitions(vs, (k - 1) as nat).push(
                (v.name@, pattern_of(d).0, pattern_of(d).1, count(v.attrs@, ignores()) > 0),
            ),
            None => definitions(vs, (k - 1) as nat),
        }
    }
}

/// Once one of the first `k` variants has an error, the first error of more
/// variants is that one.
proof fn lemma_first_error_stays(vs: Seq<VariantSpec>, k: nat, m: nat)
    requires
        k <= m,
        first_variant_error(vs, k) is Some,
    ensures
        first_variant_error(vs, m) == first_variant_error(vs, k),
    decreases m,
{
    if m > k {
        lemma_first_error_stays(vs, k, (m - 1) as nat);
    }
}

/// The first definition is a definition.
proof fn lemma_definition_defines(attrs: Seq<AttrSpec>)
    requires
        definition(attrs) is Some,
    ensures
        defines()(definition(attrs).unwrap()),
    decreases attrs.len(),
{
    if definition(attrs.drop_last()) is Some {
        lemma_definition_defines(attrs.drop_last());
    }
}

/// `s` escaped for a regular expression.
fn escape(s: &str) -> (r: String)
    ensures
        r@ == escaped(s@),
{
    let n = s.unicode_len();
    let mut r = String::new();
    let mut i: usize = 0;
    while i < n
        invariant
            n == s@.len(),
            i <= n,
            r@ == escaped(s@.take(i as int)),
        decreases n - i,
    {
        let c = s.get_char(i);
        proof {
            let t = s@.take(i as int + 1);
            assert(t.drop_last() =~= s@.take(i as int));
            assert(t.last() == c);
        }
        if is_special_char(c) {
            push_char(&mut r, '\\');
            push_char(&mut r, c);
            proof {
                assert(escaped(s@.take(i as int)).push('\\').push(c) =~= escaped(s@.take(i as int)) + seq!['\\', c]);
            }
        } else {
            push_char(&mut r, c);
        }
        i = i + 1;
    }
    proof {
        assert(s@.take(n as int) =~= s@);
    }
    r
}

/// What one variant's attributes say, read in one pass.
struct Reading {
    ends: usize,
    errors: usize,
    defs: usize,
    ignores: usize,
    def: Option<usize>,
    early_ignore: bool,
}

/// Counts the attributes of each kind, and finds the first definition.
fn read_attrs(attrs: &Vec<AttrSpec>) -> (r: Reading)
    ensures
        r.ends == count(attrs@, ends()),
        r.errors == count(attrs@, errors()),
        r.defs == count(attrs@, defines()),
        r.ignores == count(attrs@, ignores()),
        r.early_ignore == ignored_early(attrs@),
        match r.def {
            Some(i) => i < attrs@.len() && definition(attrs@) == Some(attrs@[i as int]),
            None => definition(attrs@) is None,
        },
{
    let mut r = Reading { ends: 0, errors: 0, defs: 0, ignores: 0, def: None, early_ignore: false };
    let mut i: usize = 0;
    while i < attrs.len()
        invariant
            i <= attrs@.len(),
            r.ends == count(attrs@.take(i as int), ends()),
            r.errors == count(attrs@.take(i as int), errors()),
            r.defs == count(attrs@.take(i as int), defines()),
            r.ignores == count(attrs@.take(i as int), ignores()),
            r.ends <= i && r.errors <= i && r.defs <= i && r.ignores <= i,
            r.early_ignore == ignored_early(attrs@.take(i as int)),
            match r.def {
                Some(j) => j < i && definition(attrs@.take(i as int)) == Some(attrs@[j as int]),
                None => definition(attrs@.take(i as int)) is None,
            },
        decreases attrs@.len() - i,
    {
        let ghost t = attrs@.take(i as int + 1);
        proof {
            assert(t.drop_last() =~= attrs@.take(i as int));
            assert(t.last() == attrs@[i as int]);
        }
        match &attrs[i] {
            AttrSpec::End => {
                r.ends = r.ends + 1;
            },
            AttrSpec::Error => {
                r.errors = r.errors + 1;
            },
            AttrSpec::Ignore => {
                r.ignores = r.ignores + 1;
                if r.def.is_none() {
                    r.early_ignore = true;
                }
            },
            _ => {
                r.defs = r.defs + 1;
                if r.def.is_none() {
                    r.def = Some(i);
                }
            },
        }
        i = i + 1;
    }
    proof {
        assert(attrs@.take(attrs@.len() as int) =~= attrs@);
    }
    r
}

/// The pattern and precedence of the definition `d`.
fn pattern(d: &AttrSpec) -> (r: (String, usize))
    requires
        defines()(*d),
    ensures
        r.0@ == pattern_of(*d).0,
        r.1 == pattern_of(*d).1,
{
    match d {
        AttrSpec::Token(s) => (escape(s.as_str()), 1),
        AttrSpec::Regex(s) => (s.clone(), 0),
        _ => (String::from_str("[A-Za-z_][A-Za-z0-9_]*"), 0),
    }
}

/// Reads the lexer's definition from the variants of the enumeration
/// `enum_name`. It is refused as [`lexer_data_error`] says; else it names
/// the one `error` and the one `end` variant, and lists, in the order of the
/// variants, what each defining variant matches.
pub fn lexer_data(enum_name: String, variants: Vec<VariantSpec>) -> (r: Result<LexerData, LexerDataError>)
    ensures
        match r {
            Ok(d) => {
                &&& lexer_data_error(variants@) is None
                &&& d.enum_name@ == enum_name@
                &&& exists|i: int| 0 <= i < variants@.len() && count((#[trigger] variants@[i]).attrs@, ends()) > 0
                    && d.end_variant@ == variants@[i].name@
                &&& exists|i: int| 0 <= i < variants@.len() && count((#[trigger] variants@[i]).attrs@, errors()) > 0
                    && d.err_variant@ == variants@[i].name@
                &&& d.tokens@.map_values(|t: TokenDefinition| definition_view(t)) == definitions(variants@, variants@.len())
            },
            Err(e) => lexer_data_error(variants@) == Some(e),
        },
{
    let n = variants.len();
    let mut end_seen: usize = 0;
    let mut err_seen: usize = 0;
    let mut end_name = String::new();
    let mut err_name = String::new();
    let mut tokens: Vec<TokenDefinition> = Vec::new();
    let mut i: usize = 0;
    while i < n
        invariant
            n == variants@.len(),
            i <= n,
            first_variant_error(variants@, i as nat) is None,
            end_seen == vstd::math::min(total(variants@, ends(), i as nat) as int, 2),
            err_seen == vstd::math::min(total(variants@, errors(), i as nat) as int, 2),
            end_seen > 0 ==> exists|j: int| 0 <= j < i && count((#[trigger] variants@[j]).attrs@, ends()) > 0
                && end_name@ == variants@[j].name@,
            err_seen > 0 ==> exists|j: int| 0 <= j < i && count((#[trigger] variants@[j]).attrs@, errors()) > 0
                && err_name@ == variants@[j].name@,
            tokens@.map_values(|t: TokenDefinition| definition_view(t)) == definitions(variants@, i as nat),
        decreases n - i,
    {
        let v = &variants[i];
        let rd = read_attrs(&v.attrs);
        let len = v.attrs.len();
        proof {
            assert(first_variant_error(variants@, (i + 1) as nat) == variant_error(variants@[i as int]));
            if variant_error(variants@[i as int]) is Some {
                lemma_first_error_stays(variants@, (i + 1) as nat, n as nat);
            }
            if definition(v.attrs@) is Some {
                lemma_definition_defines(v.attrs@);
            }
        }
        if !v.is_unit {
            return Err(LexerDataError::NonUnitVariant);
        } else if rd.ends > 0 && rd.ends < len {
            return Err(LexerDataError::EndWithOther);
        } else if rd.errors > 0 && rd.errors < len {
            return Err(LexerDataError::ErrorWithOther);
        } else if rd.defs > 1 {
            return Err(LexerDataError::MultipleDefinitions);
        } else if rd.early_ignore {
            return Err(LexerDataError::IgnoreWithoutDefinition);
        }
        if rd.ends > 0 {
            end_name = v.name.clone();
        }
        if rd.errors > 0 {
            err_name = v.name.clone();
        }
        if rd.ends > 0 {
            end_seen = if end_seen + (if rd.ends > 1 { 2 } else { 1 }) > 1 { 2 } else { 1 };
        }
        if rd.errors > 0 {
            err_seen = if err_seen + (if rd.errors > 1 { 2 } else { 1 }) > 1 { 2 } else { 1 };
        }
        let ghost before = tokens@;
        match rd.def {
            Some(k) => {
                let (regex, precedence) = pattern(&v.attrs[k]);
                tokens.push(TokenDefinition { variant: v.name.clone(), regex, precedence, ignore: rd.ignores > 0 });
                proof {
                    assert(tokens@.map_values(|t: TokenDefinition| definition_view(t)) =~= before.map_values(
                        |t: TokenDefinition| definition_view(t),
                    ).push(definition_view(tokens@.last())));
                }
            },
            None => {},
        }
        i = i + 1;
    }
    if end_seen > 1 {
        return Err(LexerDataError::DuplicateEnd);
    }
    if err_seen > 1 {
        return Err(LexerDataError::DuplicateError);
    }
    if end_seen == 0 {
        return Err(LexerDataError::MissingEnd);
    }
    if err_seen == 0 {
        return Err(LexerDataError::MissingError);
    }
    Ok(LexerData { enum_name, err_variant: err_name, end_variant: end_name, tokens })
}

} // verus!

verus! {

/// A text a pattern can spell: no control character and no backslash,
/// which the pattern syntax has no way to write.
pub open spec fn spellable(s: Seq<char>) -> bool {
    forall|i: int| 0 <= i < s.len() ==> !spec_is_control(#[trigger] s[i]) && s[i] != '\\'
}

/// The points of the characters `s`, in order.
pub open spec fn text_points(s: Seq<char>) -> Seq<int> {
    s.map_values(|c: char| 2 * (c as int))
}

/// The tree of the literals of `s` in sequence.
spec fn literal_chain(s: Seq<char>) -> RegexTree
    decreases s.len(),
{
    if s.len() <= 1 {
        RegexTree::Literal(s[0])
    } else {
        RegexTree::Sequence(Box::new(RegexTree::Literal(s[0])), Box::new(literal_chain(s.drop_first())))
    }
}

/// Escaping two texts one after the other escapes them in turn.
proof fn lemma_escaped_concat(a: Seq<char>, b: Seq<char>)
    ensures
        escaped(a + b) == escaped(a) + escaped(b),
    decreases b.len(),
{
    if b.len() == 0 {
        assert(a + b =~= a);
        assert(escaped(a) + escaped(b) =~= escaped(a));
    } else {
        lemma_escaped_concat(a, b.drop_last());
        assert((a + b).drop_last() =~= a + b.drop_last());
        assert((a + b).last() == b.last());
        if spec_is_special(b.last()) {
            assert(escaped(a + b) =~= escaped(a) + escaped(b));
        } else {
            assert(escaped(a + b) =~= escaped(a) + escaped(b));
        }
    }
}

/// Escaping at most doubles a text.
proof fn lemma_escaped_len(s: Seq<char>)
    ensures
        s.len() <= escaped(s).len() <= 2 * s.len(),
    decreases s.len(),
{
    if s.len() > 0 {
        lemma_escaped_len(s.drop_last());
    }
}

/// Escaping one character.
proof fn lemma_escaped_one(c: char)
    ensures
        escaped(seq![c]) == (if spec_is_special(c) { seq!['\\', c] } else { seq![c] }),
{
    assert(seq![c].drop_last() =~= Seq::<char>::empty());
    assert(escaped(Seq::<char>::empty()) =~= Seq::<char>::empty());
    assert(Seq::<char>::empty() + seq!['\\', c] =~= seq!['\\', c]);
    assert(Seq::<char>::empty().push(c) =~= seq![c]);
}

/// An escaped character at `i`, not followed by a quantifier, reads as its
/// literal.
proof fn lemma_escaped_atom(x: Seq<char>, i: int, c: char)
    requires
        0 <= i,
        x.len() <= usize::MAX,
        i + escaped(seq![c]).len() <= x.len(),
        x.subrange(i, i + escaped(seq![c]).len()) == escaped(seq![c]),
        !spec_is_control(c),
        c != '\\',
        i + escaped(seq![c]).len() == x.len() || !(x[i + escaped(seq![c]).len()] == '?' || x[i + escaped(seq![c]).len()] == '*'
            || x[i + escaped(seq![c]).len()] == '+'),
    ensures
        spec_quantified(x, i) == Parsed::Matched(RegexTree::Literal(c), (i + escaped(seq![c]).len()) as usize),
{
    lemma_escaped_one(c);
    let h = escaped(seq![c]);
    let j = i + h.len();
    assert(x[i] == x.subrange(i, j)[0]);
    if spec_is_special(c) {
        assert(x[i + 1] == x.subrange(i, j)[1]);
        assert(x[i] == '\\' && x[i + 1] == c);
    } else {
        assert(x[i] == c);
    }
    assert(spec_atom(x, i) == Parsed::Matched(RegexTree::Literal(c), j as usize));
    assert(spec_quantifier(x, j) is None);
}

/// The first character of an escaped text is a backslash or a character
/// that stands for itself.
proof fn lemma_escaped_first(s: Seq<char>)
    requires
        s.len() > 0,
        spellable(s),
    ensures
        escaped(s).len() > 0,
        escaped(s)[0] == '\\' || spec_is_nonspecial(escaped(s)[0]),
        escaped(s) == escaped(seq![s[0]]) + escaped(s.drop_first()),
{
    assert(s =~= seq![s[0]] + s.drop_first());
    lemma_escaped_concat(seq![s[0]], s.drop_first());
    lemma_escaped_one(s[0]);
    assert(!spec_is_control(s[0]) && s[0] != '\\');
    assert(escaped(s)[0] == escaped(seq![s[0]])[0]);
}

/// An escaped text, after any prefix `p`, reads as a sequence of its
/// characters as literals, up to its end.
#[verifier::rlimit(30)]
proof fn lemma_escaped_sequence(p: Seq<char>, s: Seq<char>)
    requires
        s.len() > 0,
        spellable(s),
        (p + escaped(s)).len() <= usize::MAX,
    ensures
        spec_sequence(p + escaped(s), p.len() as int) == Parsed::Matched(literal_chain(s), (p + escaped(s)).len() as usize),
    decreases s.len(),
{
    let x = p + escaped(s);
    let i = p.len() as int;
    let c = s[0];
    let rest = s.drop_first();
    lemma_escaped_first(s);
    let head = escaped(seq![c]);
    let j = i + head.len();
    assert(x =~= (p + head) + escaped(rest));
    assert(x.subrange(i, j) =~= head);
    assert(spellable(rest)) by {
        assert forall|k: int| 0 <= k < rest.len() implies !spec_is_control(#[trigger] rest[k]) && rest[k] != '\\' by {
            assert(rest[k] == s[k + 1]);
        }
    }
    if rest.len() > 0 {
        lemma_escaped_first(rest);
        assert(x[j] == escaped(rest)[0]);
        lemma_escaped_atom(x, i, c);
        lemma_escaped_sequence(p + head, rest);
        assert((p + head).len() == j);
        assert(spec_sequence(x, j) == Parsed::Matched(literal_chain(rest), x.len() as usize));
        assert(literal_chain(s) == RegexTree::Sequence(Box::new(RegexTree::Literal(c)), Box::new(literal_chain(rest))));
    } else {
        assert(j == x.len());
        lemma_escaped_atom(x, i, c);
        assert(spec_atom(x, j) is NoMatch);
        assert(spec_quantified(x, j) is NoMatch);
        assert(spec_sequence(x, j) is NoMatch);
    }
}

/// Nodes of the tree of the literals of `s` match exactly the text `s`.
proof fn lemma_chain_matches(s: Seq<char>, rx: Node, w: Seq<int>)
    requires
        s.len() > 0,
        rx.tree() == literal_chain(s),
    ensures
        matches_word(&rx, w) <==> w == text_points(s),
    decreases s.len(),
{
    if s.len() == 1 {
        match rx {
            Node::Literal(c) => {
                assert(text_points(s) =~= seq![2 * (c as int)]);
            },
            _ => {
                assert(false);
            },
        }
    } else {
        match rx {
            Node::Sequence { first, second } => {
                let p0 = 2 * (s[0] as int);
                let rest = s.drop_first();
                assert(text_points(s) =~= seq![p0] + text_points(rest));
                assert(first.tree() == RegexTree::Literal(s[0]));
                assert(second.tree() == literal_chain(rest));
                match *first {
                    Node::Literal(c) => {},
                    _ => {
                        assert(false);
                    },
                }
                if matches_word(&rx, w) {
                    let i = choose|i: int| 0 <= i <= w.len() && matches_word(&first, w.take(i)) && matches_word(&second, w.skip(i));
                    lemma_chain_matches(rest, *second, w.skip(i));
                    assert(w.take(i) == seq![p0]);
                    assert(w =~= w.take(i) + w.skip(i));
                }
                if w == text_points(s) {
                    lemma_chain_matches(rest, *second, w.skip(1));
                    assert(w.take(1) =~= seq![p0]);
                    assert(w.skip(1) =~= text_points(rest));
                    assert(matches_word(&first, w.take(1)));
                }
            },
            _ => {
                assert(false);
            },
        }
    }
}

/// The pattern of a literal token (`#[token(..)]`) matches exactly its
/// text: for every non-empty text a pattern can spell, the pattern parses
/// to its end, and every node of the parsed tree matches a word exactly
/// when the word is the text.
pub proof fn lemma_token_pattern(text: String, rx: Node, w: Seq<int>)
    requires
        text@.len() > 0,
        2 * text@.len() <= usize::MAX,
        spellable(text@),
    ensures
        spec_parse(pattern_of(AttrSpec::Token(text)).0) matches Parsed::Matched(t, j) && j == pattern_of(AttrSpec::Token(text)).0.len()
            && (rx.tree() == t ==> (matches_word(&rx, w) <==> w == text_points(text@))),
        pattern_of(AttrSpec::Token(text)).1 == 1,
{
    let pat = pattern_of(AttrSpec::Token(text)).0;
    let e = escaped(text@);
    lemma_escaped_len(text@);
    assert(Seq::<char>::empty() + e =~= e);
    lemma_escaped_sequence(Seq::<char>::empty(), text@);
    assert(spec_sequence(e, 0) == Parsed::Matched(literal_chain(text@), e.len() as usize));
    assert(!char_at(e, e.len() as int, '|'));
    assert(spec_parse(pat) == Parsed::Matched(literal_chain(text@), e.len() as usize));
    if rx.tree() == literal_chain(text@) {
        lemma_chain_matches(text@, rx, w);
    }
}

} // verus!
