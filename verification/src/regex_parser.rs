//! A simple parser to parse a string into a regex AST.
//!
//! Reference grammar for the parser:
//!
//! ```text
//! alternative ::= sequence '|' alternative | sequence ;
//! sequence    ::= quantified sequence | quantified ;
//! quantified  ::= atom quantifier | atom ;
//! quantifier  ::= '?' | '*' | '+' ;
//! atom        ::= '(' alternative ')' | '[' group ']' | ANY_NONSPECIAL_CHAR | '\' ANY_SPECIAL_CHAR ;
//! group       ::= group_init group_rem* ;
//! group_init  ::= group_iatom '-' group_atom | group_iatom ;
//! group_rem   ::= group_atom '-' group_atom | group_atom ;
//! group_iatom ::= ']' | group_atom ;
//! group_atom  ::= ANY_NONSPECIAL_CHAR | '\' ANY_SPECIAL_CHAR ;
//! ```

use vstd::prelude::*;
use crate::regex_ast::{Node, Quantifier, GroupingElement, RegexTree};
use crate::regex_lang::{matches_word, matches_repeated, quantifier_allows};

verus! {

/// The outcome of a grammar rule at a position: the value and the position
/// after it, or no match.
pub enum Parsed<T> {
    Matched(T, usize),
    NoMatch,
}

/// A control character: general category `Cc`.
pub open spec fn spec_is_control(c: char) -> bool {
    (c as u32) <= 0x1f || (0x7f <= (c as u32) && (c as u32) <= 0x9f)
}

/// One of the characters with a meaning in the syntax: `()[]?*+|`.
pub open spec fn spec_is_special(c: char) -> bool {
    c == '(' || c == ')' || c == '[' || c == ']' || c == '?' || c == '*' || c == '+' || c == '|'
}

/// A character that stands for itself.
pub open spec fn spec_is_nonspecial(c: char) -> bool {
    !spec_is_control(c) && !spec_is_special(c)
}

/// `s[i]` is the character `c`.
pub open spec fn char_at(s: Seq<char>, i: int, c: char) -> bool {
    0 <= i < s.len() && s[i] == c
}

/// `quantifier ::= '?' | '*' | '+'`
pub open spec fn spec_quantifier(s: Seq<char>, i: int) -> Option<Quantifier> {
    if char_at(s, i, '?') {
        Some(Quantifier::Between(0, 1))
    } else if char_at(s, i, '+') {
        Some(Quantifier::AtLeast(1))
    } else if char_at(s, i, '*') {
        Some(Quantifier::AtLeast(0))
    } else {
        None
    }
}

/// `group_atom ::= ANY_NONSPECIAL_CHAR | '\' ANY_SPECIAL_CHAR`
pub open spec fn spec_grouping_atom(s: Seq<char>, i: int) -> Parsed<char> {
    if !(0 <= i < s.len()) || s[i] == ']' {
        Parsed::NoMatch
    } else if s[i] == '\\' {
        if i + 1 < s.len() && spec_is_special(s[i + 1]) {
            Parsed::Matched(s[i + 1], (i + 2) as usize)
        } else {
            Parsed::NoMatch
        }
    } else if spec_is_nonspecial(s[i]) {
        Parsed::Matched(s[i], (i + 1) as usize)
    } else {
        Parsed::NoMatch
    }
}

/// `group_iatom ::= ']' | group_atom`
pub open spec fn spec_grouping_atom_init(s: Seq<char>, i: int) -> Parsed<char> {
    if char_at(s, i, ']') {
        Parsed::Matched(']', (i + 1) as usize)
    } else {
        spec_grouping_atom(s, i)
    }
}

/// The element made of `left` read up to `j`: a range when `'-'` and a
/// grouping atom follow, else the single character.
pub open spec fn spec_grouping_range(s: Seq<char>, left: char, j: int) -> Parsed<GroupingElement> {
    if char_at(s, j, '-') {
        match spec_grouping_atom(s, j + 1) {
            Parsed::Matched(right, k) => Parsed::Matched(GroupingElement::Range(left, right), k),
            Parsed::NoMatch => Parsed::Matched(GroupingElement::Literal(left), j as usize),
        }
    } else {
        Parsed::Matched(GroupingElement::Literal(left), j as usize)
    }
}

/// `group_init ::= group_iatom '-' group_atom | group_iatom`
pub open spec fn spec_grouping_element_init(s: Seq<char>, i: int) -> Parsed<GroupingElement> {
    match spec_grouping_atom_init(s, i) {
        Parsed::Matched(left, j) => spec_grouping_range(s, left, j as int),
        Parsed::NoMatch => Parsed::NoMatch,
    }
}

/// `group_rem ::= group_atom '-' group_atom | group_atom`
pub open spec fn spec_grouping_element(s: Seq<char>, i: int) -> Parsed<GroupingElement> {
    match spec_grouping_atom(s, i) {
        Parsed::Matched(left, j) => spec_grouping_range(s, left, j as int),
        Parsed::NoMatch => Parsed::NoMatch,
    }
}

/// `group_rem*` from position `i`: the elements read and the position after
/// them.
pub open spec fn spec_grouping_rest(s: Seq<char>, i: int) -> Parsed<Seq<GroupingElement>>
    decreases s.len() - i,
{
    match spec_grouping_element(s, i) {
        Parsed::Matched(e, j) => if i < j <= s.len() {
            match spec_grouping_rest(s, j as int) {
                Parsed::Matched(es, k) => Parsed::Matched(seq![e] + es, k),
                Parsed::NoMatch => Parsed::NoMatch,
            }
        } else {
            Parsed::NoMatch
        },
        Parsed::NoMatch => Parsed::Matched(Seq::empty(), i as usize),
    }
}

/// `group ::= group_init group_rem*`, read as a non-negated grouping.
pub open spec fn spec_grouping(s: Seq<char>, i: int) -> Parsed<Seq<GroupingElement>> {
    match spec_grouping_element_init(s, i) {
        Parsed::Matched(first, j) => match spec_grouping_rest(s, j as int) {
            Parsed::Matched(es, k) => Parsed::Matched(seq![first] + es, k),
            Parsed::NoMatch => Parsed::NoMatch,
        },
        Parsed::NoMatch => Parsed::NoMatch,
    }
}

/// `alternative ::= sequence '|' alternative | sequence`
pub open spec fn spec_alternative(s: Seq<char>, i: int) -> Parsed<RegexTree>
    decreases s.len() - i, 3int,
{
    if !(0 <= i <= s.len()) {
        Parsed::NoMatch
    } else {
        match spec_sequence(s, i) {
            Parsed::Matched(first, j) => if char_at(s, j as int, '|') && i < j {
                match spec_alternative(s, j + 1) {
                    Parsed::Matched(second, k) => Parsed::Matched(
                        RegexTree::Alternative(Box::new(first), Box::new(second)),
                        k,
                    ),
                    Parsed::NoMatch => Parsed::NoMatch,
                }
            } else {
                Parsed::Matched(first, j)
            },
            Parsed::NoMatch => Parsed::NoMatch,
        }
    }
}

/// `sequence ::= quantified sequence | quantified`
pub open spec fn spec_sequence(s: Seq<char>, i: int) -> Parsed<RegexTree>
    decreases s.len() - i, 2int,
{
    if !(0 <= i <= s.len()) {
        Parsed::NoMatch
    } else {
        match spec_quantified(s, i) {
            Parsed::Matched(first, j) => if i < j <= s.len() {
                match spec_sequence(s, j as int) {
                    Parsed::Matched(second, k) => Parsed::Matched(
                        RegexTree::Sequence(Box::new(first), Box::new(second)),
                        k,
                    ),
                    Parsed::NoMatch => Parsed::Matched(first, j),
                }
            } else {
                Parsed::Matched(first, j)
            },
            Parsed::NoMatch => Parsed::NoMatch,
        }
    }
}

/// `quantified ::= atom quantifier | atom`
pub open spec fn spec_quantified(s: Seq<char>, i: int) -> Parsed<RegexTree>
    decreases s.len() - i, 1int,
{
    if !(0 <= i <= s.len()) {
        Parsed::NoMatch
    } else {
        match spec_atom(s, i) {
            Parsed::Matched(sub, j) => match spec_quantifier(s, j as int) {
                Some(q) => Parsed::Matched(RegexTree::Quantified(Box::new(sub), q), (j + 1) as usize),
                None => Parsed::Matched(sub, j),
            },
            Parsed::NoMatch => Parsed::NoMatch,
        }
    }
}

/// `atom ::= '(' alternative ')' | '[' group ']' | ANY_NONSPECIAL_CHAR | '\' ANY_SPECIAL_CHAR`
pub open spec fn spec_atom(s: Seq<char>, i: int) -> Parsed<RegexTree>
    decreases s.len() - i, 0int,
{
    if !(0 <= i < s.len()) {
        Parsed::NoMatch
    } else if s[i] == '(' {
        match spec_alternative(s, i + 1) {
            Parsed::Matched(node, j) => if char_at(s, j as int, ')') {
                Parsed::Matched(node, (j + 1) as usize)
            } else {
                Parsed::NoMatch
            },
            Parsed::NoMatch => Parsed::NoMatch,
        }
    } else if s[i] == '[' {
        match spec_grouping(s, i + 1) {
            Parsed::Matched(es, j) => if char_at(s, j as int, ']') {
                Parsed::Matched(RegexTree::Grouping(false, es), (j + 1) as usize)
            } else {
                Parsed::NoMatch
            },
            Parsed::NoMatch => Parsed::NoMatch,
        }
    } else if s[i] == '\\' {
        if i + 1 < s.len() && spec_is_special(s[i + 1]) {
            Parsed::Matched(RegexTree::Literal(s[i + 1]), (i + 2) as usize)
        } else {
            Parsed::NoMatch
        }
    } else if spec_is_nonspecial(s[i]) {
        Parsed::Matched(RegexTree::Literal(s[i]), (i + 1) as usize)
    } else {
        Parsed::NoMatch
    }
}

/// What [`parse`] answers for the characters `s`.
pub open spec fn spec_parse(s: Seq<char>) -> Parsed<RegexTree> {
    spec_alternative(s, 0)
}

/// A control character.
pub(crate) fn is_control(c: char) -> (r: bool)
    ensures
        r == spec_is_control(c),
{
    let v = c as u32;
    v <= 0x1f || (0x7f <= v && v <= 0x9f)
}

pub(crate) fn is_special_char(c: char) -> (r: bool)
    ensures
        r == spec_is_special(c),
{
    c == '(' || c == ')' || c == '[' || c == ']' || c == '?' || c == '*' || c == '+' || c == '|'
}

fn is_nonspecial_char(c: char) -> (r: bool)
    ensures
        r == spec_is_nonspecial(c),
{
    !is_control(c) && !is_special_char(c)
}

/// The character at `i`, if there is one.
fn next_char(s: &Vec<char>, i: usize) -> (r: Option<char>)
    ensures
        r == (if i < s@.len() { Some(s@[i as int]) } else { None::<char> }),
        s@.len() <= usize::MAX,
{
    if i < s.len() {
        Some(s[i])
    } else {
        None
    }
}

fn parse_quantifier(s: &Vec<char>, i: usize) -> (r: Option<Quantifier>)
    ensures
        r == spec_quantifier(s@, i as int),
        s@.len() <= usize::MAX,
{
    match next_char(s, i) {
        Some('?') => Some(Quantifier::Between(0, 1)),
        Some('+') => Some(Quantifier::AtLeast(1)),
        Some('*') => Some(Quantifier::AtLeast(0)),
        _ => None,
    }
}

fn parse_grouping_atom(s: &Vec<char>, i: usize) -> (r: Result<(char, usize), ()>)
    ensures
        match r {
            Ok((c, j)) => spec_grouping_atom(s@, i as int) == Parsed::Matched(c, j) && i < j <= s@.len(),
            Err(_) => spec_grouping_atom(s@, i as int) is NoMatch,
        },
{
    match next_char(s, i) {
        Some(']') => Err(()),
        Some('\\') => match next_char(s, i + 1) {
            Some(c) => {
                if is_special_char(c) {
                    Ok((c, i + 2))
                } else {
                    Err(())
                }
            },
            None => Err(()),
        },
        Some(c) => {
            if is_nonspecial_char(c) {
                Ok((c, i + 1))
            } else {
                Err(())
            }
        },
        None => Err(()),
    }
}

fn parse_grouping_atom_init(s: &Vec<char>, i: usize) -> (r: Result<(char, usize), ()>)
    ensures
        match r {
            Ok((c, j)) => spec_grouping_atom_init(s@, i as int) == Parsed::Matched(c, j) && i < j <= s@.len(),
            Err(_) => spec_grouping_atom_init(s@, i as int) is NoMatch,
        },
{
    if next_char(s, i) == Some(']') {
        Ok((']', i + 1))
    } else {
        parse_grouping_atom(s, i)
    }
}

fn parse_grouping_range(s: &Vec<char>, left: char, j: usize) -> (r: (GroupingElement, usize))
    requires
        j <= s@.len(),
    ensures
        spec_grouping_range(s@, left, j as int) == Parsed::Matched(r.0, r.1),
        j <= r.1 <= s@.len(),
{
    if next_char(s, j) == Some('-') {
        if let Ok((right, k)) = parse_grouping_atom(s, j + 1) {
            return (GroupingElement::Range(left, right), k);
        }
    }
    (GroupingElement::Literal(left), j)
}

fn parse_grouping_element_init(s: &Vec<char>, i: usize) -> (r: Result<(GroupingElement, usize), ()>)
    ensures
        match r {
            Ok((e, j)) => spec_grouping_element_init(s@, i as int) == Parsed::Matched(e, j) && i < j <= s@.len(),
            Err(_) => spec_grouping_element_init(s@, i as int) is NoMatch,
        },
{
    let (left, j) = parse_grouping_atom_init(s, i)?;
    Ok(parse_grouping_range(s, left, j))
}

fn parse_grouping_element(s: &Vec<char>, i: usize) -> (r: Result<(GroupingElement, usize), ()>)
    ensures
        match r {
            Ok((e, j)) => spec_grouping_element(s@, i as int) == Parsed::Matched(e, j) && i < j <= s@.len(),
            Err(_) => spec_grouping_element(s@, i as int) is NoMatch,
        },
{
    let (left, j) = parse_grouping_atom(s, i)?;
    Ok(parse_grouping_range(s, left, j))
}

/// `acc` followed by what `r` read.
pub open spec fn prepend_elements(acc: Seq<GroupingElement>, r: Parsed<Seq<GroupingElement>>) -> Parsed<Seq<GroupingElement>> {
    match r {
        Parsed::Matched(es, k) => Parsed::Matched(acc + es, k),
        Parsed::NoMatch => Parsed::NoMatch,
    }
}

fn parse_grouping(s: &Vec<char>, i: usize) -> (r: Result<(Vec<GroupingElement>, usize), ()>)
    ensures
        match r {
            Ok((es, j)) => spec_grouping(s@, i as int) == Parsed::Matched(es@, j) && i < j <= s@.len(),
            Err(_) => spec_grouping(s@, i as int) is NoMatch,
        },
{
    let (first, j0) = parse_grouping_element_init(s, i)?;
    let mut it = j0;
    let mut elements: Vec<GroupingElement> = Vec::new();
    elements.push(first);
    assert(prepend_elements(seq![], spec_grouping_rest(s@, j0 as int)) == spec_grouping_rest(s@, j0 as int));
    loop
        invariant
            i < j0 <= it <= s@.len(),
            elements@.len() >= 1,
            elements@[0] == first,
            spec_grouping_element_init(s@, i as int) == Parsed::Matched(first, j0),
            spec_grouping_rest(s@, j0 as int) == prepend_elements(elements@.drop_first(), spec_grouping_rest(s@, it as int)),
        decreases s@.len() - it,
    {
        match parse_grouping_element(s, it) {
            Ok((nth, next)) => {
                proof {
                    let acc = elements@.drop_first();
                    assert(acc.push(nth) == elements@.push(nth).drop_first());
                    assert(prepend_elements(acc, prepend_elements(seq![nth], spec_grouping_rest(s@, next as int)))
                        == prepend_elements(acc.push(nth), spec_grouping_rest(s@, next as int))) by {
                        assert(acc + seq![nth] == acc.push(nth));
                        match spec_grouping_rest(s@, next as int) {
                            Parsed::Matched(es, k) => {
                                assert(acc + (seq![nth] + es) == acc.push(nth) + es);
                            },
                            _ => {},
                        }
                    }
                }
                it = next;
                elements.push(nth);
            },
            Err(_) => {
                proof {
                    assert(elements@.drop_first() + Seq::<GroupingElement>::empty() == elements@.drop_first());
                    assert(seq![first] + elements@.drop_first() == elements@);
                }
                return Ok((elements, it));
            },
        }
    }
}

fn parse_alternative(s: &Vec<char>, i: usize) -> (r: Result<(Box<Node>, usize), ()>)
    requires
        i <= s@.len(),
    ensures
        match r {
            Ok((n, j)) => spec_alternative(s@, i as int) == Parsed::Matched(n.tree(), j) && i < j <= s@.len(),
            Err(_) => spec_alternative(s@, i as int) is NoMatch,
        },
    decreases s@.len() - i, 3int,
{
    let (first, it) = parse_sequence(s, i)?;
    if next_char(s, it) == Some('|') {
        let (second, it) = parse_alternative(s, it + 1)?;
        Ok((Box::new(Node::Alternative { first, second }), it))
    } else {
        Ok((first, it))
    }
}

fn parse_sequence(s: &Vec<char>, i: usize) -> (r: Result<(Box<Node>, usize), ()>)
    requires
        i <= s@.len(),
    ensures
        match r {
            Ok((n, j)) => spec_sequence(s@, i as int) == Parsed::Matched(n.tree(), j) && i < j <= s@.len(),
            Err(_) => spec_sequence(s@, i as int) is NoMatch,
        },
    decreases s@.len() - i, 2int,
{
    let (first, it) = parse_quantified(s, i)?;
    if let Ok((second, it)) = parse_sequence(s, it) {
        Ok((Box::new(Node::Sequence { first, second }), it))
    } else {
        Ok((first, it))
    }
}

fn parse_quantified(s: &Vec<char>, i: usize) -> (r: Result<(Box<Node>, usize), ()>)
    requires
        i <= s@.len(),
    ensures
        match r {
            Ok((n, j)) => spec_quantified(s@, i as int) == Parsed::Matched(n.tree(), j) && i < j <= s@.len(),
            Err(_) => spec_quantified(s@, i as int) is NoMatch,
        },
    decreases s@.len() - i, 1int,
{
    let (subnode, it) = parse_atom(s, i)?;
    if let Some(quantifier) = parse_quantifier(s, it) {
        Ok((Box::new(Node::Quantified { subnode, quantifier }), it + 1))
    } else {
        Ok((subnode, it))
    }
}

fn parse_atom(s: &Vec<char>, i: usize) -> (r: Result<(Box<Node>, usize), ()>)
    requires
        i <= s@.len(),
    ensures
        match r {
            Ok((n, j)) => spec_atom(s@, i as int) == Parsed::Matched(n.tree(), j) && i < j <= s@.len(),
            Err(_) => spec_atom(s@, i as int) is NoMatch,
        },
    decreases s@.len() - i, 0int,
{
    match next_char(s, i) {
        Some('(') => {
            let (node, it) = parse_alternative(s, i + 1)?;
            if next_char(s, it) == Some(')') {
                Ok((node, it + 1))
            } else {
                Err(())
            }
        },
        Some('[') => {
            let (elements, it) = parse_grouping(s, i + 1)?;
            if next_char(s, it) == Some(']') {
                Ok((Box::new(Node::Grouping { negated: false, elements }), it + 1))
            } else {
                Err(())
            }
        },
        Some('\\') => match next_char(s, i + 1) {
            Some(c) => {
                if is_special_char(c) {
                    Ok((Box::new(Node::Literal(c)), i + 2))
                } else {
                    Err(())
                }
            },
            None => Err(()),
        },
        Some(c) => {
            if is_nonspecial_char(c) {
                Ok((Box::new(Node::Literal(c)), i + 1))
            } else {
                Err(())
            }
        },
        None => Err(()),
    }
}

/// Parses a regular expression. The longest prefix of the source that
/// forms an alternative is read, and what follows it is ignored.
pub fn parse(source: &str) -> (r: Result<Box<Node>, ()>)
    ensures
        match r {
            Ok(n) => exists|j: usize| spec_parse(source@) == Parsed::Matched(n.tree(), j),
            Err(_) => spec_parse(source@) is NoMatch,
        },
{
    let chars = collect_chars(source);
    match parse_alternative(&chars, 0) {
        Ok((n, _)) => Ok(n),
        Err(v) => Err(v),
    }
}

/// The characters of `source`, in order.
fn collect_chars(source: &str) -> (r: Vec<char>)
    ensures
        r@ == source@,
{
    let n = source.unicode_len();
    let mut r: Vec<char> = Vec::new();
    let mut i: usize = 0;
    while i < n
        invariant
            n == source@.len(),
            i <= n,
            r@ == source@.take(i as int),
        decreases n - i,
    {
        r.push(source.get_char(i));
        i = i + 1;
        assert(r@ =~= source@.take(i as int));
    }
    assert(source@.take(n as int) =~= source@);
    r
}

} // verus!

verus! {

/// What a quantifier admits: `?` zero or one repetition, `*` any number,
/// `+` one or more; no other character is a quantifier.
pub proof fn lemma_quantifier_meaning(s: Seq<char>, i: int)
    ensures
        spec_quantifier(s, i) is Some <==> (char_at(s, i, '?') || char_at(s, i, '*') || char_at(s, i, '+')),
        char_at(s, i, '?') ==> forall|k: nat| quantifier_allows(spec_quantifier(s, i).unwrap(), k) <==> k <= 1,
        char_at(s, i, '*') ==> forall|k: nat| quantifier_allows(spec_quantifier(s, i).unwrap(), k),
        char_at(s, i, '+') ==> forall|k: nat| quantifier_allows(spec_quantifier(s, i).unwrap(), k) <==> k >= 1,
{
}

/// An atom followed by a quantifier parses as the atom repeated: any node
/// of that tree matches a word exactly when the word is made of words of
/// the atom, one or more of them after `+`, any number after `*`, at most
/// one after `?`.
pub proof fn lemma_quantified_repeats(s: Seq<char>, i: int, rx: Node, w: Seq<int>)
    requires
        spec_atom(s, i) is Matched,
        spec_quantified(s, i) is Matched,
        rx.tree() == spec_quantified(s, i)->0,
    ensures
        char_at(s, spec_atom(s, i)->1 as int, '+') ==> (matches_word(&rx, w) <==> exists|k: nat| k >= 1 && #[trigger] matches_repeated(&rx->subnode, w, k)),
        char_at(s, spec_atom(s, i)->1 as int, '*') ==> (matches_word(&rx, w) <==> exists|k: nat| #[trigger] matches_repeated(&rx->subnode, w, k)),
        char_at(s, spec_atom(s, i)->1 as int, '?') ==> (matches_word(&rx, w) <==> exists|k: nat| k <= 1 && #[trigger] matches_repeated(&rx->subnode, w, k)),
{
    let j = spec_atom(s, i)->1 as int;
    lemma_quantifier_meaning(s, j);
    if char_at(s, j, '+') || char_at(s, j, '*') || char_at(s, j, '?') {
        match rx {
            Node::Quantified { subnode, quantifier } => {
                assert(quantifier == spec_quantifier(s, j).unwrap());
                if matches_word(&rx, w) {
                    let k = choose|k: nat| quantifier_allows(quantifier, k) && matches_repeated(&subnode, w, k);
                    assert(matches_repeated(&rx->subnode, w, k));
                }
                if exists|k: nat| #[trigger] matches_repeated(&rx->subnode, w, k) && quantifier_allows(quantifier, k) {
                    let k = choose|k: nat| #[trigger] matches_repeated(&rx->subnode, w, k) && quantifier_allows(quantifier, k);
                    assert(matches_word(&rx, w));
                }
                if char_at(s, j, '+') && exists|k: nat| k >= 1 && #[trigger] matches_repeated(&rx->subnode, w, k) {
                    let k = choose|k: nat| k >= 1 && #[trigger] matches_repeated(&rx->subnode, w, k);
                    assert(quantifier_allows(quantifier, k));
                }
                if char_at(s, j, '*') && exists|k: nat| #[trigger] matches_repeated(&rx->subnode, w, k) {
                    let k = choose|k: nat| #[trigger] matches_repeated(&rx->subnode, w, k);
                    assert(quantifier_allows(quantifier, k));
                }
                if char_at(s, j, '?') && exists|k: nat| k <= 1 && #[trigger] matches_repeated(&rx->subnode, w, k) {
                    let k = choose|k: nat| k <= 1 && #[trigger] matches_repeated(&rx->subnode, w, k);
                    assert(quantifier_allows(quantifier, k));
                }
            },
            _ => {
                assert(false);
            },
        }
    }
}

} // verus!
