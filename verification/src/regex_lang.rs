//! The words a regular expression matches.
//!
//! A word is a sequence of points of the doubled line of characters: the
//! character `c` stands at the point `2 * c`, so that intervals of
//! characters and the automata built over them read the same points.

use vstd::prelude::*;
use crate::endpoint::Endpoint;
use crate::regex_ast::{Node, Quantifier, GroupingElement};

verus! {

/// The points a grouping element matches.
pub open spec fn element_has_point(e: GroupingElement, p: int) -> bool {
    match e {
        GroupingElement::Literal(c) => p == 2 * c.key(),
        GroupingElement::Range(a, b) => 2 * a.key() <= p < 2 * b.key() + 1,
    }
}

/// The points a grouping matches: those of its elements, or of none of
/// them if it is negated.
pub open spec fn grouping_has_point(negated: bool, elements: Seq<GroupingElement>, p: int) -> bool {
    negated != (exists|i: int| 0 <= i < elements.len() && element_has_point(#[trigger] elements[i], p))
}

/// The quantifier admits `k` repetitions.
pub open spec fn quantifier_allows(q: Quantifier, k: nat) -> bool {
    match q {
        Quantifier::AtLeast(least) => k >= least,
        Quantifier::Between(least, most) => least <= k <= most,
    }
}

/// `rx` matches the word `w`.
pub open spec fn matches_word(rx: &Node, w: Seq<int>) -> bool
    decreases rx, 0nat,
{
    match rx {
        Node::Alternative { first, second } => matches_word(first, w) || matches_word(second, w),
        Node::Sequence { first, second } => exists|i: int|
            0 <= i <= w.len() && matches_word(first, w.take(i)) && matches_word(second, w.skip(i)),
        Node::Quantified { subnode, quantifier } => exists|k: nat| quantifier_allows(*quantifier, k) && matches_repeated(subnode, w, k),
        Node::Grouping { negated, elements } => w.len() == 1 && grouping_has_point(*negated, elements@, w[0]),
        Node::Literal(c) => w == seq![2 * c.key()],
    }
}

/// `w` is made of `k` words, one after the other, each matched by `rx`.
pub open spec fn matches_repeated(rx: &Node, w: Seq<int>, k: nat) -> bool
    decreases rx, k + 1,
{
    if k == 0 {
        w.len() == 0
    } else {
        exists|i: int| 0 <= i <= w.len() && matches_repeated(rx, w.take(i), (k - 1) as nat) && matches_word(rx, w.skip(i))
    }
}

/// `k` repetitions split after any `c` of them.
pub proof fn lemma_rep_split(rx: &Node, w: Seq<int>, k: nat, c: nat)
    requires
        matches_repeated(rx, w, k),
        c <= k,
    ensures
        exists|i: int| 0 <= i <= w.len() && #[trigger] matches_repeated(rx, w.take(i), c) && matches_repeated(rx, w.skip(i), (k - c) as nat),
    decreases k,
{
    if k == c {
        assert(w.take(w.len() as int) =~= w);
        assert(w.skip(w.len() as int).len() == 0);
        assert(matches_repeated(rx, w.take(w.len() as int), c));
    } else {
        let j = choose|j: int| 0 <= j <= w.len() && matches_repeated(rx, w.take(j), (k - 1) as nat) && matches_word(rx, w.skip(j));
        let u = w.take(j);
        lemma_rep_split(rx, u, (k - 1) as nat, c);
        let i = choose|i: int| 0 <= i <= u.len() && #[trigger] matches_repeated(rx, u.take(i), c) && matches_repeated(rx, u.skip(i), (k - 1 - c) as nat);
        assert(u.take(i) =~= w.take(i));
        let rest = w.skip(i);
        assert(rest.take(j - i) =~= u.skip(i));
        assert(rest.skip(j - i) =~= w.skip(j));
        assert(matches_repeated(rx, rest.take(j - i), (k - c - 1) as nat));
        assert(matches_repeated(rx, rest, (k - c) as nat));
        assert(matches_repeated(rx, w.take(i), c));
    }
}

} // verus!
