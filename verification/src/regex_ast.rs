//! All of the regex syntax-tree (AST) data-structures.

use vstd::prelude::*;

verus! {

#[derive(Debug, PartialEq, Eq)]
pub enum Node {
    Alternative { first: Box<Node>, second: Box<Node> },
    Sequence { first: Box<Node>, second: Box<Node> },
    Quantified { subnode: Box<Node>, quantifier: Quantifier },
    Grouping { negated: bool, elements: Vec<GroupingElement> },
    Literal(char),
}

#[derive(Debug, Clone, Copy, PartialEq, Eq)]
pub enum Quantifier {
    AtLeast(usize),
    Between(usize, usize),
}

#[derive(Debug, Clone, Copy, PartialEq, Eq)]
pub enum GroupingElement {
    Literal(char),
    Range(char, char),
}

/// The mathematical form of a syntax tree.
pub enum RegexTree {
    Alternative(Box<RegexTree>, Box<RegexTree>),
    Sequence(Box<RegexTree>, Box<RegexTree>),
    Quantified(Box<RegexTree>, Quantifier),
    Grouping(bool, Seq<GroupingElement>),
    Literal(char),
}

impl Node {
    /// The tree the node stands for.
    pub open spec fn tree(&self) -> RegexTree
        decreases self,
    {
        match self {
            Node::Alternative { first, second } => RegexTree::Alternative(
                Box::new(first.tree()),
                Box::new(second.tree()),
            ),
            Node::Sequence { first, second } => RegexTree::Sequence(
                Box::new(first.tree()),
                Box::new(second.tree()),
            ),
            Node::Quantified { subnode, quantifier } => RegexTree::Quantified(
                Box::new(subnode.tree()),
                *quantifier,
            ),
            Node::Grouping { negated, elements } => RegexTree::Grouping(*negated, elements@),
            Node::Literal(c) => RegexTree::Literal(*c),
        }
    }
}

} // verus!
