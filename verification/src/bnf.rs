//! Backus–Naur form syntax tree of a grammar, and the check of its rules
//! for left recursion.
//!
//! A rule reference is kept as the path it was written as; only a path of
//! one segment without a leading `::` names a rule. Literals and the actions
//! of transformations are kept as their source text: the check reads
//! neither.

use vstd::prelude::*;

verus! {

/// A path as written in the grammar: `::a::b` or `a`.
pub struct RulePath {
    pub leading_colon: bool,
    pub segments: Vec<String>,
}

pub enum LiteralNode {
    Ident(RulePath),
    Lit(String),
    Eps,
}

pub enum Node {
    Transformation { subnode: Box<Node>, action: String },
    Alternative { first: Box<Node>, second: Box<Node> },
    Sequence { first: Box<Node>, second: Box<Node> },
    Literal(LiteralNode),
}

/// The rules of a grammar: the item type, the first rule, and each rule's
/// name, alternatives and value type (the last entry of a name counts).
pub struct RuleSet {
    pub item_type: String,
    pub top_rule: (String, Node),
    pub rules: Vec<(String, Node, String)>,
    pub literal_matcher: (),
}

/// How a rule refers to itself at the left of its alternatives.
#[derive(Debug, Clone, Copy, PartialEq, Eq)]
pub enum LeftRecursion {
    NoRecursion,
    Direct,
    Indirect,
}

impl RulePath {
    /// The rule the path names, if it is a plain identifier.
    pub open spec fn simple_name(&self) -> Option<Seq<char>> {
        if !self.leading_colon && self.segments@.len() == 1 {
            Some(self.segments@[0]@)
        } else {
            None
        }
    }
}

/// The height of a syntax tree.
pub open spec fn height(n: &Node) -> nat
    decreases n,
{
    match n {
        Node::Transformation { subnode, .. } => 1 + height(subnode),
        Node::Alternative { first, second } => 1 + vstd::math::max(height(first) as int, height(second) as int) as nat,
        Node::Sequence { first, .. } => 1 + height(first),
        Node::Literal(_) => 0,
    }
}

/// `x` is named at the left of an alternative of `n`.
pub open spec fn left_corner(n: &Node, x: Seq<char>) -> bool
    decreases n,
{
    match n {
        Node::Transformation { subnode, .. } => left_corner(subnode, x),
        Node::Alternative { first, second } => left_corner(first, x) || left_corner(second, x),
        Node::Sequence { first, .. } => left_corner(first, x),
        Node::Literal(LiteralNode::Ident(path)) => path.simple_name() == Some(x),
        Node::Literal(_) => false,
    }
}

/// Some rule is named `x`.
pub open spec fn is_rule(rs: &RuleSet, x: Seq<char>) -> bool {
    exists|i: int| 0 <= i < rs.rules@.len() && (#[trigger] rs.rules@[i]).0@ == x
}

/// The index of the last rule named `x`: a later definition of a name
/// replaces an earlier one.
pub open spec fn rule_index(rs: &RuleSet, x: Seq<char>) -> int {
    choose|i: int|
        0 <= i < rs.rules@.len() && (#[trigger] rs.rules@[i]).0@ == x && forall|j: int| i < j < rs.rules@.len() ==> (#[trigger] rs.rules@[j]).0@ != x
}

/// The alternatives of the rule named `x`.
pub open spec fn rule_node(rs: &RuleSet, x: Seq<char>) -> Node {
    rs.rules@[rule_index(rs, x)].1
}

/// `path` is a chain of rules other than `rule`, each named at the left of
/// the one before, the last with `rule` at its left.
pub open spec fn leads_back(rs: &RuleSet, rule: Seq<char>, path: Seq<Seq<char>>) -> bool {
    &&& path.len() >= 1
    &&& forall|i: int| 0 <= i < path.len() ==> #[trigger] path[i] != rule && is_rule(rs, path[i])
    &&& forall|i: int| 0 <= i < path.len() - 1 ==> left_corner(&rule_node(rs, #[trigger] path[i]), path[i + 1])
    &&& left_corner(&rule_node(rs, path.last()), rule)
}

/// From the left of `n`, through other rules, the left of some rule names
/// `rule`.
pub open spec fn reaches_through_rules(rs: &RuleSet, n: &Node, rule: Seq<char>) -> bool {
    exists|path: Seq<Seq<char>>| #[trigger] leads_back(rs, rule, path) && left_corner(n, path[0])
}

/// The rule `rule` refers to itself at its left through another rule.
pub open spec fn indirectly_left_recursive(rs: &RuleSet, rule: Seq<char>) -> bool {
    reaches_through_rules(rs, &rule_node(rs, rule), rule)
}

/// What the check answers for `rule`.
pub open spec fn left_recursion_of(rs: &RuleSet, rule: Seq<char>) -> LeftRecursion {
    if !is_rule(rs, rule) {
        LeftRecursion::NoRecursion
    } else if indirectly_left_recursive(rs, rule) {
        LeftRecursion::Indirect
    } else if left_corner(&rule_node(rs, rule), rule) {
        LeftRecursion::Direct
    } else {
        LeftRecursion::NoRecursion
    }
}

/// `x` is one of the names in `touched`.
pub open spec fn touches(touched: Seq<String>, x: Seq<char>) -> bool {
    exists|i: int| 0 <= i < touched.len() && (#[trigger] touched[i])@ == x
}

/// The number of rules whose name is not touched yet.
pub open spec fn untouched(rules: Seq<(String, Node, String)>, touched: Seq<String>) -> nat
    decreases rules.len(),
{
    if rules.len() == 0 {
        0
    } else {
        untouched(rules.drop_last(), touched) + if touches(touched, rules.last().0@) { 0nat } else { 1nat }
    }
}

/// Touching more names never raises the count.
proof fn lemma_untouched_mono(rules: Seq<(String, Node, String)>, a: Seq<String>, b: Seq<String>)
    requires
        forall|x: Seq<char>| touches(a, x) ==> touches(b, x),
    ensures
        untouched(rules, b) <= untouched(rules, a),
    decreases rules.len(),
{
    if rules.len() > 0 {
        lemma_untouched_mono(rules.drop_last(), a, b);
    }
}

/// Touching the name of a rule lowers the count.
proof fn lemma_untouched_decrease(rules: Seq<(String, Node, String)>, a: Seq<String>, b: Seq<String>, x: Seq<char>, k: int)
    requires
        forall|y: Seq<char>| touches(a, y) ==> touches(b, y),
        !touches(a, x),
        touches(b, x),
        0 <= k < rules.len(),
        rules[k].0@ == x,
    ensures
        untouched(rules, b) < untouched(rules, a),
    decreases rules.len(),
{
    let n = rules.len() - 1;
    lemma_untouched_mono(rules.drop_last(), a, b);
    if k < n {
        assert(rules.drop_last()[k] == rules[k]);
        lemma_untouched_decrease(rules.drop_last(), a, b, x, k);
    }
}

/// The two strings hold the same characters.
fn same_text(a: &str, b: &str) -> (r: bool)
    ensures
        r == (a@ == b@),
{
    let n = a.unicode_len();
    if n != b.unicode_len() {
        return false;
    }
    let mut i: usize = 0;
    while i < n
        invariant
            n == a@.len(),
            n == b@.len(),
            i <= n,
            forall|j: int| 0 <= j < i ==> a@[j] == b@[j],
        decreases n - i,
    {
        if a.get_char(i) != b.get_char(i) {
            return false;
        }
        i = i + 1;
    }
    proof {
        assert(a@ =~= b@);
    }
    true
}

impl RuleSet {
    /// The last rule named `name`, if any.
    fn find_rule(&self, name: &str) -> (r: Option<usize>)
        ensures
            match r {
                Some(i) => i < self.rules@.len() && i == rule_index(self, name@) && self.rules@[i as int].0@ == name@,
                None => !is_rule(self, name@),
            },
    {
        let mut n: usize = self.rules.len();
        while n > 0
            invariant
                n <= self.rules@.len(),
                forall|j: int| n <= j < self.rules@.len() ==> (#[trigger] self.rules@[j]).0@ != name@,
            decreases n,
        {
            let i = n - 1;
            if same_text(self.rules[i].0.as_str(), name) {
                proof {
                    let k = rule_index(self, name@);
                    assert(0 <= i < self.rules@.len() && self.rules@[i as int].0@ == name@
                        && forall|j: int| i < j < self.rules@.len() ==> (#[trigger] self.rules@[j]).0@ != name@);
                    if k < i {
                        assert(self.rules@[i as int].0@ != name@);
                    } else if k > i {
                        assert(self.rules@[k].0@ != name@);
                    }
                }
                return Some(i);
            }
            n = i;
        }
        None
    }
}

/// Some name in `touched` is `name`.
fn touched_contains(touched: &Vec<String>, name: &String) -> (r: bool)
    ensures
        r == touches(touched@, name@),
{
    let mut i: usize = 0;
    while i < touched.len()
        invariant
            i <= touched@.len(),
            forall|j: int| 0 <= j < i ==> (#[trigger] touched@[j])@ != name@,
        decreases touched@.len() - i,
    {
        if touched[i] == *name {
            return true;
        }
        i = i + 1;
    }
    false
}


/// Every name at the left of the rule `t` is not `rule`, and is touched if
/// it is a rule.
pub open spec fn closed_rule(rs: &RuleSet, rule: Seq<char>, touched: Seq<String>, t: Seq<char>) -> bool {
    forall|y: Seq<char>| #[trigger] left_corner(&rule_node(rs, t), y) ==> y != rule && (is_rule(rs, y) ==> touches(touched, y))
}

/// The left of `n` reaches what the left of a part of it reaches.
proof fn lemma_reaches_widen(rs: &RuleSet, part: &Node, n: &Node, rule: Seq<char>)
    requires
        reaches_through_rules(rs, part, rule),
        forall|x: Seq<char>| left_corner(part, x) ==> left_corner(n, x),
    ensures
        reaches_through_rules(rs, n, rule),
{
    let path = choose|path: Seq<Seq<char>>| #[trigger] leads_back(rs, rule, path) && left_corner(part, path[0]);
    assert(leads_back(rs, rule, path) && left_corner(n, path[0]));
}

/// A rule named at the left of `n` leads back to `rule` if its own left
/// names `rule` or reaches it through rules.
proof fn lemma_reaches_through(rs: &RuleSet, n: &Node, rule: Seq<char>, x: Seq<char>)
    requires
        left_corner(n, x),
        x != rule,
        is_rule(rs, x),
        left_corner(&rule_node(rs, x), rule) || reaches_through_rules(rs, &rule_node(rs, x), rule),
    ensures
        reaches_through_rules(rs, n, rule),
{
    if left_corner(&rule_node(rs, x), rule) {
        let path = seq![x];
        assert(leads_back(rs, rule, path));
    } else {
        let p2 = choose|path: Seq<Seq<char>>| #[trigger] leads_back(rs, rule, path) && left_corner(&rule_node(rs, x), path[0]);
        let path = seq![x] + p2;
        assert forall|i: int| 0 <= i < path.len() implies #[trigger] path[i] != rule && is_rule(rs, path[i]) by {
            if i > 0 {
                assert(path[i] == p2[i - 1]);
            }
        }
        assert forall|i: int| 0 <= i < path.len() - 1 implies left_corner(&rule_node(rs, #[trigger] path[i]), path[i + 1]) by {
            if i > 0 {
                assert(path[i] == p2[i - 1]);
                assert(path[i + 1] == p2[i]);
            }
        }
        assert(path.last() == p2.last());
        assert(leads_back(rs, rule, path));
    }
}

/// When every touched rule is closed, a chain of rules from a touched one
/// never ends in a rule with `rule` at its left.
proof fn lemma_closed_no_path(rs: &RuleSet, rule: Seq<char>, touched: Seq<String>, path: Seq<Seq<char>>, k: int)
    requires
        path.len() >= 1,
        forall|i: int| 0 <= i < path.len() ==> #[trigger] path[i] != rule && is_rule(rs, path[i]),
        forall|i: int| 0 <= i < path.len() - 1 ==> left_corner(&rule_node(rs, #[trigger] path[i]), path[i + 1]),
        0 <= k < path.len(),
        touches(touched, path[k]),
        forall|t: Seq<char>| touches(touched, t) ==> closed_rule(rs, rule, touched, t),
    ensures
        !left_corner(&rule_node(rs, path.last()), rule),
    decreases path.len() - k,
{
    assert(closed_rule(rs, rule, touched, path[k]));
    if k < path.len() - 1 {
        assert(left_corner(&rule_node(rs, path[k]), path[k + 1]));
        assert(path[k + 1] != rule && is_rule(rs, path[k + 1]));
        lemma_closed_no_path(rs, rule, touched, path, k + 1);
    }
}

/// When the check of a rule answers other than indirectly, its left
/// reaches no chain of rules leading back to it.
proof fn lemma_no_indirect(rs: &RuleSet, rule: Seq<char>, touched: Seq<String>, node: &Node)
    requires
        forall|x: Seq<char>| #![trigger left_corner(node, x)] left_corner(node, x) && x != rule && is_rule(rs, x) ==> touches(touched, x),
        forall|t: Seq<char>| #![trigger touches(touched, t)] touches(touched, t) ==> closed_rule(rs, rule, touched, t),
    ensures
        !reaches_through_rules(rs, node, rule),
{
    if reaches_through_rules(rs, node, rule) {
        let path = choose|path: Seq<Seq<char>>| #[trigger] leads_back(rs, rule, path) && left_corner(node, path[0]);
        assert(path[0] != rule && is_rule(rs, path[0]));
        assert(touches(touched, path[0]));
        lemma_closed_no_path(rs, rule, touched, path, 0);
    }
}

impl RuleSet {
    fn left_recursion_impl(n: &Node, rule: &str, rules: &RuleSet, direct: bool, touched: &mut Vec<String>) -> (r: LeftRecursion)
        requires
            !touches(old(touched)@, rule@),
            forall|x: Seq<char>| #![trigger touches(old(touched)@, x)] touches(old(touched)@, x) ==> is_rule(rules, x),
        ensures
            forall|x: Seq<char>| #![trigger touches(final(touched)@, x)] touches(old(touched)@, x) ==> touches(final(touched)@, x),
            forall|x: Seq<char>| #![trigger touches(final(touched)@, x)] touches(final(touched)@, x) ==> touches(old(touched)@, x) || (is_rule(rules, x) && x != rule@),
            untouched(rules.rules@, final(touched)@) <= untouched(rules.rules@, old(touched)@),
            r == LeftRecursion::Direct ==> direct && left_corner(n, rule@),
            r == LeftRecursion::Indirect ==> (!direct && left_corner(n, rule@)) || reaches_through_rules(rules, n, rule@),
            r == LeftRecursion::NoRecursion ==> !left_corner(n, rule@),
            r != LeftRecursion::Indirect ==> {
                &&& forall|x: Seq<char>| #![trigger touches(final(touched)@, x)] left_corner(n, x) && x != rule@ && is_rule(rules, x) ==> touches(final(touched)@, x)
                &&& forall|t: Seq<char>| #![trigger touches(final(touched)@, t)] touches(final(touched)@, t) && !touches(old(touched)@, t)
                    ==> closed_rule(rules, rule@, final(touched)@, t)
                &&& !direct ==> !left_corner(n, rule@)
            },
        decreases untouched(rules.rules@, old(touched)@), height(n),
    {
        let ghost t0 = touched@;
        match n {
            Node::Alternative { first, second } => {
                let lr = Self::left_recursion_impl(first, rule, rules, direct, touched);
                let ghost t1 = touched@;
                proof {
                    assert(!touches(t1, rule@)) by {
                        if touches(t1, rule@) {
                            assert(touches(t0, rule@) || (is_rule(rules, rule@) && rule@ != rule@));
                        }
                    }
                    assert forall|x: Seq<char>| touches(t1, x) implies is_rule(rules, x) by {
                        assert(touches(t0, x) || (is_rule(rules, x) && x != rule@));
                    }
                }
                let rr = Self::left_recursion_impl(second, rule, rules, direct, touched);
                let ghost t2 = touched@;
                proof {
                    assert forall|x: Seq<char>| touches(t2, x) implies touches(t0, x) || (is_rule(rules, x) && x != rule@) by {
                        assert(touches(t1, x) || (is_rule(rules, x) && x != rule@));
                    }
                    assert forall|x: Seq<char>| touches(t0, x) implies touches(t2, x) by {
                        assert(touches(t1, x));
                    }
                    if lr == LeftRecursion::Indirect && !(!direct && left_corner(first, rule@)) {
                        lemma_reaches_widen(rules, first, n, rule@);
                    }
                    if rr == LeftRecursion::Indirect && !(!direct && left_corner(second, rule@)) {
                        lemma_reaches_widen(rules, second, n, rule@);
                    }
                    if lr != LeftRecursion::Indirect && rr != LeftRecursion::Indirect {
                        assert forall|x: Seq<char>| #![trigger left_corner(n, x)] left_corner(n, x) && x != rule@ && is_rule(rules, x)
                            implies touches(t2, x) by {
                            if left_corner(first, x) {
                                assert(touches(t1, x));
                            } else {
                                assert(left_corner(second, x));
                            }
                        }
                        assert forall|t: Seq<char>| #![trigger touches(t2, t)] touches(t2, t) && !touches(t0, t)
                            implies closed_rule(rules, rule@, t2, t) by {
                            if touches(t1, t) {
                                assert(closed_rule(rules, rule@, t1, t));
                                assert forall|y: Seq<char>| #[trigger] left_corner(&rule_node(rules, t), y)
                                    implies y != rule@ && (is_rule(rules, y) ==> touches(t2, y)) by {
                                    if is_rule(rules, y) {
                                        assert(touches(t1, y));
                                    }
                                }
                            } else {
                                assert(touches(t2, t) && !touches(t1, t));
                            }
                        }
                        assert(!direct ==> !left_corner(n, rule@)) by {
                            if !direct {
                                assert(!left_corner(first, rule@));
                                assert(!left_corner(second, rule@));
                            }
                        }
                    }
                }
                let res = match (lr, rr) {
                    (LeftRecursion::Indirect, _) | (_, LeftRecursion::Indirect) => LeftRecursion::Indirect,
                    (LeftRecursion::Direct, _) | (_, LeftRecursion::Direct) => LeftRecursion::Direct,
                    _ => LeftRecursion::NoRecursion,
                };
                proof {
                    if res != LeftRecursion::Indirect {
                        assert(lr != LeftRecursion::Indirect && rr != LeftRecursion::Indirect);
                        assert(touched@ == t2);
                        assert forall|x: Seq<char>| #![trigger touches(touched@, x)] left_corner(n, x) && x != rule@ && is_rule(rules, x)
                            implies touches(touched@, x) by {
                            if left_corner(first, x) {
                                assert(touches(t1, x));
                            } else {
                                assert(left_corner(second, x));
                            }
                        }
                        assert forall|t: Seq<char>| #![trigger touches(touched@, t)] touches(touched@, t) && !touches(t0, t)
                            implies closed_rule(rules, rule@, touched@, t) by {
                        }
                    }
                }
                res
            },
            Node::Sequence { first, .. } => Self::left_recursion_impl(first, rule, rules, direct, touched),
            Node::Transformation { subnode, .. } => Self::left_recursion_impl(subnode, rule, rules, direct, touched),
            Node::Literal(lit) => {
                match lit {
                    LiteralNode::Lit(_) | LiteralNode::Eps => LeftRecursion::NoRecursion,
                    LiteralNode::Ident(path) => {
                        if !path.leading_colon && path.segments.len() == 1 {
                            // Simple identifier
                            let ident = &path.segments[0];
                            if same_text(ident.as_str(), rule) {
                                if direct {
                                    LeftRecursion::Direct
                                } else {
                                    LeftRecursion::Indirect
                                }
                            } else if touched_contains(touched, ident) {
                                LeftRecursion::NoRecursion
                            } else {
                                // Check if it's a rule
                                match rules.find_rule(ident.as_str()) {
                                    Some(i) => {
                                        let name = ident.clone();
                                        touched.push(name);
                                        let ghost t1 = touched@;
                                        proof {
                                            assert(touched@[touched@.len() - 1]@ == ident@);
                                            assert(touches(touched@, ident@));
                                            assert forall|x: Seq<char>| touches(t0, x) implies touches(t1, x) by {
                                                let j = choose|j: int| 0 <= j < t0.len() && (#[trigger] t0[j])@ == x;
                                                assert(t1[j] == t0[j]);
                                            }
                                            assert forall|x: Seq<char>| touches(t1, x) implies touches(t0, x) || x == ident@ by {
                                                let j = choose|j: int| 0 <= j < t1.len() && (#[trigger] t1[j])@ == x;
                                                if j < t0.len() {
                                                    assert(t0[j] == t1[j]);
                                                }
                                            }
                                            assert(rules.rules@[i as int].0@ == ident@);
                                            lemma_untouched_decrease(rules.rules@, t0, t1, ident@, i as int);
                                            assert(is_rule(rules, ident@));
                                        }
                                        let sub = Self::left_recursion_impl(&rules.rules[i].1, rule, rules, false, touched);
                                        proof {
                                            assert(rule_node(rules, ident@) == rules.rules@[i as int].1);
                                            if sub == LeftRecursion::Indirect {
                                                lemma_reaches_through(rules, n, rule@, ident@);
                                            } else {
                                                assert(closed_rule(rules, rule@, touched@, ident@));
                                                assert forall|t: Seq<char>| touches(touched@, t) && !touches(t0, t)
                                                    implies closed_rule(rules, rule@, touched@, t) by {
                                                    if t != ident@ {
                                                        assert(!touches(t1, t));
                                                    }
                                                }
                                            }
                                        }
                                        sub
                                    },
                                    None => {
                                        // Not a rule
                                        LeftRecursion::NoRecursion
                                    },
                                }
                            }
                        } else {
                            LeftRecursion::NoRecursion
                        }
                    },
                }
            },
        }
    }

    /// How the rule `rule` refers to itself at the left of its alternatives:
    /// through another rule (indirectly), directly, or not at all (also
    /// when there is no such rule).
    pub fn left_recursion(&self, rule: &str) -> (r: LeftRecursion)
        ensures
            r == left_recursion_of(self, rule@),
    {
        match self.find_rule(rule) {
            Some(i) => {
                let mut touched: Vec<String> = Vec::new();
                let r = Self::left_recursion_impl(&self.rules[i].1, rule, self, true, &mut touched);
                proof {
                    assert(rule_node(self, rule@) == self.rules@[i as int].1);
                    assert(is_rule(self, rule@)) by {
                        assert(self.rules@[i as int].0@ == rule@);
                    }
                    if r != LeftRecursion::Indirect {
                        lemma_no_indirect(self, rule@, touched@, &self.rules@[i as int].1);
                    }
                }
                r
            },
            None => LeftRecursion::NoRecursion,
        }
    }
}

} // verus!
