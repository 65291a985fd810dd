use yoakke::bnf::{LeftRecursion, LiteralNode, Node, RulePath, RuleSet};
use yoakke::drec::DirectRec;
use std::cell::RefCell;
use std::rc::Rc;
use yoakke::irec::{CallHeadTable, RecursionHead};
use yoakke::matcher::{Match, Parser, ShowFound};
use yoakke::parse_result::{ParseErr, ParseErrElement, ParseOk, ParseResult};

fn err(look: usize, found: &str, rule: &'static str, expected: &str) -> ParseErr {
    ParseErr::single(look, found.to_string(), rule, expected.to_string())
}

fn expected_of(e: &ParseErr, rule: &str) -> Vec<String> {
    let mut v: Vec<String> = e
        .elements
        .iter()
        .filter(|x| x.rule == rule)
        .flat_map(|x| x.expected_elements.iter().cloned())
        .collect();
    v.sort();
    v.dedup();
    v
}

fn ok(matched: usize, value: i32, error: Option<ParseErr>) -> ParseOk<usize, i32> {
    ParseOk { matched, furthest_it: matched, furthest_error: error, value }
}

#[test]
fn results_tell_success_from_failure() {
    let s: ParseResult<usize, i32> = ParseResult::Success(ok(3, 1, None));
    let f: ParseResult<usize, i32> = ParseResult::Failure(ParseErr::new());
    assert!(s.is_ok() && !s.is_err());
    assert!(f.is_err() && !f.is_ok());
    assert_eq!(s.furthest_look(), 3);
    assert_eq!(f.furthest_look(), 0);
    assert!(f.clone().ok().is_none());
    assert!(f.err().is_some());
    assert_eq!(s.ok().unwrap().value, 1);
}

#[test]
fn furthest_look_takes_the_error_into_account() {
    assert_eq!(ok(3, 0, Some(err(5, "x", "r", "y"))).furthest_look(), 5);
    assert_eq!(ok(6, 0, Some(err(5, "x", "r", "y"))).furthest_look(), 6);
    assert_eq!(ok(2, 0, None).furthest_look(), 2);
}

#[test]
fn map_keeps_the_rest() {
    let o = ok(4, 20, None).map(|v| v + 1);
    assert_eq!(o.value, 21);
    assert_eq!(o.matched, 4);
}

#[test]
fn error_elements() {
    let e = ParseErrElement::single("rule", "x".to_string());
    assert_eq!(e.rule, "rule");
    assert_eq!(e.expected_elements, vec!["x".to_string()]);
    let n = ParseErr::new();
    assert_eq!(n.furthest_look(), 0);
    assert!(n.elements.is_empty());
}

#[test]
fn longer_alternative_wins() {
    let a: ParseResult<usize, i32> = ParseResult::Success(ok(2, 1, Some(err(3, "a", "r", "x"))));
    let b: ParseResult<usize, i32> = ParseResult::Success(ok(5, 2, Some(err(3, "b", "r", "y"))));
    match ParseResult::unify_alternatives(a, b) {
        ParseResult::Success(o) => {
            assert_eq!(o.value, 2);
            let e = o.furthest_error.unwrap();
            assert_eq!(e.found_element, "a");
            assert_eq!(expected_of(&e, "r"), vec!["x".to_string(), "y".to_string()]);
        },
        ParseResult::Failure(_) => panic!("expected a success"),
    }
}

#[test]
fn tie_keeps_the_first_alternative() {
    let a: ParseResult<usize, i32> = ParseResult::Success(ok(2, 1, None));
    let b: ParseResult<usize, i32> = ParseResult::Success(ok(2, 2, None));
    match ParseResult::unify_alternatives(a, b) {
        ParseResult::Success(o) => {
            assert_eq!(o.value, 1);
            assert!(o.furthest_error.is_none());
        },
        ParseResult::Failure(_) => panic!("expected a success"),
    }
}

#[test]
fn success_beats_failure_and_keeps_the_error() {
    let a: ParseResult<usize, i32> = ParseResult::Failure(err(7, "q", "r", "z"));
    let b: ParseResult<usize, i32> = ParseResult::Success(ok(1, 9, None));
    match ParseResult::unify_alternatives(a, b) {
        ParseResult::Success(o) => {
            assert_eq!(o.value, 9);
            assert_eq!(o.furthest_error.unwrap().furthest_look, 7);
        },
        ParseResult::Failure(_) => panic!("expected a success"),
    }
}

#[test]
fn failures_merge_at_equal_distance() {
    let a: ParseResult<usize, i32> = ParseResult::Failure(err(4, "q", "r", "z"));
    let b: ParseResult<usize, i32> = ParseResult::Failure(err(4, "w", "s", "y"));
    match ParseResult::unify_alternatives(a, b) {
        ParseResult::Failure(e) => {
            assert_eq!(e.found_element, "q");
            assert_eq!(expected_of(&e, "r"), vec!["z".to_string()]);
            assert_eq!(expected_of(&e, "s"), vec!["y".to_string()]);
        },
        ParseResult::Success(_) => panic!("expected a failure"),
    }
}

#[test]
fn further_failure_wins_and_empty_found_gives_way() {
    let a: ParseResult<usize, i32> = ParseResult::Failure(err(4, "q", "r", "z"));
    let b: ParseResult<usize, i32> = ParseResult::Failure(err(6, "w", "s", "y"));
    match ParseResult::unify_alternatives(a, b) {
        ParseResult::Failure(e) => assert_eq!(e.furthest_look, 6),
        ParseResult::Success(_) => panic!("expected a failure"),
    }
    let a: ParseResult<usize, i32> = ParseResult::Failure(err(4, "", "r", "z"));
    let b: ParseResult<usize, i32> = ParseResult::Failure(err(4, "w", "s", "y"));
    match ParseResult::unify_alternatives(a, b) {
        ParseResult::Failure(e) => {
            assert_eq!(e.found_element, "w");
            assert!(expected_of(&e, "r").is_empty());
        },
        ParseResult::Success(_) => panic!("expected a failure"),
    }
}

#[test]
fn sequence_pairs_the_values() {
    let a = ok(2, 1, None);
    let b: ParseResult<usize, &str> = ParseResult::Success(ParseOk { matched: 5, furthest_it: 5, furthest_error: None, value: "x" });
    match ParseResult::unify_sequence(a, b) {
        ParseResult::Success(o) => {
            assert_eq!(o.value, (1, "x"));
            assert_eq!(o.matched, 5);
        },
        ParseResult::Failure(_) => panic!("expected a success"),
    }
    let a = ok(2, 1, Some(err(3, "a", "r", "x")));
    let b: ParseResult<usize, &str> = ParseResult::Failure(err(3, "b", "r", "y"));
    match ParseResult::unify_sequence(a, b) {
        ParseResult::Failure(e) => assert_eq!(expected_of(&e, "r"), vec!["x".to_string(), "y".to_string()]),
        ParseResult::Success(_) => panic!("expected a failure"),
    }
}

#[test]
fn direct_recursion_reads_its_result() {
    let d: DirectRec<usize, i32> = DirectRec::Stub(ParseResult::Success(ok(3, 0, None)));
    assert_eq!(d.furthest_look(), 3);
    assert!(d.parse_result().is_ok());
}

#[test]
fn recursion_head_starts_empty() {
    let h = RecursionHead::with_head("expr");
    assert_eq!(h.head, "expr");
    assert!(h.involved.is_empty() && h.eval.is_empty());
}

fn ident(name: &str) -> Node {
    Node::Literal(LiteralNode::Ident(RulePath { leading_colon: false, segments: vec![name.to_string()] }))
}

fn seq(a: Node, b: Node) -> Node {
    Node::Sequence { first: Box::new(a), second: Box::new(b) }
}

fn alt(a: Node, b: Node) -> Node {
    Node::Alternative { first: Box::new(a), second: Box::new(b) }
}

fn rules(rs: Vec<(&str, Node)>) -> RuleSet {
    let top = (rs[0].0.to_string(), Node::Literal(LiteralNode::Eps));
    RuleSet {
        item_type: "char".to_string(),
        top_rule: top,
        rules: rs.into_iter().map(|(n, node)| (n.to_string(), node, "()".to_string())).collect(),
        literal_matcher: (),
    }
}

#[test]
fn left_recursion_kinds() {
    let rs = rules(vec![
        ("expr", alt(seq(ident("expr"), Node::Literal(LiteralNode::Lit("+".to_string()))), ident("atom"))),
        ("atom", Node::Literal(LiteralNode::Lit("x".to_string()))),
        ("a", seq(ident("b"), ident("x"))),
        ("b", alt(ident("c"), ident("a"))),
        ("c", Node::Literal(LiteralNode::Eps)),
    ]);
    assert_eq!(rs.left_recursion("expr"), LeftRecursion::Direct);
    assert_eq!(rs.left_recursion("atom"), LeftRecursion::NoRecursion);
    assert_eq!(rs.left_recursion("a"), LeftRecursion::Indirect);
    assert_eq!(rs.left_recursion("b"), LeftRecursion::Indirect);
    assert_eq!(rs.left_recursion("c"), LeftRecursion::NoRecursion);
    assert_eq!(rs.left_recursion("missing"), LeftRecursion::NoRecursion);
}

#[test]
fn qualified_paths_are_not_rules() {
    let path = RulePath { leading_colon: true, segments: vec!["r".to_string()] };
    let rs = rules(vec![("r", Node::Literal(LiteralNode::Ident(path)))]);
    assert_eq!(rs.left_recursion("r"), LeftRecursion::NoRecursion);
}

#[test]
fn call_head_table_reads_what_was_written() {
    let mut table = CallHeadTable::new();
    assert!(table.get(&3).is_none());
    let a = Rc::new(RefCell::new(RecursionHead::with_head("expr")));
    let b = Rc::new(RefCell::new(RecursionHead::with_head("term")));
    table.insert(3, a.clone());
    table.insert(5, b.clone());
    assert!(Rc::ptr_eq(table.get(&3).unwrap(), &a));
    assert!(Rc::ptr_eq(table.get(&5).unwrap(), &b));
    table.insert(3, b.clone());
    assert!(Rc::ptr_eq(table.get(&3).unwrap(), &b));
    table.remove(&3);
    assert!(table.get(&3).is_none());
    assert!(Rc::ptr_eq(table.get(&5).unwrap(), &b));
    // A head is shared: a change through one handle shows through the table.
    b.borrow_mut().involved.push("factor");
    assert_eq!(table.get(&5).unwrap().borrow().involved, vec!["factor"]);
}

struct CharParser;

impl Parser for CharParser {
    type Item = char;
}

impl Match<char> for CharParser {
    fn matches(a: &char, b: &char) -> bool {
        a == b
    }

    fn show_expected(item: &char) -> String {
        format!("'{}'", item)
    }
}

impl ShowFound for CharParser {
    fn show_found(item: &char) -> String {
        item.to_string()
    }
}

#[test]
fn a_parser_compares_items_with_terminals() {
    assert!(<CharParser as Match<char>>::matches(&'a', &'a'));
    assert!(!<CharParser as Match<char>>::matches(&'a', &'b'));
    assert_eq!(<CharParser as Match<char>>::show_expected(&'x'), "'x'");
    assert_eq!(CharParser::show_found(&'y'), "y");
}

#[test]
fn results_convert_from_their_halves() {
    let r: ParseResult<usize, i32> = ok(2, 7, None).into();
    assert!(r.is_ok());
    assert_eq!(r.ok().unwrap().value, 7);
    let r: ParseResult<usize, i32> = ParseResult::from(err(4, "x", "rule", "y"));
    assert!(r.is_err());
    assert_eq!(r.err().unwrap().furthest_look, 4);
}

#[test]
fn later_rule_definition_replaces_earlier() {
    let rs = rules(vec![
        ("r", seq(ident("r"), Node::Literal(LiteralNode::Lit("+".to_string())))),
        ("r", Node::Literal(LiteralNode::Lit("x".to_string()))),
    ]);
    assert_eq!(rs.left_recursion("r"), LeftRecursion::NoRecursion);
    let rs = rules(vec![
        ("r", Node::Literal(LiteralNode::Lit("x".to_string()))),
        ("r", seq(ident("r"), Node::Literal(LiteralNode::Lit("+".to_string())))),
    ]);
    assert_eq!(rs.left_recursion("r"), LeftRecursion::Direct);
}
