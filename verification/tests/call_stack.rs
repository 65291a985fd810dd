use yoakke::call_stack::{CallStack, Entry, LeftRecursive};

fn stack_of(names: &[&'static str]) -> CallStack<u32> {
    let mut stack = CallStack::new();
    for (i, n) in names.iter().enumerate() {
        stack.push(LeftRecursive::with_parser_and_seed(n, i as u32));
    }
    stack
}

#[test]
fn the_calls_above_the_innermost_call_take_part() {
    let mut stack = stack_of(&["expr", "term", "factor"]);
    let mut rec = LeftRecursive::with_parser_and_seed("expr", 9);
    stack.setup_lr("expr", &mut rec);
    assert_eq!(rec.head, Some(0));
    assert_eq!(stack.heads.len(), 1);
    assert_eq!(stack.heads[0].head, "expr");
    let heads: Vec<Option<usize>> = stack.stack.iter().map(|c| c.head).collect();
    assert_eq!(heads, vec![None, Some(0), Some(0)]);
    assert_eq!(stack.heads[0].involved, vec!["expr"]);
}

#[test]
fn a_head_is_kept_and_a_name_counted_once() {
    let mut stack = stack_of(&["expr", "term"]);
    let mut rec = LeftRecursive::with_parser_and_seed("expr", 9);
    stack.setup_lr("expr", &mut rec);
    stack.setup_lr("expr", &mut rec);
    assert_eq!(rec.head, Some(0));
    assert_eq!(stack.heads.len(), 1);
    assert_eq!(stack.heads[0].involved, vec!["expr"]);
}

#[test]
fn with_the_call_innermost_no_call_takes_part() {
    let mut stack = stack_of(&["term", "expr"]);
    let mut rec = LeftRecursive::with_parser_and_seed("expr", 9);
    stack.setup_lr("expr", &mut rec);
    assert_eq!(rec.head, Some(0));
    let heads: Vec<Option<usize>> = stack.stack.iter().map(|c| c.head).collect();
    assert_eq!(heads, vec![None, None]);
    assert!(stack.heads[0].involved.is_empty());
    stack.pop();
    assert_eq!(stack.stack.len(), 1);
}

#[test]
fn an_entry_gives_its_result() {
    let lr: Entry<u32> = Entry::LeftRecursive(LeftRecursive::with_parser_and_seed("expr", 4));
    assert_eq!(*lr.parse_result(), 4);
    let r: Entry<u32> = Entry::ParseResult(7);
    assert_eq!(*r.parse_result(), 7);
}
