use yoakke::bound::{LowerBound, UpperBound};
use yoakke::char_bounds::{to_lower_inclusive_u32, to_upper_inclusive_u32};
use yoakke::console::{init_console, set_console_format};
use yoakke::format::{Bg, Col, Fg, Fmt};
use yoakke::fuzz_gen::{AppendEdit, FuzzStrategy};
use yoakke::rnd::{rand_range, rand_string, sample};
use yoakke::str_gen::{RandomStringGenerator, RandomStringStrategy, RandomTokenGenerator, StringGenStrategy};

#[test]
fn rand_range_stays_in_range() {
    for _ in 0..100 {
        let x = rand_range(&(3..7));
        assert!((3..7).contains(&x));
    }
    assert_eq!(rand_range(&(5..6)), 5);
}

#[test]
fn sample_picks_an_element() {
    let v = [4, 8, 15];
    for _ in 0..50 {
        assert!(v.contains(sample(&v)));
    }
}

#[test]
fn rand_string_uses_the_charset() {
    for _ in 0..50 {
        let s = rand_string(&(2..5), "ab");
        assert!(s.len() >= 2 && s.len() < 5);
        assert!(s.chars().all(|c| c == 'a' || c == 'b'));
    }
    assert_eq!(rand_string(&(0..1), ""), "");
}

#[test]
fn string_generators() {
    let g = RandomStringGenerator::with_len_and_charset(1..3, "x");
    let s = g.generate();
    assert!(s == "x" || s == "xx");
    let mut t = RandomTokenGenerator::new();
    t.add("if");
    t.add("else");
    let w = t.generate();
    assert!(w == "if" || w == "else");
    let mut m = RandomStringStrategy::new();
    m.add(t);
    let w = m.generate();
    assert!(w == "if" || w == "else");
}

#[test]
fn append_edit_appends_at_the_end() {
    let mut t = RandomTokenGenerator::new();
    t.add("(");
    let e = AppendEdit::with_gen(t);
    let (erased, inserted) = e.make_edit("abc");
    assert_eq!(erased, 3..3);
    assert_eq!(inserted, "(");
}

#[test]
fn inclusive_code_points() {
    assert_eq!(to_lower_inclusive_u32(&LowerBound::Excluded('a')), Some('b' as u32));
    assert_eq!(to_lower_inclusive_u32(&LowerBound::Included('a')), Some('a' as u32));
    assert_eq!(to_lower_inclusive_u32(&LowerBound::Unbounded), None);
    assert_eq!(to_upper_inclusive_u32(&UpperBound::Excluded('b')), Some('a' as u32));
    assert_eq!(to_upper_inclusive_u32(&UpperBound::Included('b')), Some('b' as u32));
    assert_eq!(to_upper_inclusive_u32(&UpperBound::Unbounded), None);
}

#[test]
fn console_formatting_is_accepted() {
    init_console();
    let fmt = Fmt { fg: Fg(Col::White), bg: Bg(Col::Blue) };
    set_console_format(&fmt);
    assert_eq!(fmt.fg.0, Col::White);
}

#[test]
fn a_string_of_picks_takes_the_picked_bytes() {
    let picks: Vec<usize> = vec![2, 0, 0, 1];
    assert_eq!(yoakke::rnd::string_of_picks("abc", &picks), "caab");
    assert_eq!(yoakke::rnd::string_of_picks("abc", &Vec::new()), "");
}
