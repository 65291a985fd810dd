//! The result type of a parser.
//!
//! An error remembers how far the input was looked at, what was found there
//! and, per grammar rule, the set of elements that were expected instead.
//! The expectation sets are held as vectors; only which strings they hold
//! matters, so every contract speaks of them as sets.

use vstd::prelude::*;

verus! {

#[derive(Clone)]
pub enum ParseResult<I, T> {
    Success(ParseOk<I, T>),
    Failure(ParseErr),
}

#[derive(Clone)]
pub struct ParseOk<I, T> {
    pub matched: usize,
    pub furthest_it: I,
    pub furthest_error: Option<ParseErr>,
    pub value: T,
}

#[derive(Clone)]
pub struct ParseErr {
    pub furthest_look: usize,
    pub found_element: String,
    /// One entry per rule name, with the elements that rule expected.
    pub elements: Vec<ParseErrElement>,
}

#[derive(Clone)]
pub struct ParseErrElement {
    pub rule: &'static str,
    pub expected_elements: Vec<String>,
}

/// Some entry of `s` belongs to the rule `k`.
pub open spec fn names_rule(s: Seq<ParseErrElement>, k: Seq<char>) -> bool {
    exists|i: int| 0 <= i < s.len() && (#[trigger] s[i]).rule@ == k
}

/// No two entries of `s` belong to the same rule.
pub open spec fn rules_distinct(s: Seq<ParseErrElement>) -> bool {
    forall|i: int, j: int| 0 <= i < j < s.len() ==> (#[trigger] s[i]).rule@ != (#[trigger] s[j]).rule@
}

/// Some entry of `s` for the rule `k` expected `x`.
pub open spec fn rule_expects(s: Seq<ParseErrElement>, k: Seq<char>, x: Seq<char>) -> bool {
    exists|i: int, j: int|
        0 <= i < s.len() && (#[trigger] s[i]).rule@ == k && 0 <= j < s[i].expected_elements@.len()
            && (#[trigger] s[i].expected_elements@[j])@ == x
}

impl ParseErr {
    /// The rule `k` has an entry.
    pub open spec fn has_rule(&self, k: Seq<char>) -> bool {
        names_rule(self.elements@, k)
    }

    /// The rule `k` expected `x`.
    pub open spec fn expects(&self, k: Seq<char>, x: Seq<char>) -> bool {
        rule_expects(self.elements@, k, x)
    }

    /// `self` holds exactly the rules and expectations of both `a` and `b`.
    pub open spec fn merges(&self, a: &ParseErr, b: &ParseErr) -> bool {
        &&& forall|k: Seq<char>| #[trigger] self.has_rule(k) <==> (a.has_rule(k) || b.has_rule(k))
        &&& forall|k: Seq<char>, x: Seq<char>| #[trigger] self.expects(k, x) <==> (a.expects(k, x) || b.expects(k, x))
    }
}

/// `r` is how the errors `a` and `b` unify: the one that looked further
/// wins; at equal distance an error that found nothing gives way to the
/// other, and otherwise the expectations of both are merged.
pub open spec fn errors_unified(a: ParseErr, b: ParseErr, r: ParseErr) -> bool {
    if a.furthest_look > b.furthest_look {
        r == a
    } else if b.furthest_look > a.furthest_look {
        r == b
    } else if a.found_element@.len() == 0 {
        r == b
    } else if b.found_element@.len() == 0 {
        r == a
    } else {
        &&& r.furthest_look == a.furthest_look
        &&& r.found_element == a.found_element
        &&& r.merges(&a, &b)
        &&& rules_distinct(a.elements@) && rules_distinct(b.elements@) ==> rules_distinct(r.elements@)
    }
}

/// `r` is how two optional errors unify: both present unify, otherwise the
/// present one (if any) stays.
pub open spec fn optional_errors_unified(a: Option<ParseErr>, b: Option<ParseErr>, r: Option<ParseErr>) -> bool {
    match (a, b) {
        (Some(x), Some(y)) => r is Some && errors_unified(x, y, r.unwrap()),
        (Some(x), None) => r == Some(x),
        (None, Some(y)) => r == Some(y),
        (None, None) => r is None,
    }
}

/// `r` is how an optional error of a success unifies with a failure.
pub open spec fn ok_err_unified(a: Option<ParseErr>, b: ParseErr, r: ParseErr) -> bool {
    match a {
        Some(x) => errors_unified(x, b, r),
        None => r == b,
    }
}

/// `r` is the success `a` with its furthest error replaced by one that
/// satisfies `e`.
pub open spec fn same_but_error<I, T>(a: ParseOk<I, T>, r: ParseOk<I, T>) -> bool {
    &&& r.matched == a.matched
    &&& r.furthest_it == a.furthest_it
    &&& r.value == a.value
}

/// The two strings hold the same characters.
fn str_eq(a: &str, b: &str) -> (r: bool)
    ensures
        r == (a@ == b@),
{
    let n = a.unicode_len();
    if n != b.unicode_len() {
        return false;
    }
    let mut i: usize = 0;
    while i < n
        invariant
            n == a@.len(),
            n == b@.len(),
            i <= n,
            forall|j: int| 0 <= j < i ==> a@[j] == b@[j],
        decreases n - i,
    {
        if a.get_char(i) != b.get_char(i) {
            return false;
        }
        i = i + 1;
    }
    proof {
        assert(a@ =~= b@);
    }
    true
}

impl ParseErrElement {
    /// The entry of `rule` expecting exactly `element`.
    pub fn single(rule: &'static str, element: String) -> (r: Self)
        ensures
            r.rule == rule,
            r.expected_elements@ == seq![element],
    {
        let mut expected_elements = Vec::new();
        expected_elements.push(element);
        Self { rule, expected_elements }
    }
}

impl ParseErr {
    /// An error at the very start that found nothing and expected nothing.
    pub fn new() -> (r: Self)
        ensures
            r.furthest_look == 0,
            r.found_element@.len() == 0,
            r.elements@.len() == 0,
            rules_distinct(r.elements@),
    {
        Self { furthest_look: 0, found_element: String::new(), elements: Vec::new() }
    }

    /// An error where `rule` expected `expected_element`.
    pub fn single(furthest_look: usize, found_element: String, rule: &'static str, expected_element: String) -> (r: Self)
        ensures
            r.furthest_look == furthest_look,
            r.found_element == found_element,
            forall|k: Seq<char>| #[trigger] r.has_rule(k) <==> k == rule@,
            forall|k: Seq<char>, x: Seq<char>| #[trigger] r.expects(k, x) <==> (k == rule@ && x == expected_element@),
            r.elements@.len() == 1,
            r.elements@[0].rule == rule,
            r.elements@[0].expected_elements@ == seq![expected_element],
            rules_distinct(r.elements@),
    {
        let ghost e = expected_element;
        let mut elements = Vec::new();
        elements.push(ParseErrElement::single(rule, expected_element));
        let r = Self { furthest_look, found_element, elements };
        proof {
            assert(r.elements@[0].rule == rule);
            assert(r.elements@[0].expected_elements@[0] == e);
            assert forall|k: Seq<char>| #[trigger] r.has_rule(k) <==> k == rule@ by {
                if k == rule@ {
                    assert(r.elements@[0].rule@ == k);
                }
            }
            assert forall|k: Seq<char>, x: Seq<char>| #[trigger] r.expects(k, x) <==> (k == rule@ && x == e@) by {
                if k == rule@ && x == e@ {
                    assert(r.elements@[0].expected_elements@[0]@ == x);
                }
            }
        }
        r
    }

    pub fn furthest_look(&self) -> (r: usize)
        ensures
            r == self.furthest_look,
    {
        self.furthest_look
    }
}

impl<I, T> ParseOk<I, T> {
    /// How far the input was looked at: past what was matched, or as far
    /// as the furthest error looked.
    pub fn furthest_look(&self) -> (r: usize)
        ensures
            r == match self.furthest_error {
                Some(err) => if self.matched >= err.furthest_look { self.matched } else { err.furthest_look },
                None => self.matched,
            },
    {
        if let Some(err) = &self.furthest_error {
            let look = err.furthest_look();
            if self.matched >= look {
                self.matched
            } else {
                look
            }
        } else {
            self.matched
        }
    }

    /// Transforms the value, keeping everything else.
    pub fn map<F: FnOnce(T) -> U, U>(self, f: F) -> (r: ParseOk<I, U>)
        requires
            call_requires(f, (self.value,)),
        ensures
            r.matched == self.matched,
            r.furthest_it == self.furthest_it,
            r.furthest_error == self.furthest_error,
            call_ensures(f, (self.value,), r.value),
    {
        ParseOk {
            matched: self.matched,
            furthest_it: self.furthest_it,
            furthest_error: self.furthest_error,
            value: f(self.value),
        }
    }
}

/// A success is a result.
impl<I, T> From<ParseOk<I, T>> for ParseResult<I, T> {
    fn from(ok: ParseOk<I, T>) -> (r: Self) {
        ParseResult::Success(ok)
    }
}

impl<I, T> vstd::std_specs::convert::FromSpecImpl<ParseOk<I, T>> for ParseResult<I, T> {
    open spec fn obeys_from_spec() -> bool {
        true
    }

    open spec fn from_spec(ok: ParseOk<I, T>) -> Self {
        ParseResult::Success(ok)
    }
}

/// A failure is a result.
impl<I, T> From<ParseErr> for ParseResult<I, T> {
    fn from(err: ParseErr) -> (r: Self) {
        ParseResult::Failure(err)
    }
}

impl<I, T> vstd::std_specs::convert::FromSpecImpl<ParseErr> for ParseResult<I, T> {
    open spec fn obeys_from_spec() -> bool {
        true
    }

    open spec fn from_spec(err: ParseErr) -> Self {
        ParseResult::Failure(err)
    }
}

impl<I, T> ParseResult<I, T> {
    pub fn is_ok(&self) -> (r: bool)
        ensures
            r == (self is Success),
    {
        match self {
            ParseResult::Success(_) => true,
            _ => false,
        }
    }

    pub fn is_err(&self) -> (r: bool)
        ensures
            r == (self is Failure),
    {
        !self.is_ok()
    }

    pub fn err(self) -> (r: Option<ParseErr>)
        ensures
            r == match self {
                ParseResult::Failure(e) => Some(e),
                _ => None::<ParseErr>,
            },
    {
        match self {
            ParseResult::Failure(err) => Some(err),
            _ => None,
        }
    }

    pub fn ok(self) -> (r: Option<ParseOk<I, T>>)
        ensures
            r == match self {
                ParseResult::Success(o) => Some(o),
                _ => None::<ParseOk<I, T>>,
            },
    {
        match self {
            ParseResult::Success(ok) => Some(ok),
            _ => None,
        }
    }

    pub fn furthest_look(&self) -> (r: usize)
        ensures
            r == match self {
                ParseResult::Success(o) => match o.furthest_error {
                    Some(err) => if o.matched >= err.furthest_look { o.matched } else { err.furthest_look },
                    None => o.matched,
                },
                ParseResult::Failure(e) => e.furthest_look,
            },
    {
        match self {
            ParseResult::Success(ok) => ok.furthest_look(),
            ParseResult::Failure(err) => err.furthest_look(),
        }
    }

    /// Unifies two alternative results: the success that matched more wins
    /// (the first one on a tie), a success wins over a failure, and the
    /// errors of both are unified.
    pub fn unify_alternatives(a: Self, b: Self) -> (r: Self)
        ensures
            match (a, b) {
                (ParseResult::Success(x), ParseResult::Success(y)) => r matches ParseResult::Success(z) && if y.matched > x.matched {
                    same_but_error(y, z) && optional_errors_unified(x.furthest_error, y.furthest_error, z.furthest_error)
                } else {
                    same_but_error(x, z) && optional_errors_unified(x.furthest_error, y.furthest_error, z.furthest_error)
                },
                (ParseResult::Success(x), ParseResult::Failure(e)) => r matches ParseResult::Success(z) && same_but_error(x, z)
                    && z.furthest_error is Some && ok_err_unified(x.furthest_error, e, z.furthest_error.unwrap()),
                (ParseResult::Failure(e), ParseResult::Success(x)) => r matches ParseResult::Success(z) && same_but_error(x, z)
                    && z.furthest_error is Some && ok_err_unified(x.furthest_error, e, z.furthest_error.unwrap()),
                (ParseResult::Failure(e1), ParseResult::Failure(e2)) => r matches ParseResult::Failure(w) && errors_unified(e1, e2, w),
            },
    {
        match (a, b) {
            (ParseResult::Success(mut a), ParseResult::Success(mut b)) => {
                if a.matched > b.matched {
                    a.furthest_error = Self::unify_errors_in_oks(a.furthest_error, b.furthest_error);
                    ParseResult::Success(a)
                } else if b.matched > a.matched {
                    b.furthest_error = Self::unify_errors_in_oks(a.furthest_error, b.furthest_error);
                    ParseResult::Success(b)
                } else {
                    a.furthest_error = Self::unify_errors_in_oks(a.furthest_error, b.furthest_error);
                    ParseResult::Success(a)
                }
            },
            (ParseResult::Success(mut a), ParseResult::Failure(b)) => {
                a.furthest_error = Some(Self::unify_errors_in_ok_err(a.furthest_error, b));
                ParseResult::Success(a)
            },
            (ParseResult::Failure(b), ParseResult::Success(mut a)) => {
                a.furthest_error = Some(Self::unify_errors_in_ok_err(a.furthest_error, b));
                ParseResult::Success(a)
            },
            (ParseResult::Failure(a), ParseResult::Failure(b)) => ParseResult::Failure(Self::unify_errors(a, b)),
        }
    }

    /// Chains a success with the result of what follows it: a success
    /// pairs the values, and the errors of both are unified.
    pub fn unify_sequence<U>(a: ParseOk<I, T>, b: ParseResult<I, U>) -> (r: ParseResult<I, (T, U)>)
        ensures
            match b {
                ParseResult::Success(y) => r matches ParseResult::Success(z) && z.matched == y.matched
                    && z.furthest_it == y.furthest_it && z.value == (a.value, y.value)
                    && optional_errors_unified(a.furthest_error, y.furthest_error, z.furthest_error),
                ParseResult::Failure(e) => r matches ParseResult::Failure(w) && ok_err_unified(a.furthest_error, e, w),
            },
    {
        match b {
            ParseResult::Success(b) => ParseResult::Success(
                ParseOk {
                    matched: b.matched,
                    furthest_it: b.furthest_it,
                    furthest_error: Self::unify_errors_in_oks(a.furthest_error, b.furthest_error),
                    value: (a.value, b.value),
                },
            ),
            ParseResult::Failure(b) => ParseResult::Failure(Self::unify_errors_in_ok_err(a.furthest_error, b)),
        }
    }

    fn unify_errors_in_oks(a: Option<ParseErr>, b: Option<ParseErr>) -> (r: Option<ParseErr>)
        ensures
            optional_errors_unified(a, b, r),
    {
        if a.is_some() && b.is_some() {
            let aerr = a.unwrap();
            let berr = b.unwrap();
            Some(Self::unify_errors(aerr, berr))
        } else if a.is_some() {
            a
        } else if b.is_some() {
            b
        } else {
            None
        }
    }

    fn unify_errors_in_ok_err(a: Option<ParseErr>, b: ParseErr) -> (r: ParseErr)
        ensures
            ok_err_unified(a, b, r),
    {
        if a.is_some() {
            let aerr = a.unwrap();
            Self::unify_errors(aerr, b)
        } else {
            b
        }
    }

    fn unify_errors(a: ParseErr, b: ParseErr) -> (r: ParseErr)
        ensures
            errors_unified(a, b, r),
    {
        if a.furthest_look > b.furthest_look {
            a
        } else if b.furthest_look > a.furthest_look {
            b
        } else {
            // We unify the errors
            // Special case if one is an empty element
            if a.found_element.as_str().is_empty() {
                b
            } else if b.found_element.as_str().is_empty() {
                a
            } else {
                let ghost ga = a;
                let ghost gb = b;
                let elements = merge_elements(a.elements, b.elements);
                let r = ParseErr { furthest_look: a.furthest_look, found_element: a.found_element, elements };
                proof {
                    assert forall|k: Seq<char>| #[trigger] r.has_rule(k) <==> (ga.has_rule(k) || gb.has_rule(k)) by {
                    }
                    assert forall|k: Seq<char>, x: Seq<char>| #[trigger] r.expects(k, x) <==> (ga.expects(k, x) || gb.expects(k, x)) by {
                    }
                }
                r
            }
        }
    }
}

/// The index of the entry for `rule`, if there is one.
fn find_rule(elements: &Vec<ParseErrElement>, rule: &str) -> (r: Option<usize>)
    ensures
        match r {
            Some(i) => i < elements@.len() && elements@[i as int].rule@ == rule@,
            None => forall|i: int| 0 <= i < elements@.len() ==> (#[trigger] elements@[i]).rule@ != rule@,
        },
{
    let mut idx: usize = 0;
    while idx < elements.len()
        invariant
            idx <= elements@.len(),
            forall|i: int| 0 <= i < idx ==> (#[trigger] elements@[i]).rule@ != rule@,
        decreases elements@.len() - idx,
    {
        if str_eq(elements[idx].rule, rule) {
            return Some(idx);
        }
        idx = idx + 1;
    }
    None
}

/// Merges the entries of `b` into `a`: an entry of a rule already present
/// extends that entry's expectations, another is added.
fn merge_elements(a: Vec<ParseErrElement>, b: Vec<ParseErrElement>) -> (r: Vec<ParseErrElement>)
    ensures
        forall|k: Seq<char>| #[trigger] names_rule(r@, k) <==> (names_rule(a@, k) || names_rule(b@, k)),
        forall|k: Seq<char>, x: Seq<char>| #[trigger] rule_expects(r@, k, x) <==> (rule_expects(a@, k, x) || rule_expects(b@, k, x)),
        rules_distinct(a@) ==> rules_distinct(r@),
{
    let ghost ga = a@;
    let ghost gb = b@;
    let mut elements = a;
    let mut rest = b;
    while rest.len() > 0
        invariant
            gb.len() >= rest@.len(),
            rest@ == gb.take(rest@.len() as int),
            forall|k: Seq<char>| #[trigger] names_rule(elements@, k) <==> (names_rule(ga, k) || names_rule(gb.skip(rest@.len() as int), k)),
            forall|k: Seq<char>, x: Seq<char>| #[trigger] rule_expects(elements@, k, x) <==> (rule_expects(ga, k, x) || rule_expects(gb.skip(rest@.len() as int), k, x)),
            rules_distinct(ga) ==> rules_distinct(elements@),
        decreases rest@.len(),
    {
        let ghost n = rest@.len() as int;
        let mut v = rest.pop().unwrap();
        let ghost gv = v;
        let ghost done = gb.skip(n);
        let ghost done2 = gb.skip(n - 1);
        proof {
            assert(gb[n - 1] == gv);
            assert(done2 == seq![gv] + done);
            assert(rest@ == gb.take(n - 1));
        }
        let ghost before = elements@;
        let position = find_rule(&elements, v.rule);
        if let Some(idx) = position {
            let mut e = elements.remove(idx);
            let ghost ge = e;
            e.expected_elements.append(&mut v.expected_elements);
            elements.insert(idx, e);
            proof {
                lemma_extend_entry(before, idx as int, ge, gv, elements@);
                if rules_distinct(ga) {
                    assert forall|i: int, j: int| 0 <= i < j < elements@.len() implies (#[trigger] elements@[i]).rule@ != (#[trigger] elements@[j]).rule@ by {
                        assert(before[i].rule == elements@[i].rule);
                        assert(before[j].rule == elements@[j].rule);
                    }
                }
            }
        } else {
            elements.push(v);
            proof {
                lemma_add_entry(before, gv, elements@);
                if rules_distinct(ga) {
                    assert forall|i: int, j: int| 0 <= i < j < elements@.len() implies (#[trigger] elements@[i]).rule@ != (#[trigger] elements@[j]).rule@ by {
                        if j == before.len() {
                            assert(elements@[i] == before[i]);
                        } else {
                            assert(elements@[i] == before[i] && elements@[j] == before[j]);
                        }
                    }
                }
            }
        }
        proof {
            lemma_entry_then_rest(gv, done, done2);
            assert(rest@.len() == n - 1);
        }
    }
    proof {
        assert(gb.skip(0) == gb);
    }
    elements
}

/// The entries `[v] + done` name and expect what `v` and `done` do.
proof fn lemma_entry_then_rest(v: ParseErrElement, done: Seq<ParseErrElement>, all: Seq<ParseErrElement>)
    requires
        all == seq![v] + done,
    ensures
        forall|k: Seq<char>| #[trigger] names_rule(all, k) <==> (names_rule(seq![v], k) || names_rule(done, k)),
        forall|k: Seq<char>, x: Seq<char>| #[trigger] rule_expects(all, k, x) <==> (rule_expects(seq![v], k, x) || rule_expects(done, k, x)),
{
    assert forall|k: Seq<char>| #[trigger] names_rule(all, k) <==> (names_rule(seq![v], k) || names_rule(done, k)) by {
        if names_rule(all, k) {
            let i = choose|i: int| 0 <= i < all.len() && (#[trigger] all[i]).rule@ == k;
            if i == 0 {
                assert(seq![v][0].rule@ == k);
            } else {
                assert(done[i - 1].rule@ == k);
            }
        }
        if names_rule(seq![v], k) {
            assert(all[0].rule@ == k);
        }
        if names_rule(done, k) {
            let i = choose|i: int| 0 <= i < done.len() && (#[trigger] done[i]).rule@ == k;
            assert(all[i + 1].rule@ == k);
        }
    }
    assert forall|k: Seq<char>, x: Seq<char>| #[trigger] rule_expects(all, k, x) <==> (rule_expects(seq![v], k, x) || rule_expects(done, k, x)) by {
        if rule_expects(all, k, x) {
            let (i, j) = choose|i: int, j: int|
                0 <= i < all.len() && (#[trigger] all[i]).rule@ == k && 0 <= j < all[i].expected_elements@.len()
                    && (#[trigger] all[i].expected_elements@[j])@ == x;
            if i == 0 {
                assert(seq![v][0].rule@ == k && seq![v][0].expected_elements@[j]@ == x);
            } else {
                assert(done[i - 1].rule@ == k && done[i - 1].expected_elements@[j]@ == x);
            }
        }
        if rule_expects(seq![v], k, x) {
            let (i, j) = choose|i: int, j: int|
                0 <= i < seq![v].len() && (#[trigger] seq![v][i]).rule@ == k && 0 <= j < seq![v][i].expected_elements@.len()
                    && (#[trigger] seq![v][i].expected_elements@[j])@ == x;
            assert(all[0].rule@ == k && all[0].expected_elements@[j]@ == x);
        }
        if rule_expects(done, k, x) {
            let (i, j) = choose|i: int, j: int|
                0 <= i < done.len() && (#[trigger] done[i]).rule@ == k && 0 <= j < done[i].expected_elements@.len()
                    && (#[trigger] done[i].expected_elements@[j])@ == x;
            assert(all[i + 1].rule@ == k && all[i + 1].expected_elements@[j]@ == x);
        }
    }
}

/// Adding the entry `v` to `s` adds its rule and its expectations.
proof fn lemma_add_entry(s: Seq<ParseErrElement>, v: ParseErrElement, r: Seq<ParseErrElement>)
    requires
        r == s.push(v),
    ensures
        forall|k: Seq<char>| #[trigger] names_rule(r, k) <==> (names_rule(s, k) || names_rule(seq![v], k)),
        forall|k: Seq<char>, x: Seq<char>| #[trigger] rule_expects(r, k, x) <==> (rule_expects(s, k, x) || rule_expects(seq![v], k, x)),
{
    let n = s.len() as int;
    assert forall|k: Seq<char>| #[trigger] names_rule(r, k) <==> (names_rule(s, k) || names_rule(seq![v], k)) by {
        if names_rule(r, k) {
            let i = choose|i: int| 0 <= i < r.len() && (#[trigger] r[i]).rule@ == k;
            if i == n {
                assert(seq![v][0].rule@ == k);
            } else {
                assert(s[i].rule@ == k);
            }
        }
        if names_rule(seq![v], k) {
            assert(r[n].rule@ == k);
        }
        if names_rule(s, k) {
            let i = choose|i: int| 0 <= i < s.len() && (#[trigger] s[i]).rule@ == k;
            assert(r[i].rule@ == k);
        }
    }
    assert forall|k: Seq<char>, x: Seq<char>| #[trigger] rule_expects(r, k, x) <==> (rule_expects(s, k, x) || rule_expects(seq![v], k, x)) by {
        if rule_expects(r, k, x) {
            let (i, j) = choose|i: int, j: int|
                0 <= i < r.len() && (#[trigger] r[i]).rule@ == k && 0 <= j < r[i].expected_elements@.len()
                    && (#[trigger] r[i].expected_elements@[j])@ == x;
            if i == n {
                assert(seq![v][0].rule@ == k && seq![v][0].expected_elements@[j]@ == x);
            } else {
                assert(s[i].rule@ == k && s[i].expected_elements@[j]@ == x);
            }
        }
        if rule_expects(seq![v], k, x) {
            let (i, j) = choose|i: int, j: int|
                0 <= i < seq![v].len() && (#[trigger] seq![v][i]).rule@ == k && 0 <= j < seq![v][i].expected_elements@.len()
                    && (#[trigger] seq![v][i].expected_elements@[j])@ == x;
            assert(r[n].rule@ == k && r[n].expected_elements@[j]@ == x);
        }
        if rule_expects(s, k, x) {
            let (i, j) = choose|i: int, j: int|
                0 <= i < s.len() && (#[trigger] s[i]).rule@ == k && 0 <= j < s[i].expected_elements@.len()
                    && (#[trigger] s[i].expected_elements@[j])@ == x;
            assert(r[i].rule@ == k && r[i].expected_elements@[j]@ == x);
        }
    }
}

/// Extending the entry at `idx`, of the same rule as `v`, by the
/// expectations of `v` adds exactly those of `v`.
proof fn lemma_extend_entry(s: Seq<ParseErrElement>, idx: int, e: ParseErrElement, v: ParseErrElement, r: Seq<ParseErrElement>)
    requires
        0 <= idx < s.len(),
        s[idx] == e,
        e.rule@ == v.rule@,
        r.len() == s.len(),
        forall|i: int| 0 <= i < s.len() && i != idx ==> r[i] == s[i],
        r[idx].rule == e.rule,
        r[idx].expected_elements@ == e.expected_elements@ + v.expected_elements@,
    ensures
        forall|k: Seq<char>| #[trigger] names_rule(r, k) <==> (names_rule(s, k) || names_rule(seq![v], k)),
        forall|k: Seq<char>, x: Seq<char>| #[trigger] rule_expects(r, k, x) <==> (rule_expects(s, k, x) || rule_expects(seq![v], k, x)),
{
    let m = e.expected_elements@.len() as int;
    assert forall|k: Seq<char>| #[trigger] names_rule(r, k) <==> (names_rule(s, k) || names_rule(seq![v], k)) by {
        if names_rule(r, k) {
            let i = choose|i: int| 0 <= i < r.len() && (#[trigger] r[i]).rule@ == k;
            assert(s[i].rule@ == k);
        }
        if names_rule(seq![v], k) {
            assert(seq![v][0].rule@ == k);
            assert(r[idx].rule@ == k);
        }
        if names_rule(s, k) {
            let i = choose|i: int| 0 <= i < s.len() && (#[trigger] s[i]).rule@ == k;
            assert(r[i].rule@ == k);
        }
    }
    assert forall|k: Seq<char>, x: Seq<char>| #[trigger] rule_expects(r, k, x) <==> (rule_expects(s, k, x) || rule_expects(seq![v], k, x)) by {
        if rule_expects(r, k, x) {
            let (i, j) = choose|i: int, j: int|
                0 <= i < r.len() && (#[trigger] r[i]).rule@ == k && 0 <= j < r[i].expected_elements@.len()
                    && (#[trigger] r[i].expected_elements@[j])@ == x;
            if i != idx {
                assert(s[i].rule@ == k && s[i].expected_elements@[j]@ == x);
            } else if j < m {
                assert(s[idx].rule@ == k && s[idx].expected_elements@[j]@ == x);
            } else {
                assert(seq![v][0].rule@ == k && seq![v][0].expected_elements@[j - m]@ == x);
            }
        }
        if rule_expects(seq![v], k, x) {
            let (i, j) = choose|i: int, j: int|
                0 <= i < seq![v].len() && (#[trigger] seq![v][i]).rule@ == k && 0 <= j < seq![v][i].expected_elements@.len()
                    && (#[trigger] seq![v][i].expected_elements@[j])@ == x;
            assert(r[idx].rule@ == k && r[idx].expected_elements@[j + m]@ == x);
        }
        if rule_expects(s, k, x) {
            let (i, j) = choose|i: int, j: int|
                0 <= i < s.len() && (#[trigger] s[i]).rule@ == k && 0 <= j < s[i].expected_elements@.len()
                    && (#[trigger] s[i].expected_elements@[j])@ == x;
            assert(r[i].rule@ == k && r[i].expected_elements@[j]@ == x);
        }
    }
}


/// Unifying errors keeps the furthest look of the two.
pub proof fn lemma_unified_looks_furthest(a: ParseErr, b: ParseErr, r: ParseErr)
    requires
        errors_unified(a, b, r),
    ensures
        r.furthest_look == if a.furthest_look >= b.furthest_look { a.furthest_look } else { b.furthest_look },
{
}

/// Unifying errors that looked equally far and both found something keeps
/// the expectations of both, whichever comes first.
pub proof fn lemma_unified_merge_symmetric(a: ParseErr, b: ParseErr, ab: ParseErr, ba: ParseErr)
    requires
        a.furthest_look == b.furthest_look,
        a.found_element@.len() != 0,
        b.found_element@.len() != 0,
        errors_unified(a, b, ab),
        errors_unified(b, a, ba),
    ensures
        forall|k: Seq<char>| #[trigger] ab.has_rule(k) <==> ba.has_rule(k),
        forall|k: Seq<char>, x: Seq<char>| #[trigger] ab.expects(k, x) <==> ba.expects(k, x),
{
}

} // verus!
