//! The calls in progress of a packrat parser with indirect left recursion:
//! each left-recursive call carries the result it seeds the recursion with
//! and the head of the recursion it takes part in. Heads are kept by the
//! call stack and named by their place among its heads, so that the calls
//! of one recursion share their head.

use vstd::prelude::*;
use crate::irec::RecursionHead;

verus! {

/// `==` on string slices: equal where they hold the same characters.
#[verifier::external_body]
fn same_name(a: &str, b: &str) -> (r: bool)
    ensures
        r == (a@ == b@),
{
    a == b
}

/// A call of the rule `parser` that may recurse on the left: the result it
/// seeds the recursion with, and the head of the recursion it takes part
/// in, by its place among the heads of the call stack, if any.
pub struct LeftRecursive<R> {
    pub parser: &'static str,
    pub seed: R,
    pub head: Option<usize>,
}

impl<R> LeftRecursive<R> {
    /// A call of `parser` seeded with `seed`, in no recursion yet.
    pub fn with_parser_and_seed(parser: &'static str, seed: R) -> (r: Self)
        ensures
            r.parser == parser,
            r.seed == seed,
            r.head is None,
    {
        Self { parser, seed, head: None }
    }

    /// The result the call is seeded with.
    pub fn parse_result(&self) -> (r: &R)
        ensures
            *r == self.seed,
    {
        &self.seed
    }
}

/// An entry of the memo table: a left-recursive call, or a result.
pub enum Entry<R> {
    LeftRecursive(LeftRecursive<R>),
    ParseResult(R),
}

impl<R> Entry<R> {
    /// The result the entry holds: the seed of a left-recursive call.
    pub fn parse_result(&self) -> (r: &R)
        ensures
            *r == match self {
                Entry::LeftRecursive(lr) => lr.seed,
                Entry::ParseResult(x) => *x,
            },
    {
        match self {
            Entry::LeftRecursive(lr) => lr.parse_result(),
            Entry::ParseResult(x) => x,
        }
    }
}

/// The place of the topmost call of `parser` among the first `k` calls of
/// `stack`, or -1 where there is none.
pub open spec fn last_call_below<R>(stack: Seq<LeftRecursive<R>>, parser: Seq<char>, k: int) -> int
    decreases k,
{
    if k <= 0 {
        -1
    } else if stack[k - 1].parser@ == parser {
        k - 1
    } else {
        last_call_below(stack, parser, k - 1)
    }
}

/// `names` with `name` added, unless it holds it already.
pub open spec fn with_name(names: Seq<&'static str>, name: &'static str) -> Seq<&'static str> {
    if exists|q: int| 0 <= q < names.len() && (#[trigger] names[q])@ == name@ {
        names
    } else {
        names.push(name)
    }
}

/// The calls in progress, innermost last, and the heads of the recursions
/// among them.
pub struct CallStack<R> {
    pub stack: Vec<LeftRecursive<R>>,
    pub heads: Vec<RecursionHead>,
}

impl<R> CallStack<R> {
    /// No call in progress.
    pub fn new() -> (r: Self)
        ensures
            r.stack@.len() == 0,
            r.heads@.len() == 0,
    {
        Self { stack: Vec::new(), heads: Vec::new() }
    }

    /// A call begins.
    pub fn push(&mut self, element: LeftRecursive<R>)
        ensures
            final(self).stack@ == old(self).stack@.push(element),
            final(self).heads@ == old(self).heads@,
    {
        self.stack.push(element);
    }

    /// The innermost call ends.
    pub fn pop(&mut self)
        ensures
            final(self).stack@ == (if old(self).stack@.len() > 0 { old(self).stack@.drop_last() } else { old(self).stack@ }),
            final(self).heads@ == old(self).heads@,
    {
        self.stack.pop();
    }

    /// Sets up the left recursion that the call `rec` of `parser` detected:
    /// `rec` gets a new head for `parser` unless it has one; every call
    /// above the innermost call of `parser` on the stack takes part in the
    /// recursion, and the head then counts `parser` as involved.
    pub fn setup_lr(&mut self, parser: &'static str, rec: &mut LeftRecursive<R>)
        requires
            old(rec).head matches Some(h) ==> h < old(self).heads@.len(),
            old(rec).head is None ==> old(self).heads@.len() < usize::MAX,
        ensures
            final(rec).parser == old(rec).parser,
            final(rec).seed == old(rec).seed,
            final(rec).head is Some,
            old(rec).head matches Some(h) ==> final(rec).head == Some(h) && final(self).heads@.len() == old(self).heads@.len(),
            old(rec).head is None ==> final(rec).head == Some(old(self).heads@.len() as usize) && final(self).heads@.len() == old(self).heads@.len() + 1,
            ({
                let h = final(rec).head.unwrap() as int;
                let cut = last_call_below(old(self).stack@, parser@, old(self).stack@.len() as int);
                let fresh = old(rec).head is None;
                let base_name = if fresh { parser } else { old(self).heads@[h].head };
                let base_involved = if fresh { Seq::<&'static str>::empty() } else { old(self).heads@[h].involved@ };
                let base_eval = if fresh { Seq::<&'static str>::empty() } else { old(self).heads@[h].eval@ };
                &&& final(self).stack@.len() == old(self).stack@.len()
                &&& forall|i: int| 0 <= i < old(self).stack@.len() ==> {
                    &&& (#[trigger] final(self).stack@[i]).parser == old(self).stack@[i].parser
                    &&& final(self).stack@[i].seed == old(self).stack@[i].seed
                    &&& final(self).stack@[i].head == (if i > cut { Some(h as usize) } else { old(self).stack@[i].head })
                }
                &&& forall|g: int| 0 <= g < final(self).heads@.len() && g != h ==> #[trigger] final(self).heads@[g] == old(self).heads@[g]
                &&& final(self).heads@[h].head == base_name
                &&& final(self).heads@[h].eval@ == base_eval
                &&& final(self).heads@[h].involved@ == (if cut < old(self).stack@.len() - 1 { with_name(base_involved, parser) } else { base_involved })
            }),
    {
        let ghost old_stack = self.stack@;
        let ghost old_heads = self.heads@;
        if rec.head.is_none() {
            self.heads.push(RecursionHead::with_head(parser));
            rec.head = Some(self.heads.len() - 1);
        }
        let h = rec.head.unwrap();
        let ghost hs = self.heads@;
        let ghost rs = *rec;
        proof {
            if old(rec).head is None {
                assert(hs == old_heads.push(hs[h as int]));
            } else {
                assert(hs == old_heads);
            }
        }
        // The innermost call of `parser`: the calls above it take part.
        let mut cut: usize = self.stack.len();
        while cut > 0 && !same_name(self.stack[cut - 1].parser, parser)
            invariant
                cut <= self.stack@.len(),
                self.stack@ == old_stack,
                self.heads@ == hs,
                *rec == rs,
                last_call_below(old_stack, parser@, cut as int) == last_call_below(old_stack, parser@, old_stack.len() as int),
            decreases cut,
        {
            cut = cut - 1;
        }
        proof {
            if cut > 0 {
                assert(last_call_below(old_stack, parser@, cut as int) == cut - 1);
            }
        }
        let n = self.stack.len();
        let mut updated: Vec<LeftRecursive<R>> = Vec::new();
        let mut k: usize = 0;
        while k < n
            invariant
                n == old_stack.len(),
                k <= n,
                self.heads@ == hs,
                *rec == rs,
                cut <= n,
                self.stack@ == old_stack.skip(k as int),
                updated@.len() == k,
                forall|i: int| 0 <= i < k ==> {
                    &&& (#[trigger] updated@[i]).parser == old_stack[i].parser
                    &&& updated@[i].seed == old_stack[i].seed
                    &&& updated@[i].head == (if i >= cut { Some(h) } else { old_stack[i].head })
                },
            decreases n - k,
        {
            let mut elem = self.stack.remove(0);
            proof {
                assert(elem == old_stack[k as int]);
                assert(self.stack@ =~= old_stack.skip(k + 1));
            }
            if k >= cut {
                elem.head = Some(h);
            }
            updated.push(elem);
            k = k + 1;
        }
        self.stack = updated;
        if cut < n {
            let mut hd = self.heads.remove(h);
            let ghost before = hd.involved@;
            let mut j: usize = 0;
            let mut found = false;
            while j < hd.involved.len()
                invariant
                    j <= hd.involved@.len(),
                    hd.involved@ == before,
                    found == exists|q: int| 0 <= q < j && (#[trigger] hd.involved@[q])@ == parser@,
                decreases hd.involved@.len() - j,
            {
                if same_name(hd.involved[j], parser) {
                    found = true;
                }
                j = j + 1;
            }
            if !found {
                hd.involved.push(parser);
            }
            let ghost removed = self.heads@;
            self.heads.insert(h, hd);
            proof {
                assert forall|g: int| 0 <= g < self.heads@.len() && g != h implies #[trigger] self.heads@[g] == removed.insert(h as int, hd)[g] by {
                }
            }
        }
    }
}

} // verus!
