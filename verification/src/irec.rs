//! Helper structures for indirect left-recursion: the head of a recursion,
//! the rules involved in it and the rules still to be evaluated, and the
//! table that tells which head a call at a given input position belongs to.

use vstd::prelude::*;
use std::cell::RefCell;
use std::collections::HashMap;
use std::rc::Rc;

verus! {

/// `std::cell::RefCell`, which vstd does not declare. A head is shared by
/// the calls of the recursion it heads and changed through this cell; the
/// library only passes such cells along and never looks inside.
#[verifier::external_type_specification]
#[verifier::external_body]
#[verifier::reject_recursive_types(T)]
pub struct ExRefCell<T: ?Sized>(RefCell<T>);

/// The head of a left recursion. The sets of rule names are held as
/// vectors; only which names they hold matters.
#[derive(Clone)]
pub struct RecursionHead {
    pub head: &'static str,
    pub involved: Vec<&'static str>,
    pub eval: Vec<&'static str>,
}

impl RecursionHead {
    /// The recursion headed by `head`, with no rule involved or to evaluate
    /// yet.
    pub fn with_head(head: &'static str) -> (r: Self)
        ensures
            r.head == head,
            r.involved@.len() == 0,
            r.eval@.len() == 0,
    {
        Self { head, involved: Vec::new(), eval: Vec::new() }
    }
}

/// The recursion heads by the input position of the call they belong to.
pub struct CallHeadTable {
    heads: HashMap<usize, Rc<RefCell<RecursionHead>>>,
}

impl View for CallHeadTable {
    type V = Map<usize, Rc<RefCell<RecursionHead>>>;

    closed spec fn view(&self) -> Self::V {
        self.heads@
    }
}

impl CallHeadTable {
    /// A table with no head.
    pub fn new() -> (r: Self)
        ensures
            r@ == Map::<usize, Rc<RefCell<RecursionHead>>>::empty(),
    {
        Self { heads: HashMap::new() }
    }

    /// The head recorded for the position `idx`, if any.
    pub fn get(&self, idx: &usize) -> (r: Option<&Rc<RefCell<RecursionHead>>>)
        ensures
            match r {
                Some(h) => self@.contains_key(*idx) && *h == self@[*idx],
                None => !self@.contains_key(*idx),
            },
    {
        broadcast use vstd::std_specs::hash::group_hash_axioms;
        self.heads.get(idx)
    }

    /// Records `h` as the head for the position `idx`, in place of any head
    /// recorded there before.
    pub fn insert(&mut self, idx: usize, h: Rc<RefCell<RecursionHead>>)
        ensures
            final(self)@ == old(self)@.insert(idx, h),
    {
        broadcast use vstd::std_specs::hash::group_hash_axioms;
        self.heads.insert(idx, h);
    }

    /// Forgets the head recorded for the position `idx`.
    pub fn remove(&mut self, idx: &usize)
        ensures
            final(self)@ == old(self)@.remove(*idx),
    {
        broadcast use vstd::std_specs::hash::group_hash_axioms;
        self.heads.remove(idx);
    }
}

/// After `insert(i, h)` the table gives back `h` for `i` and what it gave
/// before for every other position; after `remove(i)` it gives nothing for
/// `i`.
pub proof fn lemma_read_after_write(
    before: CallHeadTable,
    inserted: CallHeadTable,
    removed: CallHeadTable,
    i: usize,
    h: Rc<RefCell<RecursionHead>>,
)
    requires
        inserted@ == before@.insert(i, h),
        removed@ == before@.remove(i),
    ensures
        inserted@.contains_key(i) && inserted@[i] == h,
        forall|j: usize| j != i ==> (#[trigger] inserted@.contains_key(j) <==> before@.contains_key(j)),
        forall|j: usize| j != i && before@.contains_key(j) ==> #[trigger] inserted@[j] == before@[j],
        !removed@.contains_key(i),
{
}

} // verus!
