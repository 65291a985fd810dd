//! Helper structure for direct left-recursion.

use vstd::prelude::*;
use crate::parse_result::ParseResult;

verus! {

pub enum DirectRec<T, E> {
    Base(ParseResult<T, E>),
    Stub(ParseResult<T, E>),
    Recurse(ParseResult<T, E>),
}

impl<T, E> DirectRec<T, E> {
    /// The result held, whichever stage of the recursion it is.
    pub open spec fn held(&self) -> ParseResult<T, E> {
        match self {
            DirectRec::Base(res) => *res,
            DirectRec::Stub(res) => *res,
            DirectRec::Recurse(res) => *res,
        }
    }

    pub fn parse_result(&self) -> (r: &ParseResult<T, E>)
        ensures
            *r == self.held(),
    {
        match self {
            DirectRec::Base(res) | DirectRec::Stub(res) | DirectRec::Recurse(res) => res,
        }
    }

    pub fn furthest_look(&self) -> (r: usize)
        ensures
            r == match self.held() {
                ParseResult::Success(o) => match o.furthest_error {
                    Some(err) => if o.matched >= err.furthest_look { o.matched } else { err.furthest_look },
                    None => o.matched,
                },
                ParseResult::Failure(e) => e.furthest_look,
            },
    {
        self.parse_result().furthest_look()
    }
}

} // verus!
