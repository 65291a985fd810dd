//! The inclusive code-point ends of character interval bounds, as the lexer
//! generator writes them into the match arms of a generated lexer.

use vstd::prelude::*;
use crate::bound::{LowerBound, UpperBound};

verus! {

/// The first code point a lower bound admits; none if it is unbounded.
pub fn to_lower_inclusive_u32(b: &LowerBound<char>) -> (r: Option<u32>)
    ensures
        r == match *b {
            LowerBound::Excluded(c) => Some((c as u32 + 1) as u32),
            LowerBound::Included(c) => Some(c as u32),
            LowerBound::Unbounded => None,
        },
{
    match b {
        LowerBound::Excluded(c) => {
            proof {
                vstd::utf8::char_is_scalar(*c);
            }
            Some(*c as u32 + 1)
        },
        LowerBound::Included(c) => Some(*c as u32),
        LowerBound::Unbounded => None,
    }
}

/// The last code point an upper bound admits; none if it is unbounded.
pub fn to_upper_inclusive_u32(b: &UpperBound<char>) -> (r: Option<u32>)
    requires
        !(*b matches UpperBound::Excluded(c) && c as u32 == 0),
    ensures
        r == match *b {
            UpperBound::Excluded(c) => Some((c as u32 - 1) as u32),
            UpperBound::Included(c) => Some(c as u32),
            UpperBound::Unbounded => None,
        },
{
    match b {
        UpperBound::Excluded(c) => Some(*c as u32 - 1),
        UpperBound::Included(c) => Some(*c as u32),
        UpperBound::Unbounded => None,
    }
}

} // verus!
