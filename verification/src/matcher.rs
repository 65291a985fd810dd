//! The traits a generated parser implements to compare the items of its
//! input with the terminals of its grammar, and to describe both in errors.

use vstd::prelude::*;

verus! {

/// A parser over a stream of items.
pub trait Parser {
    type Item;
}

/// Terminals of type `T` that the parser can compare its items with.
pub trait Match<T> where Self: Parser {
    /// The item `a` matches the terminal `b`.
    fn matches(a: &<Self as Parser>::Item, b: &T) -> bool;

    /// How an expected terminal is shown in an error.
    fn show_expected(item: &T) -> String;
}

/// How a found item is shown in an error.
pub trait ShowFound where Self: Parser {
    fn show_found(item: &<Self as Parser>::Item) -> String;
}

} // verus!
