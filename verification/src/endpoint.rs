//! Totally ordered endpoint values for intervals.

use vstd::prelude::*;

verus! {

/// A value that can stand at the end of an interval.
///
/// Each value is mapped to a mathematical integer `key` that is injective and
/// whose order is the order of the values.
pub trait Endpoint: Copy + Sized {
    /// The integer standing for the value.
    spec fn key(self) -> int;

    /// Distinct values have distinct keys.
    proof fn lemma_key_injective(a: Self, b: Self)
        ensures
            a.key() == b.key() ==> a == b,
    ;

    /// `self < other` in the value order.
    fn key_lt(&self, other: &Self) -> (r: bool)
        ensures
            r == (self.key() < other.key()),
    ;

    /// `self == other` in the value order.
    fn key_eq(&self, other: &Self) -> (r: bool)
        ensures
            r == (self.key() == other.key()),
    ;
}

impl Endpoint for u8 {
    open spec fn key(self) -> int {
        self as int
    }

    proof fn lemma_key_injective(a: Self, b: Self) {
    }

    fn key_lt(&self, other: &Self) -> (r: bool) {
        *self < *other
    }

    fn key_eq(&self, other: &Self) -> (r: bool) {
        *self == *other
    }
}

impl Endpoint for u16 {
    open spec fn key(self) -> int {
        self as int
    }

    proof fn lemma_key_injective(a: Self, b: Self) {
    }

    fn key_lt(&self, other: &Self) -> (r: bool) {
        *self < *other
    }

    fn key_eq(&self, other: &Self) -> (r: bool) {
        *self == *other
    }
}

impl Endpoint for u32 {
    open spec fn key(self) -> int {
        self as int
    }

    proof fn lemma_key_injective(a: Self, b: Self) {
    }

    fn key_lt(&self, other: &Self) -> (r: bool) {
        *self < *other
    }

    fn key_eq(&self, other: &Self) -> (r: bool) {
        *self == *other
    }
}

impl Endpoint for u64 {
    open spec fn key(self) -> int {
        self as int
    }

    proof fn lemma_key_injective(a: Self, b: Self) {
    }

    fn key_lt(&self, other: &Self) -> (r: bool) {
        *self < *other
    }

    fn key_eq(&self, other: &Self) -> (r: bool) {
        *self == *other
    }
}

impl Endpoint for usize {
    open spec fn key(self) -> int {
        self as int
    }

    proof fn lemma_key_injective(a: Self, b: Self) {
    }

    fn key_lt(&self, other: &Self) -> (r: bool) {
        *self < *other
    }

    fn key_eq(&self, other: &Self) -> (r: bool) {
        *self == *other
    }
}

impl Endpoint for i32 {
    open spec fn key(self) -> int {
        self as int
    }

    proof fn lemma_key_injective(a: Self, b: Self) {
    }

    fn key_lt(&self, other: &Self) -> (r: bool) {
        *self < *other
    }

    fn key_eq(&self, other: &Self) -> (r: bool) {
        *self == *other
    }
}

impl Endpoint for i64 {
    open spec fn key(self) -> int {
        self as int
    }

    proof fn lemma_key_injective(a: Self, b: Self) {
    }

    fn key_lt(&self, other: &Self) -> (r: bool) {
        *self < *other
    }

    fn key_eq(&self, other: &Self) -> (r: bool) {
        *self == *other
    }
}

impl Endpoint for char {
    open spec fn key(self) -> int {
        self as int
    }

    proof fn lemma_key_injective(a: Self, b: Self) {
    }

    fn key_lt(&self, other: &Self) -> (r: bool) {
        *self < *other
    }

    fn key_eq(&self, other: &Self) -> (r: bool) {
        *self == *other
    }
}

} // verus!
