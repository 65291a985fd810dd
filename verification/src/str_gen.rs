//! String generation strategies.

use vstd::prelude::*;
use std::ops::Range;
use crate::rnd::{drawn_from, rand_string, sample};
use vstd::string::StringSliceAdditionalSpecFns;

verus! {

pub trait StringGenStrategy {
    /// The strategy has something to generate from.
    spec fn can_generate(&self) -> bool;

    /// `s` is one of the strings the strategy may generate.
    spec fn generates(&self, s: Seq<char>) -> bool;

    fn generate(&self) -> (r: String)
        requires
            self.can_generate(),
        ensures
            self.generates(r@),
    ;
}

/// A strategy that can be put behind a pointer to a trait object, which then
/// can generate and generates what the strategy itself does.
pub trait IntoBoxedStrategy: StringGenStrategy + Sized {
    fn into_boxed(self) -> (b: BoxedStrategy)
        ensures
            b.strategy.can_generate() == self.can_generate(),
            forall|s: Seq<char>| b.strategy.generates(s) == self.generates(s),
    ;
}

/// A strategy behind a pointer to a trait object.
pub struct BoxedStrategy {
    pub strategy: Box<dyn StringGenStrategy>,
}

/// Random string from a charset.
pub struct RandomStringGenerator {
    len: Range<usize>,
    charset: String,
}

impl RandomStringGenerator {
    /// The range the length is drawn from.
    pub closed spec fn length_range(&self) -> Range<usize> {
        self.len
    }

    /// The characters strings are drawn from.
    pub closed spec fn chars(&self) -> Seq<char> {
        self.charset@
    }

    pub fn with_len_and_charset(len: Range<usize>, charset: &str) -> (r: Self)
        ensures
            r.length_range() == len,
            r.chars() == charset@,
    {
        Self { len, charset: String::from_str(charset) }
    }
}

impl StringGenStrategy for RandomStringGenerator {
    open spec fn can_generate(&self) -> bool {
        self.length_range().start < self.length_range().end && (self.length_range().end <= 1
            || vstd::utf8::encode_utf8(self.chars()).len() > 0)
    }

    /// A string of a length in the range, made of the bytes of the charset.
    open spec fn generates(&self, s: Seq<char>) -> bool {
        &&& self.length_range().start <= s.len() < self.length_range().end
        &&& forall|i: int|
            0 <= i < s.len() ==> drawn_from(#[trigger] s[i], vstd::utf8::encode_utf8(self.chars()))
    }

    fn generate(&self) -> (r: String)
        ensures
            self.length_range().start <= r@.len() < self.length_range().end,
    {
        let cs = self.charset.as_str();
        proof {
            assert(cs.spec_bytes() == vstd::utf8::encode_utf8(self.chars()));
        }
        rand_string(&self.len, cs)
    }
}

/// Random string from a predefined set of strings.
pub struct RandomTokenGenerator {
    strs: Vec<String>,
}

impl RandomTokenGenerator {
    /// The strings to choose from.
    pub closed spec fn choices(&self) -> Seq<Seq<char>> {
        self.strs@.map_values(|s: String| s@)
    }

    pub fn new() -> (r: Self)
        ensures
            r.choices().len() == 0,
    {
        Self { strs: Vec::new() }
    }

    /// Adds a string to choose from.
    pub fn add(&mut self, s: &str)
        ensures
            final(self).choices() == old(self).choices().push(s@),
    {
        self.strs.push(String::from_str(s));
        proof {
            assert(self.choices() =~= old(self).choices().push(s@));
        }
    }
}

impl StringGenStrategy for RandomTokenGenerator {
    open spec fn can_generate(&self) -> bool {
        self.choices().len() > 0
    }

    /// One of the strings to choose from.
    open spec fn generates(&self, s: Seq<char>) -> bool {
        self.choices().contains(s)
    }

    fn generate(&self) -> (r: String)
        ensures
            self.choices().contains(r@),
    {
        let s = sample(self.strs.as_slice());
        let r = s.clone();
        proof {
            let i = choose|i: int| 0 <= i < self.strs@.len() && *s == self.strs@[i];
            assert(self.choices()[i] == r@);
        }
        r
    }
}

/// Chooses from a collection of strategies and uses that.
pub struct RandomStringStrategy {
    strats: Vec<BoxedStrategy>,
}

impl RandomStringStrategy {
    /// The strategies to choose from, in the order they were added.
    pub closed spec fn strategies(&self) -> Seq<BoxedStrategy> {
        self.strats@
    }

    /// The number of strategies to choose from.
    pub closed spec fn count(&self) -> nat {
        self.strats@.len()
    }

    /// Every strategy to choose from can generate.
    pub closed spec fn all_can_generate(&self) -> bool {
        forall|i: int| 0 <= i < self.strats@.len() ==> (#[trigger] self.strats@[i]).strategy.can_generate()
    }

    pub fn new() -> (r: Self)
        ensures
            r.count() == 0,
            r.all_can_generate(),
    {
        Self { strats: Vec::new() }
    }

    /// Adds `g` to the strategies to choose from, after those already there.
    pub fn add<G: IntoBoxedStrategy>(&mut self, g: G)
        ensures
            final(self).strategies().len() == old(self).strategies().len() + 1,
            final(self).strategies().take(old(self).strategies().len() as int)
                == old(self).strategies(),
            final(self).count() == old(self).count() + 1,
            final(self).strategies().last().strategy.can_generate() == g.can_generate(),
            forall|s: Seq<char>| final(self).strategies().last().strategy.generates(s) == g.generates(s),
            final(self).all_can_generate() == (old(self).all_can_generate() && g.can_generate()),
    {
        let ghost before = self.strats@;
        let b = g.into_boxed();
        self.strats.push(b);
        proof {
            assert(self.strats@.take(before.len() as int) =~= before);
            assert(self.strats@.last() == b);
            if old(self).all_can_generate() && b.strategy.can_generate() {
                assert forall|i: int| 0 <= i < self.strats@.len() implies
                    (#[trigger] self.strats@[i]).strategy.can_generate() by {
                    if i < before.len() {
                        assert(self.strats@[i] == before[i]);
                    }
                }
            }
            if self.all_can_generate() {
                assert forall|i: int| 0 <= i < before.len() implies
                    (#[trigger] before[i]).strategy.can_generate() by {
                    assert(self.strats@[i] == before[i]);
                }
                assert(self.strats@[before.len() as int].strategy.can_generate());
            }
        }
    }
}

impl StringGenStrategy for RandomStringStrategy {
    open spec fn can_generate(&self) -> bool {
        self.count() > 0 && self.all_can_generate()
    }

    /// What one of the strategies generates.
    open spec fn generates(&self, s: Seq<char>) -> bool {
        exists|i: int|
            0 <= i < self.strategies().len() && (#[trigger] self.strategies()[i]).strategy.generates(s)
    }

    fn generate(&self) -> (r: String) {
        let s = sample(self.strats.as_slice());
        let ghost i = choose|i: int| 0 <= i < self.strats@.len() && *s == self.strats@[i];
        proof {
            assert(self.strats@[i].strategy.can_generate());
        }
        let r = s.strategy.generate();
        proof {
            assert(self.strategies()[i].strategy.generates(r@));
        }
        r
    }
}

} // verus!

verus! {

impl IntoBoxedStrategy for RandomStringGenerator {
    fn into_boxed(self) -> (b: BoxedStrategy) {
        BoxedStrategy { strategy: Box::new(self) }
    }
}

impl IntoBoxedStrategy for RandomTokenGenerator {
    fn into_boxed(self) -> (b: BoxedStrategy) {
        BoxedStrategy { strategy: Box::new(self) }
    }
}

impl IntoBoxedStrategy for RandomStringStrategy {
    fn into_boxed(self) -> (b: BoxedStrategy) {
        BoxedStrategy { strategy: Box::new(self) }
    }
}

} // verus!
