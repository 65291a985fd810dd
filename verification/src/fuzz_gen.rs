//! Edit generation strategies.

use vstd::prelude::*;
use std::ops::Range;
use crate::str_gen::{StringGenStrategy, IntoBoxedStrategy, BoxedStrategy};
use vstd::string::StringSliceAdditionalSpecFns;

verus! {

pub trait FuzzStrategy {
    /// The strategy can make an edit.
    spec fn can_edit(&self) -> bool;

    /// An edit of `src`: the byte range to erase and the string to insert.
    fn make_edit(&self, src: &str) -> (Range<usize>, String)
        requires
            self.can_edit(),
    ;
}

/// Appender, that simply appends a string to the end of the document.
pub struct AppendEdit {
    gen: BoxedStrategy,
}

impl AppendEdit {
    /// The generator of the appended strings can generate.
    pub closed spec fn generator_ready(&self) -> bool {
        self.gen.strategy.can_generate()
    }

    /// `s` is one of the strings the generator may produce.
    pub closed spec fn produces(&self, s: Seq<char>) -> bool {
        self.gen.strategy.generates(s)
    }

    /// An appender of the strings `g` generates.
    pub fn with_gen<G: IntoBoxedStrategy>(g: G) -> (r: Self)
        ensures
            r.generator_ready() == g.can_generate(),
            forall|s: Seq<char>| r.produces(s) == g.generates(s),
    {
        Self { gen: g.into_boxed() }
    }
}

impl FuzzStrategy for AppendEdit {
    open spec fn can_edit(&self) -> bool {
        self.generator_ready()
    }

    fn make_edit(&self, src: &str) -> (r: (Range<usize>, String))
        ensures
            r.0.start == src.spec_bytes().len() as usize,
            r.0.end == src.spec_bytes().len() as usize,
            self.produces(r.1@),
    {
        (src.len()..src.len(), self.gen.strategy.generate())
    }
}

} // verus!
