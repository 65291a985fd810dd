//! Position representation in a file.

use vstd::prelude::*;

verus! {

#[derive(Debug, Clone, Copy, PartialEq, Eq, Hash)]
pub struct Position {
    pub column: usize,
    pub line: usize,
}

impl Position {
    /// The first column of the first line.
    pub fn new() -> (r: Position)
        ensures
            r.column == 0,
            r.line == 0,
    {
        Position { column: 0, line: 0 }
    }

    /// Moves to the first column of the next line.
    pub fn newline(&mut self)
        requires
            old(self).line < usize::MAX,
        ensures
            final(self).column == 0,
            final(self).line == old(self).line + 1,
    {
        self.column = 0;
        self.line += 1;
    }

    /// Moves `count` columns to the right.
    pub fn advance_columns(&mut self, count: usize)
        requires
            old(self).column + count <= usize::MAX,
        ensures
            final(self).column == old(self).column + count,
            final(self).line == old(self).line,
    {
        self.column += count;
    }
}

} // verus!
