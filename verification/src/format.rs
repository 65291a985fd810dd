//! Structures related to formatting (color, style, ...).

use vstd::prelude::*;

verus! {

pub struct Fmt {
    pub fg: Fg,
    pub bg: Bg,
}

#[derive(Debug, Clone, Copy, PartialEq, Eq)]
pub enum Col {
    White,
    Red,
    Green,
    Blue,
}

pub struct Fg(pub Col);

pub struct Bg(pub Col);

} // verus!
