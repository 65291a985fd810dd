//! Interaction with the console the app is running in.
//!
//! Outside Windows the console needs no preparation and no format is
//! applied, so both operations leave everything as it is.

use vstd::prelude::*;
use crate::format::Fmt;

verus! {

/// Prepares the console for formatted output.
pub fn init_console() {
}

/// Switches the console to the given format.
pub fn set_console_format(fmt: &Fmt) {
}

} // verus!
