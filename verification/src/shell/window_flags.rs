//! What a window asks of its manager, as bits.

use vstd::prelude::*;

verus! {

/// No title bar and no border.
pub const UNDECORATED: u32 = 1;

/// Never the focused window.
pub const NO_FOCUS: u32 = 2;

} // verus!
