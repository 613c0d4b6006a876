//! The edges that a surface sticks to, as bits.

use vstd::prelude::*;

verus! {

/// The top edge.
pub const TOP: u8 = 1;

/// The bottom edge.
pub const BOTTOM: u8 = 2;

/// The left edge.
pub const LEFT: u8 = 4;

/// The right edge.
pub const RIGHT: u8 = 8;

/// All four.
pub const ALL: u8 = 15;

} // verus!
