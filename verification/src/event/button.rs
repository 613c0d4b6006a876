//! Which pointer button; evdev codes, as the wire reports them.

use vstd::prelude::*;

verus! {

/// Left mouse button.
pub const LEFT: u32 = 0x110;

/// Right mouse button.
pub const RIGHT: u32 = 0x111;

/// Middle mouse button.
pub const MIDDLE: u32 = 0x112;

} // verus!
