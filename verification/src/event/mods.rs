//! Bits of an xkb modifier mask.

use vstd::prelude::*;

verus! {

/// No modifier at all.
pub const NONE: u32 = 0;

/// `Shift`.
pub const SHIFT: u32 = 1;

/// `Control`.
pub const CTRL: u32 = 4;

/// `Alt`, which is `Mod1`.
pub const ALT: u32 = 8;

/// `Super`, which is `Mod4`.
pub const SUPER: u32 = 64;

/// The bits a shortcut is compared on. `Lock`, `NumLock` and the layout's
/// group are outside it, so Caps Lock does not disable a shortcut.
pub const MASK: u32 = 77;

} // verus!
