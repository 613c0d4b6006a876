//! Evdev keycodes the toolkit itself acts on.

use vstd::prelude::*;

verus! {

/// `Enter`/`Return`.
pub const ENTER: u32 = 28;

/// `Space`.
pub const SPACE: u32 = 57;

/// `Tab`.
pub const TAB: u32 = 15;

/// `Escape`.
pub const ESC: u32 = 1;

/// Left shift.
pub const LEFT_SHIFT: u32 = 42;

/// Right shift.
pub const RIGHT_SHIFT: u32 = 54;

/// Left control.
pub const LEFT_CTRL: u32 = 29;

/// `Backspace`.
pub const BACKSPACE: u32 = 14;

/// `Delete`.
pub const DELETE: u32 = 111;

/// Left arrow.
pub const LEFT: u32 = 105;

/// Right arrow.
pub const RIGHT: u32 = 106;

/// Up arrow.
pub const UP: u32 = 103;

/// Down arrow.
pub const DOWN: u32 = 108;

/// `Home`.
pub const HOME: u32 = 102;

/// `End`.
pub const END: u32 = 107;

/// `Page Up`.
pub const PAGE_UP: u32 = 104;

/// `Page Down`.
pub const PAGE_DOWN: u32 = 109;

/// The letter `a`, for `Ctrl-A`.
pub const A: u32 = 30;

/// The letter `q`, for `Ctrl-Q`.
pub const Q: u32 = 16;

} // verus!
