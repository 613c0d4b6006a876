//! Input events, as a widget sees them.

pub mod button;
pub mod key;
pub mod mods;

use vstd::prelude::*;

verus! {

/// Whether a widget consumed an event.
///
/// Pointer events are offered to the deepest widget under the pointer
/// first and bubble up to the root until one answers [`Handled::Yes`]; key
/// events start at the focused widget and bubble the same way.
#[derive(Debug, Clone, Copy, PartialEq, Eq, Structural)]
pub enum Handled {
    /// Stop here.
    Yes,
    /// Offer the event to the parent.
    No,
}

impl Handled {
    /// Whether this is [`Handled::Yes`].
    pub fn is_handled(self) -> (r: bool)
        ensures
            r == (self is Yes),
    {
        self == Handled::Yes
    }
}

impl From<bool> for Handled {
    fn from(v: bool) -> (h: Handled) {
        if v {
            Handled::Yes
        } else {
            Handled::No
        }
    }
}

impl vstd::std_specs::convert::FromSpecImpl<bool> for Handled {
    open spec fn obeys_from_spec() -> bool {
        true
    }

    open spec fn from_spec(v: bool) -> Handled {
        if v {
            Handled::Yes
        } else {
            Handled::No
        }
    }
}

/// One input event.
///
/// Where an event happened is the geometry's business; a widget's own
/// logic only asks whether a release was still inside its box.
#[derive(Debug)]
pub enum Event {
    /// The pointer entered this widget's box.
    PointerEnter,
    /// The pointer left this widget's box.
    PointerLeave,
    /// The pointer moved inside this widget.
    PointerMove,
    /// A pointer button went down over this widget.
    PointerDown {
        /// Evdev button code; see [`button`].
        button: u32,
    },
    /// A pointer button came up.
    PointerUp {
        /// Evdev button code; see [`button`].
        button: u32,
        /// Whether the pointer is inside the widget's box.
        inside: bool,
    },
    /// Scrolling over this widget.
    Scroll,
    /// A key went down while this widget had focus.
    KeyDown(KeyEvent),
    /// A key came up.
    KeyUp(KeyEvent),
    /// Text was typed; one event per key that produced characters.
    Text {
        /// The characters.
        text: String,
    },
    /// This widget gained or lost keyboard focus.
    FocusChanged {
        /// Whether it now has focus.
        focused: bool,
    },
}

/// A key press or release.
#[derive(Debug, Clone)]
pub struct KeyEvent {
    /// Linux evdev keycode; see [`key`].
    pub keycode: u32,
    /// Resolved keysym, or 0 when the server has no keymap.
    pub keysym: u32,
    /// Active xkb modifier mask.
    pub mods: u32,
    /// Text the key produced; empty for non-printing keys.
    pub text: String,
}

impl KeyEvent {
    /// Whether a shift modifier was held: bit 0 of an xkb modifier mask is
    /// `Shift` in every layout.
    pub fn shift(&self) -> (r: bool)
        ensures
            r == (self.mods & 1 != 0),
    {
        self.mods & 1 != 0
    }

    /// Whether a control modifier was held: bit 2 of an xkb modifier mask.
    pub fn ctrl(&self) -> (r: bool)
        ensures
            r == (self.mods & 4 != 0),
    {
        self.mods & 4 != 0
    }

    /// Whether this press is the chord `modifiers` + `keycode`. The
    /// modifiers are compared exactly over [`mods::MASK`].
    pub fn is_chord(&self, modifiers: u32, keycode: u32) -> (r: bool)
        ensures
            r == (self.keycode == keycode && self.mods & mods::MASK == modifiers & mods::MASK),
    {
        self.keycode == keycode && self.mods & mods::MASK == modifiers & mods::MASK
    }
}

} // verus!
