//! Shell surfaces: what a bar, a dock, a launcher or a wallpaper needs that
//! an ordinary window does not.
//!
//! A shell surface names its own layer, sticks to the edges of its output,
//! and reserves screen space that the rest of the desktop may not use. It is
//! described before the window exists, so that all of it rides the commit
//! that creates the window.

use vstd::prelude::*;

pub mod anchor;
pub mod window_flags;

verus! {

/// Which stack a window is in, from back to front.
#[derive(Debug, Clone, Copy, PartialEq, Eq, Structural)]
pub enum Layer {
    /// Behind everything: a wallpaper.
    Background,
    /// Where application windows are.
    Normal,
    /// Above them: a bar or a dock.
    Top,
    /// Above everything: a launcher.
    Overlay,
}

/// An edge of an output.
#[derive(Debug, Clone, Copy, PartialEq, Eq, Structural)]
pub enum Edge {
    /// The top.
    Top,
    /// The bottom.
    Bottom,
    /// The left side.
    Left,
    /// The right side.
    Right,
}

/// Which edges a surface sticks to, and how far from them.
///
/// Opposite edges together span that axis; neither edge on an axis centres
/// on it.
#[derive(Debug, Clone, Copy, PartialEq, Eq, Structural)]
pub struct Anchor {
    /// The edges, as bits of [`anchor`].
    pub edges: u8,
    /// The gap on each anchored edge, in logical pixels.
    pub margin: u32,
}

impl Anchor {
    /// Span the top edge: a bar.
    pub fn top() -> (a: Anchor)
        ensures
            a == (Anchor { edges: anchor::TOP | anchor::LEFT | anchor::RIGHT, margin: 0 }),
    {
        Anchor { edges: anchor::TOP | anchor::LEFT | anchor::RIGHT, margin: 0 }
    }

    /// Span the bottom edge: a dock.
    pub fn bottom() -> (a: Anchor)
        ensures
            a == (Anchor { edges: anchor::BOTTOM | anchor::LEFT | anchor::RIGHT, margin: 0 }),
    {
        Anchor { edges: anchor::BOTTOM | anchor::LEFT | anchor::RIGHT, margin: 0 }
    }

    /// Cover the whole output: a wallpaper.
    pub fn fill() -> (a: Anchor)
        ensures
            a == (Anchor { edges: anchor::ALL, margin: 0 }),
    {
        Anchor { edges: anchor::ALL, margin: 0 }
    }

    /// Centred on both axes: a launcher.
    pub fn centre() -> (a: Anchor)
        ensures
            a == (Anchor { edges: 0, margin: 0 }),
    {
        Anchor { edges: 0, margin: 0 }
    }

    /// The same anchor with another gap on each anchored edge.
    pub fn margin(self, px: u32) -> (a: Anchor)
        ensures
            a == (Anchor { margin: px, ..self }),
    {
        Anchor { edges: self.edges, margin: px }
    }
}

/// The window that a bar, dock, launcher or wallpaper opens.
#[derive(Debug, Clone, Copy, PartialEq, Eq)]
pub struct Surface {
    /// Which layer the window lives on.
    pub layer: Layer,
    /// What it asks of its manager, as bits of [`window_flags`].
    pub flags: u32,
    /// Where it sticks, if anywhere.
    pub anchor: Option<Anchor>,
    /// The screen space it reserves: the edge and how many logical pixels.
    pub zone: Option<(Edge, u32)>,
}

/// What every panel asks for: no decoration, and never the focus.
pub open spec fn panel_flags() -> u32 {
    window_flags::UNDECORATED | window_flags::NO_FOCUS
}

impl Surface {
    /// A bar: on top, never focused, spanning the top edge and reserving
    /// its height there.
    pub fn bar(height: u32) -> (s: Surface)
        ensures
            s.layer == Layer::Top,
            s.flags == panel_flags(),
            s.anchor == Some(
                Anchor { edges: anchor::TOP | anchor::LEFT | anchor::RIGHT, margin: 0 },
            ),
            s.zone == Some((Edge::Top, height)),
    {
        Surface {
            layer: Layer::Top,
            flags: window_flags::UNDECORATED | window_flags::NO_FOCUS,
            anchor: Some(Anchor::top()),
            zone: Some((Edge::Top, height)),
        }
    }

    /// A dock: like a bar, on the bottom edge.
    pub fn dock(height: u32) -> (s: Surface)
        ensures
            s.layer == Layer::Top,
            s.flags == panel_flags(),
            s.anchor == Some(
                Anchor { edges: anchor::BOTTOM | anchor::LEFT | anchor::RIGHT, margin: 0 },
            ),
            s.zone == Some((Edge::Bottom, height)),
    {
        Surface {
            layer: Layer::Top,
            flags: window_flags::UNDECORATED | window_flags::NO_FOCUS,
            anchor: Some(Anchor::bottom()),
            zone: Some((Edge::Bottom, height)),
        }
    }

    /// A launcher: above everything, never focused, centred, reserving
    /// nothing.
    pub fn overlay() -> (s: Surface)
        ensures
            s.layer == Layer::Overlay,
            s.flags == panel_flags(),
            s.anchor == Some(Anchor { edges: 0, margin: 0 }),
            s.zone is None,
    {
        Surface {
            layer: Layer::Overlay,
            flags: window_flags::UNDECORATED | window_flags::NO_FOCUS,
            anchor: Some(Anchor::centre()),
            zone: None,
        }
    }

    /// A wallpaper: behind everything, covering the output, reserving
    /// nothing.
    pub fn wallpaper() -> (s: Surface)
        ensures
            s.layer == Layer::Background,
            s.flags == panel_flags(),
            s.anchor == Some(Anchor { edges: anchor::ALL, margin: 0 }),
            s.zone is None,
    {
        Surface {
            layer: Layer::Background,
            flags: window_flags::UNDECORATED | window_flags::NO_FOCUS,
            anchor: Some(Anchor::fill()),
            zone: None,
        }
    }

    /// The same surface with another anchor.
    pub fn anchored(self, anchor: Anchor) -> (s: Surface)
        ensures
            s == (Surface { anchor: Some(anchor), ..self }),
    {
        let mut s = self;
        s.anchor = Some(anchor);
        s
    }

    /// The same surface reserving other space.
    pub fn reserving(self, edge: Edge, px: u32) -> (s: Surface)
        ensures
            s == (Surface { zone: Some((edge, px)), ..self }),
    {
        let mut s = self;
        s.zone = Some((edge, px));
        s
    }

    /// The same surface reserving nothing.
    pub fn reserving_nothing(self) -> (s: Surface)
        ensures
            s == (Surface { zone: None, ..self }),
    {
        let mut s = self;
        s.zone = None;
        s
    }

    /// Whether a click may move the keyboard focus inside the window: not
    /// where the window itself never gets it.
    pub fn click_takes_focus(&self) -> (r: bool)
        ensures
            r == (self.flags & window_flags::NO_FOCUS == 0),
    {
        self.flags & window_flags::NO_FOCUS == 0
    }
}

/// A panel never takes the focus, whichever kind it is: glancing at the
/// clock must not deactivate the window behind it.
pub proof fn a_panel_never_takes_focus()
    ensures
        panel_flags() & window_flags::NO_FOCUS == window_flags::NO_FOCUS,
        panel_flags() & window_flags::UNDECORATED == window_flags::UNDECORATED,
        panel_flags() & window_flags::NO_FOCUS != 0,
{
    assert((1u32 | 2u32) & 2u32 == 2u32 && (1u32 | 2u32) & 1u32 == 1u32) by (bit_vector);
}

} // verus!
