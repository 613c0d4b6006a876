//! What still has to be done for a widget, as a set of flags.

use vstd::prelude::*;

verus! {

/// What still has to be done for a widget.
///
/// Three flags say the widget itself needs a pass; the three `sub_*` flags
/// say a *descendant* does, and are what lets a pass skip a clean subtree
/// without walking it. Marking a widget lights its own flag and then the
/// matching `sub_` flag on every ancestor, stopping as soon as one already
/// carries all of them.
#[derive(Debug, Clone, Copy, PartialEq, Eq, Structural)]
pub struct Dirty {
    /// The widget must be measured and laid out again.
    pub layout: bool,
    /// The widget must emit its scene mutations again.
    pub paint: bool,
    /// The widget's children changed: groups to create, reparent or drop.
    pub tree: bool,
    /// A descendant must be laid out again.
    pub sub_layout: bool,
    /// A descendant must be painted again.
    pub sub_paint: bool,
    /// A descendant's children changed.
    pub sub_tree: bool,
}

impl Dirty {
    /// No flag at all, in contracts.
    pub open spec fn clean() -> Dirty {
        Dirty {
            layout: false,
            paint: false,
            tree: false,
            sub_layout: false,
            sub_paint: false,
            sub_tree: false,
        }
    }

    /// The flags set here or in `other`, in contracts.
    pub open spec fn with(self, other: Dirty) -> Dirty {
        Dirty {
            layout: self.layout || other.layout,
            paint: self.paint || other.paint,
            tree: self.tree || other.tree,
            sub_layout: self.sub_layout || other.sub_layout,
            sub_paint: self.sub_paint || other.sub_paint,
            sub_tree: self.sub_tree || other.sub_tree,
        }
    }

    /// The flags set here and not in `other`, in contracts.
    pub open spec fn without(self, other: Dirty) -> Dirty {
        Dirty {
            layout: self.layout && !other.layout,
            paint: self.paint && !other.paint,
            tree: self.tree && !other.tree,
            sub_layout: self.sub_layout && !other.sub_layout,
            sub_paint: self.sub_paint && !other.sub_paint,
            sub_tree: self.sub_tree && !other.sub_tree,
        }
    }

    /// The flags an ancestor carries for these, in contracts.
    pub open spec fn trail(self) -> Dirty {
        Dirty {
            layout: false,
            paint: false,
            tree: false,
            sub_layout: self.layout,
            sub_paint: self.paint,
            sub_tree: self.tree,
        }
    }

    /// Nothing to do.
    pub fn none() -> (d: Dirty)
        ensures
            d == Dirty::clean(),
    {
        Dirty {
            layout: false,
            paint: false,
            tree: false,
            sub_layout: false,
            sub_paint: false,
            sub_tree: false,
        }
    }

    /// The widget must be measured and laid out again.
    pub fn layout() -> (d: Dirty)
        ensures
            d == (Dirty { layout: true, ..Dirty::clean() }),
    {
        Dirty { layout: true, ..Dirty::none() }
    }

    /// The widget must emit its scene mutations again.
    pub fn paint() -> (d: Dirty)
        ensures
            d == (Dirty { paint: true, ..Dirty::clean() }),
    {
        Dirty { paint: true, ..Dirty::none() }
    }

    /// The widget's children changed.
    pub fn tree() -> (d: Dirty)
        ensures
            d == (Dirty { tree: true, ..Dirty::clean() }),
    {
        Dirty { tree: true, ..Dirty::none() }
    }

    /// A descendant must be laid out again.
    pub fn sub_layout() -> (d: Dirty)
        ensures
            d == (Dirty { sub_layout: true, ..Dirty::clean() }),
    {
        Dirty { sub_layout: true, ..Dirty::none() }
    }

    /// A descendant must be painted again.
    pub fn sub_paint() -> (d: Dirty)
        ensures
            d == (Dirty { sub_paint: true, ..Dirty::clean() }),
    {
        Dirty { sub_paint: true, ..Dirty::none() }
    }

    /// A descendant's children changed.
    pub fn sub_tree() -> (d: Dirty)
        ensures
            d == (Dirty { sub_tree: true, ..Dirty::clean() }),
    {
        Dirty { sub_tree: true, ..Dirty::none() }
    }

    /// The `sub_` flags matching the own-widget flags.
    ///
    /// Only the three own-widget flags have a `sub_` counterpart: the
    /// result of a `sub_` flag alone is nothing at all.
    pub fn to_sub(self) -> (d: Dirty)
        ensures
            d == self.trail(),
    {
        Dirty {
            layout: false,
            paint: false,
            tree: false,
            sub_layout: self.layout,
            sub_paint: self.paint,
            sub_tree: self.tree,
        }
    }

    /// Whether some flag is set both here and in `other`, in contracts.
    pub open spec fn meets(self, other: Dirty) -> bool {
        ||| self.layout && other.layout
        ||| self.paint && other.paint
        ||| self.tree && other.tree
        ||| self.sub_layout && other.sub_layout
        ||| self.sub_paint && other.sub_paint
        ||| self.sub_tree && other.sub_tree
    }

    /// Whether every flag of `other` is set here, in contracts.
    pub open spec fn covers(self, other: Dirty) -> bool {
        &&& other.layout ==> self.layout
        &&& other.paint ==> self.paint
        &&& other.tree ==> self.tree
        &&& other.sub_layout ==> self.sub_layout
        &&& other.sub_paint ==> self.sub_paint
        &&& other.sub_tree ==> self.sub_tree
    }

    /// Whether **any** of `other`'s flags are set.
    ///
    /// The passes want this one: "is there anything to paint in here?" is
    /// a yes for the widget's own flag and for a descendant's.
    pub fn has(self, other: Dirty) -> (r: bool)
        ensures
            r == self.meets(other),
    {
        (self.layout && other.layout) || (self.paint && other.paint) || (self.tree && other.tree)
            || (self.sub_layout && other.sub_layout) || (self.sub_paint && other.sub_paint) || (
        self.sub_tree && other.sub_tree)
    }

    /// Whether **every** one of `other`'s flags is set.
    ///
    /// The early stop of a mark wants this one: stopping at the first
    /// ancestor that already carries only *one* of two flags would leave
    /// the other unset all the way to the root.
    pub fn has_all(self, other: Dirty) -> (r: bool)
        ensures
            r == self.covers(other),
    {
        (!other.layout || self.layout) && (!other.paint || self.paint) && (!other.tree || self.tree)
            && (!other.sub_layout || self.sub_layout) && (!other.sub_paint || self.sub_paint) && (
        !other.sub_tree || self.sub_tree)
    }

    /// Whether nothing is set.
    pub fn is_clean(self) -> (r: bool)
        ensures
            r == (self == Dirty::clean()),
    {
        !self.layout && !self.paint && !self.tree && !self.sub_layout && !self.sub_paint
            && !self.sub_tree
    }

    /// Set `other`'s flags.
    pub fn insert(&mut self, other: Dirty)
        ensures
            *final(self) == old(self).with(other),
    {
        self.layout = self.layout || other.layout;
        self.paint = self.paint || other.paint;
        self.tree = self.tree || other.tree;
        self.sub_layout = self.sub_layout || other.sub_layout;
        self.sub_paint = self.sub_paint || other.sub_paint;
        self.sub_tree = self.sub_tree || other.sub_tree;
    }

    /// Clear `other`'s flags.
    pub fn remove(&mut self, other: Dirty)
        ensures
            *final(self) == old(self).without(other),
    {
        self.layout = self.layout && !other.layout;
        self.paint = self.paint && !other.paint;
        self.tree = self.tree && !other.tree;
        self.sub_layout = self.sub_layout && !other.sub_layout;
        self.sub_paint = self.sub_paint && !other.sub_paint;
        self.sub_tree = self.sub_tree && !other.sub_tree;
    }
}

impl core::ops::BitOr for Dirty {
    type Output = Dirty;

    fn bitor(self, rhs: Dirty) -> (r: Dirty) {
        let mut out = self;
        out.insert(rhs);
        out
    }
}

impl vstd::std_specs::ops::BitOrSpecImpl for Dirty {
    open spec fn obeys_bitor_spec() -> bool {
        true
    }

    open spec fn bitor_req(self, rhs: Dirty) -> bool {
        true
    }

    open spec fn bitor_spec(self, rhs: Dirty) -> Dirty {
        self.with(rhs)
    }
}

} // verus!
