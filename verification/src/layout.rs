//! The axes and the alignments of a flex container.
//!
//! A container lays its children out along one axis. What is here is what
//! does not depend on how lengths are added and divided: which component is
//! on which axis, and where the room that is left over goes. `M` is what
//! lengths are measured in.

use vstd::prelude::*;

verus! {

/// A size.
#[derive(Debug, Clone, Copy)]
pub struct Size<M> {
    /// Width.
    pub w: M,
    /// Height.
    pub h: M,
}

/// A rectangle.
#[derive(Debug, Clone, Copy)]
pub struct Rect<M> {
    /// Left edge.
    pub x: M,
    /// Top edge.
    pub y: M,
    /// Width.
    pub w: M,
    /// Height.
    pub h: M,
}

/// Which axis children are laid out along.
#[derive(Debug, Clone, Copy, PartialEq, Eq, Structural)]
pub enum Direction {
    /// Left to right.
    Row,
    /// Top to bottom.
    Column,
}

impl Default for Direction {
    fn default() -> (d: Direction)
        ensures
            d == Direction::Column,
    {
        Direction::Column
    }
}

impl Direction {
    /// The component of a size along the axis.
    pub open spec fn along<M>(self, s: Size<M>) -> M {
        match self {
            Direction::Row => s.w,
            Direction::Column => s.h,
        }
    }

    /// The component of a size across the axis.
    pub open spec fn across<M>(self, s: Size<M>) -> M {
        match self {
            Direction::Row => s.h,
            Direction::Column => s.w,
        }
    }

    /// The main-axis component of a size.
    pub fn main<M: Copy>(self, s: Size<M>) -> (m: M)
        ensures
            m == self.along(s),
    {
        match self {
            Direction::Row => s.w,
            Direction::Column => s.h,
        }
    }

    /// The cross-axis component of a size.
    pub fn cross<M: Copy>(self, s: Size<M>) -> (m: M)
        ensures
            m == self.across(s),
    {
        match self {
            Direction::Row => s.h,
            Direction::Column => s.w,
        }
    }

    /// The size with these components.
    pub fn size<M: Copy>(self, main: M, cross: M) -> (s: Size<M>)
        ensures
            self.along(s) == main,
            self.across(s) == cross,
    {
        match self {
            Direction::Row => Size { w: main, h: cross },
            Direction::Column => Size { w: cross, h: main },
        }
    }

    /// The rectangle at these positions with these sizes.
    pub fn rect<M: Copy>(self, main: M, cross: M, main_size: M, cross_size: M) -> (r: Rect<M>)
        ensures
            self.along(Size { w: r.x, h: r.y }) == main,
            self.across(Size { w: r.x, h: r.y }) == cross,
            self.along(Size { w: r.w, h: r.h }) == main_size,
            self.across(Size { w: r.w, h: r.h }) == cross_size,
    {
        match self {
            Direction::Row => Rect { x: main, y: cross, w: main_size, h: cross_size },
            Direction::Column => Rect { x: cross, y: main, w: cross_size, h: main_size },
        }
    }
}

/// The two components of a size along and across an axis are that size, and
/// a row's are a column's the other way round.
pub proof fn axes_swap<M>(d: Direction, a: Size<M>, b: Size<M>)
    ensures
        d.along(a) == d.along(b) && d.across(a) == d.across(b) ==> a == b,
        Direction::Row.along(a) == Direction::Column.across(a),
        Direction::Row.across(a) == Direction::Column.along(a),
{
}

/// How much of the room that is left over goes somewhere.
#[derive(Debug, Clone, Copy, PartialEq, Eq, Structural)]
pub enum Share {
    /// None of it.
    Nothing,
    /// Half of it.
    Half,
    /// All of it.
    All,
}

/// How leftover main-axis room is distributed between children.
#[derive(Debug, Clone, Copy, PartialEq, Eq, Structural)]
pub enum MainAlign {
    /// Pack at the start.
    Start,
    /// Pack in the middle.
    Center,
    /// Pack at the end.
    End,
    /// First child at the start, last at the end, the rest evenly spread.
    SpaceBetween,
}

impl Default for MainAlign {
    fn default() -> (a: MainAlign)
        ensures
            a == MainAlign::Start,
    {
        MainAlign::Start
    }
}

impl MainAlign {
    /// How much of the room goes before the first child.
    pub fn before(self) -> (s: Share)
        ensures
            s == (match self {
                MainAlign::Center => Share::Half,
                MainAlign::End => Share::All,
                _ => Share::Nothing,
            }),
    {
        match self {
            MainAlign::Center => Share::Half,
            MainAlign::End => Share::All,
            MainAlign::Start | MainAlign::SpaceBetween => Share::Nothing,
        }
    }

    /// Over how many gaps the room is spread, if it is. One child has no
    /// gaps, so there it is packed at the start.
    pub fn gaps(self, children: usize) -> (n: Option<usize>)
        ensures
            n == (if self == MainAlign::SpaceBetween && children > 1 {
                Some((children - 1) as usize)
            } else {
                None
            }),
    {
        match self {
            MainAlign::SpaceBetween if children > 1 => Some(children - 1),
            _ => None,
        }
    }
}

/// How a child is placed and sized on the cross axis.
#[derive(Debug, Clone, Copy, PartialEq, Eq, Structural)]
pub enum CrossAlign {
    /// Align to the start edge, at the child's own cross size.
    Start,
    /// Centre, at the child's own cross size.
    Center,
    /// Align to the end edge, at the child's own cross size.
    End,
    /// Fill the container's cross extent.
    Stretch,
}

impl Default for CrossAlign {
    fn default() -> (a: CrossAlign)
        ensures
            a == CrossAlign::Start,
    {
        CrossAlign::Start
    }
}

impl CrossAlign {
    /// Whether a child takes the whole cross extent.
    pub fn fills(self) -> (r: bool)
        ensures
            r == (self == CrossAlign::Stretch),
    {
        match self {
            CrossAlign::Stretch => true,
            _ => false,
        }
    }

    /// How much of the room goes before the child.
    pub fn before(self) -> (s: Share)
        ensures
            s == (match self {
                CrossAlign::Center => Share::Half,
                CrossAlign::End => Share::All,
                _ => Share::Nothing,
            }),
    {
        match self {
            CrossAlign::Center => Share::Half,
            CrossAlign::End => Share::All,
            CrossAlign::Start | CrossAlign::Stretch => Share::Nothing,
        }
    }
}

/// How small a child may be laid out along the main axis.
#[derive(Debug, Clone, Copy, PartialEq, Eq, Structural)]
pub enum ShrinkFloor {
    /// Never smaller than the measured size.
    Content,
    /// May be shrunk to nothing; only an explicit minimum holds it up.
    Zero,
}

impl Default for ShrinkFloor {
    fn default() -> (f: ShrinkFloor)
        ensures
            f == ShrinkFloor::Content,
    {
        ShrinkFloor::Content
    }
}

/// Lengths on the four sides of something.
#[derive(Debug, Clone, Copy)]
pub struct Edges<M> {
    /// On the left.
    pub left: M,
    /// At the top.
    pub top: M,
    /// On the right.
    pub right: M,
    /// At the bottom.
    pub bottom: M,
}

impl<M: Copy> Edges<M> {
    /// The same length on all sides.
    pub fn all(v: M) -> (e: Edges<M>)
        ensures
            e == (Edges { left: v, top: v, right: v, bottom: v }),
    {
        Edges { left: v, top: v, right: v, bottom: v }
    }

    /// One length on the left and right, one at the top and bottom.
    pub fn symmetric(h: M, v: M) -> (e: Edges<M>)
        ensures
            e == (Edges { left: h, top: v, right: h, bottom: v }),
    {
        Edges { left: h, top: v, right: h, bottom: v }
    }

    /// The lengths at the two ends of the axis, the start first.
    pub fn main_ends(&self, dir: Direction) -> (r: (M, M))
        ensures
            r == (match dir {
                Direction::Row => (self.left, self.right),
                Direction::Column => (self.top, self.bottom),
            }),
    {
        match dir {
            Direction::Row => (self.left, self.right),
            Direction::Column => (self.top, self.bottom),
        }
    }

    /// The lengths on the two sides of the axis, the start first.
    pub fn cross_ends(&self, dir: Direction) -> (r: (M, M))
        ensures
            r == (match dir {
                Direction::Row => (self.top, self.bottom),
                Direction::Column => (self.left, self.right),
            }),
    {
        match dir {
            Direction::Row => (self.top, self.bottom),
            Direction::Column => (self.left, self.right),
        }
    }

    /// The length at the start of the axis.
    pub fn main_start(&self, dir: Direction) -> (m: M)
        ensures
            m == (match dir {
                Direction::Row => self.left,
                Direction::Column => self.top,
            }),
    {
        self.main_ends(dir).0
    }

    /// The length at the start of the cross axis.
    pub fn cross_start(&self, dir: Direction) -> (m: M)
        ensures
            m == (match dir {
                Direction::Row => self.top,
                Direction::Column => self.left,
            }),
    {
        self.cross_ends(dir).0
    }
}

} // verus!
