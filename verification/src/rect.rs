//! Axis-aligned rectangles used as room footprints by the level generator.

use vstd::prelude::*;

verus! {

/// A rectangular room footprint.
///
/// The boundary-inclusive rectangle spans `x1..=x2` by `y1..=y2`; the
/// carved interior of a room excludes the lowest row and column, i.e. it is
/// `x1+1..=x2` by `y1+1..=y2`, so the rectangle itself acts as the interior
/// padded by one tile on the low sides.
#[derive(Clone, Copy, PartialEq, Eq, Structural, Debug)]
pub struct Rect {
    pub x1: i32,
    pub y1: i32,
    pub x2: i32,
    pub y2: i32,
}

impl Rect {
    /// True when the two boundary-inclusive rectangles share at least one tile.
    pub open spec fn spec_intersect(self, other: Rect) -> bool {
        self.x1 <= other.x2 && self.x2 >= other.x1 && self.y1 <= other.y2 && self.y2 >= other.y1
    }

    /// A coordinate lies in the carved interior of the room.
    pub open spec fn in_interior(self, x: int, y: int) -> bool {
        self.x1 + 1 <= x <= self.x2 && self.y1 + 1 <= y <= self.y2
    }

    /// The integer midpoint of the rectangle.
    pub open spec fn spec_center(self) -> (int, int) {
        ((self.x1 + self.x2) / 2, (self.y1 + self.y2) / 2)
    }

    /// Build the rectangle with corner `(x, y)` and extent `w` by `h`.
    pub fn new(x: i32, y: i32, w: i32, h: i32) -> (r: Rect)
        requires
            i32::MIN <= x + w <= i32::MAX,
            i32::MIN <= y + h <= i32::MAX,
        ensures
            r == (Rect { x1: x, y1: y, x2: (x + w) as i32, y2: (y + h) as i32 }),
    {
        Rect { x1: x, y1: y, x2: x + w, y2: y + h }
    }

    /// Decide whether the two boundary-inclusive rectangles overlap.
    pub fn intersect(&self, other: &Rect) -> (r: bool)
        ensures
            r == self.spec_intersect(*other),
    {
        self.x1 <= other.x2 && self.x2 >= other.x1 && self.y1 <= other.y2 && self.y2 >= other.y1
    }

    /// The integer midpoint of the rectangle.
    pub fn center(&self) -> (c: (i32, i32))
        requires
            0 <= self.x1 + self.x2 <= i32::MAX,
            0 <= self.y1 + self.y2 <= i32::MAX,
        ensures
            (c.0 as int, c.1 as int) == self.spec_center(),
    {
        ((self.x1 + self.x2) / 2, (self.y1 + self.y2) / 2)
    }
}

/// Rooms whose boundary rectangles do not overlap have disjoint carved
/// interiors: no tile lies inside both rooms.
pub proof fn lemma_disjoint_rects_disjoint_interiors(a: Rect, b: Rect, x: int, y: int)
    requires
        !a.spec_intersect(b),
    ensures
        !(a.in_interior(x, y) && b.in_interior(x, y)),
{
}

} // verus!
