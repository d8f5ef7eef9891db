//! Value types for grid addresses, world positions, and the axis-aligned
//! collision rectangles used for worker footprints and wall cells.

use vstd::prelude::*;
use crate::conf::RECT_BOUND;

verus! {

/// An integer `(x, y)` address into the tile grid.
#[derive(Clone, Copy, PartialEq, Eq, Structural, Debug)]
pub struct GridCell {
    pub x: u32,
    pub y: u32,
}

/// Builds a [`GridCell`] from its coordinates.
pub fn uvec2(x: u32, y: u32) -> (r: GridCell)
    ensures
        r == (GridCell { x, y }),
{
    GridCell { x, y }
}

/// A world-space position in integer world units (pixels).
#[derive(Clone, Copy, PartialEq, Eq, Structural, Debug)]
pub struct WorldPos {
    pub x: i64,
    pub y: i64,
}

/// Builds a [`WorldPos`] from its coordinates.
pub fn vec2(x: i64, y: i64) -> (r: WorldPos)
    ensures
        r == (WorldPos { x, y }),
{
    WorldPos { x, y }
}

/// Wrapper for a rectangle, used for collision detection: `(x, y)` is the
/// top-left corner.
#[derive(Clone, Copy, PartialEq, Eq, Structural, Debug)]
pub struct CollisionRect {
    /// The x coordinate of the top left corner of the rectangle.
    pub x: i64,
    /// The y coordinate of the top left corner of the rectangle.
    pub y: i64,
    /// The width of the rectangle.
    pub width: i64,
    /// The height of the rectangle.
    pub height: i64,
}

/// Two boxes, given as top-left corner and size, overlap with positive
/// area on both axes.
pub open spec fn boxes_touch(
    ax: int,
    ay: int,
    aw: int,
    ah: int,
    bx: int,
    by: int,
    bw: int,
    bh: int,
) -> bool {
    &&& ax < bx + bw
    &&& ax + aw > bx
    &&& ay < by + bh
    &&& ay + ah > by
}

/// Two rectangles touch when they overlap with positive area on both axes.
pub open spec fn rects_touch(a: CollisionRect, b: CollisionRect) -> bool {
    boxes_touch(
        a.x as int,
        a.y as int,
        a.width as int,
        a.height as int,
        b.x as int,
        b.y as int,
        b.width as int,
        b.height as int,
    )
}

/// A rectangle touches a point when the point lies strictly inside it.
pub open spec fn rect_touches_point(a: CollisionRect, p: WorldPos) -> bool {
    &&& a.x < p.x
    &&& a.x + a.width > p.x
    &&& a.y < p.y
    &&& a.y + a.height > p.y
}

impl CollisionRect {
    /// Coordinates and sides small enough that every edge and centre
    /// computation below is exact.
    pub open spec fn bounded(self) -> bool {
        &&& -RECT_BOUND <= self.x <= RECT_BOUND
        &&& -RECT_BOUND <= self.y <= RECT_BOUND
        &&& 0 <= self.width <= RECT_BOUND
        &&& 0 <= self.height <= RECT_BOUND
    }

    /// The x coordinate of the centre of the rectangle (integer truncation
    /// of the midpoint).
    pub open spec fn center_x(self) -> int {
        self.x + self.width / 2
    }

    /// The y coordinate of the centre of the rectangle.
    pub open spec fn center_y(self) -> int {
        self.y + self.height / 2
    }

    /// Creates a new rectangle with the given top left corner and size.
    pub fn new(x: i64, y: i64, width: i64, height: i64) -> (r: CollisionRect)
        ensures
            r == (CollisionRect { x, y, width, height }),
    {
        CollisionRect { x, y, width, height }
    }

    /// Creates a new rectangle with the given top left corner and size.
    pub fn new_vec2(top_left: WorldPos, width: i64, height: i64) -> (r: CollisionRect)
        ensures
            r == (CollisionRect { x: top_left.x, y: top_left.y, width, height }),
    {
        CollisionRect { x: top_left.x, y: top_left.y, width, height }
    }

    /// Sees if `self` touches `other`.
    pub fn touches_rect(&self, other: &CollisionRect) -> (r: bool)
        requires
            self.bounded(),
            other.bounded(),
        ensures
            r == rects_touch(*self, *other),
    {
        self.x < other.x + other.width && self.x + self.width > other.x && self.y < other.y
            + other.height && self.y + self.height > other.y
    }

    /// Sees if `self` touches `point`.
    pub fn touches_point(&self, point: &WorldPos) -> (r: bool)
        requires
            self.bounded(),
            -RECT_BOUND <= point.x <= RECT_BOUND,
            -RECT_BOUND <= point.y <= RECT_BOUND,
        ensures
            r == rect_touches_point(*self, *point),
    {
        self.x < point.x && self.x + self.width > point.x && self.y < point.y && self.y
            + self.height > point.y
    }

    /// Returns the left side of the rectangle.
    pub fn left(&self) -> (r: i64)
        ensures
            r == self.x,
    {
        self.x
    }

    /// Returns the right side of the rectangle.
    pub fn right(&self) -> (r: i64)
        requires
            self.bounded(),
        ensures
            r == self.x + self.width,
    {
        self.x + self.width
    }

    /// Returns the top side of the rectangle.
    pub fn top(&self) -> (r: i64)
        ensures
            r == self.y,
    {
        self.y
    }

    /// Returns the bottom side of the rectangle.
    pub fn bottom(&self) -> (r: i64)
        requires
            self.bounded(),
        ensures
            r == self.y + self.height,
    {
        self.y + self.height
    }

    /// Returns the centre of the rectangle.
    pub fn center(&self) -> (r: WorldPos)
        requires
            self.bounded(),
        ensures
            r.x == self.center_x(),
            r.y == self.center_y(),
    {
        WorldPos { x: self.x + self.width / 2, y: self.y + self.height / 2 }
    }

    /// Returns the top left corner of the rectangle.
    pub fn top_left(&self) -> (r: WorldPos)
        ensures
            r == (WorldPos { x: self.x, y: self.y }),
    {
        WorldPos { x: self.x, y: self.y }
    }

    /// Sets the top left corner of the rectangle.
    pub fn set_top_left(&mut self, top_left: WorldPos)
        ensures
            *final(self) == (CollisionRect {
                x: top_left.x,
                y: top_left.y,
                ..*old(self)
            }),
    {
        self.x = top_left.x;
        self.y = top_left.y;
    }

    /// Sets the centre of the rectangle.
    pub fn set_center(&mut self, center: WorldPos)
        requires
            old(self).bounded(),
            -RECT_BOUND <= center.x <= RECT_BOUND,
            -RECT_BOUND <= center.y <= RECT_BOUND,
        ensures
            final(self).x == center.x - old(self).width / 2,
            final(self).y == center.y - old(self).height / 2,
            final(self).width == old(self).width,
            final(self).height == old(self).height,
    {
        self.x = center.x - self.width / 2;
        self.y = center.y - self.height / 2;
    }
}

} // verus!
