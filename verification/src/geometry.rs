//! Geometry primitives: pixel coordinates and axis-aligned bounding boxes.

use vstd::prelude::*;

verus! {

/// A pixel coordinate.
#[derive(Hash, Eq, PartialEq, Structural, Debug, Copy, Clone)]
pub struct Point {
    pub x: u32,
    pub y: u32,
}

/// An axis-aligned rectangle, given by its top-left and bottom-right corners.
///
/// Components of this crate only produce boxes with
/// `top_left.x <= bottom_right.x` and `top_left.y <= bottom_right.y`
/// (see [`BoundBox::well_formed`]).
#[derive(Hash, Eq, PartialEq, Structural, Debug, Copy, Clone)]
pub struct BoundBox {
    pub top_left: Point,
    pub bottom_right: Point,
}

impl BoundBox {
    /// The box is not inverted: the top-left corner is weakly above and to
    /// the left of the bottom-right corner.
    pub open spec fn well_formed(self) -> bool {
        self.top_left.x <= self.bottom_right.x && self.top_left.y <= self.bottom_right.y
    }

    /// Vertical extent: distance between the two corner rows.
    pub fn height(&self) -> (r: u32)
        requires
            self.top_left.y <= self.bottom_right.y,
        ensures
            r == self.bottom_right.y - self.top_left.y,
    {
        self.bottom_right.y - self.top_left.y
    }

    /// Horizontal extent: distance between the two corner columns.
    pub fn width(&self) -> (r: u32)
        requires
            self.top_left.x <= self.bottom_right.x,
        ensures
            r == self.bottom_right.x - self.top_left.x,
    {
        self.bottom_right.x - self.top_left.x
    }

    /// The center of the box, with integer division rounding the extents down.
    pub fn middle_point(&self) -> (r: Point)
        requires
            self.well_formed(),
        ensures
            r.x == self.bottom_right.x - (self.bottom_right.x - self.top_left.x) / 2,
            r.y == self.bottom_right.y - (self.bottom_right.y - self.top_left.y) / 2,
    {
        let x = self.bottom_right.x - (self.width() / 2);
        let y = self.bottom_right.y - (self.height() / 2);
        Point { x, y }
    }
}

impl From<((u32, u32), (u32, u32))> for BoundBox {
    /// Reads a corner pair `((left, top), (right, bottom))` as a box.
    fn from(value: ((u32, u32), (u32, u32))) -> (r: Self) {
        BoundBox {
            top_left: Point { x: value.0.0, y: value.0.1 },
            bottom_right: Point { x: value.1.0, y: value.1.1 },
        }
    }
}

impl vstd::std_specs::convert::FromSpecImpl<((u32, u32), (u32, u32))> for BoundBox {
    open spec fn obeys_from_spec() -> bool {
        true
    }

    open spec fn from_spec(value: ((u32, u32), (u32, u32))) -> Self {
        BoundBox {
            top_left: Point { x: value.0.0, y: value.0.1 },
            bottom_right: Point { x: value.1.0, y: value.1.1 },
        }
    }
}

impl From<&((u32, u32), (u32, u32))> for BoundBox {
    /// Reads a borrowed corner pair `((left, top), (right, bottom))` as a box.
    fn from(value: &((u32, u32), (u32, u32))) -> (r: Self) {
        BoundBox {
            top_left: Point { x: value.0.0, y: value.0.1 },
            bottom_right: Point { x: value.1.0, y: value.1.1 },
        }
    }
}

impl vstd::std_specs::convert::FromSpecImpl<&((u32, u32), (u32, u32))> for BoundBox {
    open spec fn obeys_from_spec() -> bool {
        true
    }

    open spec fn from_spec(value: &((u32, u32), (u32, u32))) -> Self {
        BoundBox {
            top_left: Point { x: value.0.0, y: value.0.1 },
            bottom_right: Point { x: value.1.0, y: value.1.1 },
        }
    }
}

/// `inner` lies fully within `outer`; containment is boundary-inclusive.
pub open spec fn box_contains(outer: BoundBox, inner: BoundBox) -> bool {
    &&& inner.top_left.x >= outer.top_left.x
    &&& inner.top_left.y >= outer.top_left.y
    &&& inner.bottom_right.x <= outer.bottom_right.x
    &&& inner.bottom_right.y <= outer.bottom_right.y
}

/// Whether `other_bound` lies fully within `row_box` (boundary-inclusive).
pub fn is_inside(row_box: &BoundBox, other_bound: &BoundBox) -> (r: bool)
    ensures
        r == box_contains(*row_box, *other_bound),
{
    other_bound.top_left.x >= row_box.top_left.x
        && other_bound.top_left.y >= row_box.top_left.y
        && other_bound.bottom_right.x <= row_box.bottom_right.x
        && other_bound.bottom_right.y <= row_box.bottom_right.y
}

/// Area of the box as width times height of its extents.
pub fn bounds_size(bounds: &BoundBox) -> (r: u32)
    requires
        bounds.well_formed(),
        (bounds.bottom_right.x - bounds.top_left.x)
            * (bounds.bottom_right.y - bounds.top_left.y) <= u32::MAX,
    ensures
        r == (bounds.bottom_right.x - bounds.top_left.x)
            * (bounds.bottom_right.y - bounds.top_left.y),
{
    (bounds.bottom_right.x - bounds.top_left.x) * (bounds.bottom_right.y - bounds.top_left.y)
}

/// Folds the coordinate `p` into a min/max corner-pair accumulator.
pub fn update_bounds(bounds: &mut ((u32, u32), (u32, u32)), p: (u32, u32))
    ensures
        final (bounds).0.0 == (if p.0 < old(bounds).0.0 { p.0 } else { old(bounds).0.0 }),
        final (bounds).0.1 == (if p.1 < old(bounds).0.1 { p.1 } else { old(bounds).0.1 }),
        final (bounds).1.0 == (if p.0 > old(bounds).1.0 { p.0 } else { old(bounds).1.0 }),
        final (bounds).1.1 == (if p.1 > old(bounds).1.1 { p.1 } else { old(bounds).1.1 }),
{
    if p.0 < bounds.0.0 {
        bounds.0.0 = p.0;
    }
    if p.1 < bounds.0.1 {
        bounds.0.1 = p.1;
    }
    if p.0 > bounds.1.0 {
        bounds.1.0 = p.0;
    }
    if p.1 > bounds.1.1 {
        bounds.1.1 = p.1;
    }
}

/// The empty accumulator: min components at `u32::MAX`, max components at 0.
///
/// Folding any coordinate of the grid into it yields that coordinate as both
/// corners; the sentinel itself is never emitted as a box.
pub fn new_bounds() -> (r: ((u32, u32), (u32, u32)))
    ensures
        r == ((u32::MAX, u32::MAX), (0u32, 0u32)),
{
    ((u32::MAX, u32::MAX), (u32::MIN, u32::MIN))
}

} // verus!
