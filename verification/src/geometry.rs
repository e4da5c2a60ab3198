//! Points, sizes and rectangles in device pixels.

use crate::ieee::Binary64;
use vstd::prelude::*;

verus! {

/// A position, or a displacement.
#[derive(Clone, Copy, Debug, PartialEq, Eq, Structural)]
pub struct Point {
    pub x: Binary64,
    pub y: Binary64,
}

/// An extent.
#[derive(Clone, Copy, Debug, PartialEq, Eq, Structural)]
pub struct Size {
    pub width: Binary64,
    pub height: Binary64,
}

/// An axis-aligned rectangle, given by its two corners.
#[derive(Clone, Copy, Debug, PartialEq, Eq, Structural)]
pub struct Rect {
    pub x0: Binary64,
    pub y0: Binary64,
    pub x1: Binary64,
    pub y1: Binary64,
}

/// Distances inwards from the four sides of a rectangle.
#[derive(Clone, Copy, Debug, PartialEq, Eq, Structural)]
pub struct Insets {
    pub x0: Binary64,
    pub y0: Binary64,
    pub x1: Binary64,
    pub y1: Binary64,
}

impl Rect {
    pub open spec fn spec_width(self) -> Binary64 {
        self.x1.minus(self.x0)
    }

    /// The extent along the x axis.
    #[verifier::when_used_as_spec(spec_width)]
    pub fn width(self) -> (r: Binary64)
        ensures
            r == self.spec_width(),
    {
        self.x1.minus(self.x0)
    }

    pub open spec fn spec_height(self) -> Binary64 {
        self.y1.minus(self.y0)
    }

    /// The extent along the y axis.
    #[verifier::when_used_as_spec(spec_height)]
    pub fn height(self) -> (r: Binary64)
        ensures
            r == self.spec_height(),
    {
        self.y1.minus(self.y0)
    }

    pub open spec fn spec_scaled(self, factor: Binary64) -> Rect {
        Rect {
            x0: self.x0.times(factor),
            y0: self.y0.times(factor),
            x1: self.x1.times(factor),
            y1: self.y1.times(factor),
        }
    }

    /// Every coordinate multiplied by `factor`.
    #[verifier::when_used_as_spec(spec_scaled)]
    pub fn scaled(self, factor: Binary64) -> (r: Rect)
        ensures
            r == self.spec_scaled(factor),
    {
        Rect {
            x0: self.x0.times(factor),
            y0: self.y0.times(factor),
            x1: self.x1.times(factor),
            y1: self.y1.times(factor),
        }
    }
}

impl Rect {
    pub open spec fn spec_abs(self) -> Rect {
        Rect {
            x0: self.x0.min(self.x1),
            y0: self.y0.min(self.y1),
            x1: self.x0.max(self.x1),
            y1: self.y0.max(self.y1),
        }
    }

    /// The same area, its corners in order.
    #[verifier::when_used_as_spec(spec_abs)]
    pub fn abs(self) -> (r: Rect)
        ensures
            r == self.spec_abs(),
    {
        Rect {
            x0: self.x0.min(self.x1),
            y0: self.y0.min(self.y1),
            x1: self.x0.max(self.x1),
            y1: self.y0.max(self.y1),
        }
    }

    pub open spec fn spec_shrunk(self, by: Binary64) -> Rect {
        let r = self.abs();
        Rect { x0: r.x0.plus(by), y0: r.y0.plus(by), x1: r.x1.minus(by), y1: r.y1.minus(by) }
    }

    /// The area with every side moved inwards.
    #[verifier::when_used_as_spec(spec_shrunk)]
    pub fn shrunk(self, by: Binary64) -> (r: Rect)
        ensures
            r == self.spec_shrunk(by),
    {
        let r = self.abs();
        Rect { x0: r.x0.plus(by), y0: r.y0.plus(by), x1: r.x1.minus(by), y1: r.y1.minus(by) }
    }

    pub open spec fn spec_center(self) -> Point {
        let half = Binary64::half();
        Point { x: half.times(self.x0.plus(self.x1)), y: half.times(self.y0.plus(self.y1)) }
    }

    /// The point in the middle.
    #[verifier::when_used_as_spec(spec_center)]
    pub fn center(self) -> (r: Point)
        ensures
            r == self.spec_center(),
    {
        let half = Binary64::half();
        Point { x: half.times(self.x0.plus(self.x1)), y: half.times(self.y0.plus(self.y1)) }
    }
}

impl Point {
    pub open spec fn spec_lerp(self, other: Point, t: Binary64) -> Point {
        Point {
            x: self.x.plus(t.times(other.x.minus(self.x))),
            y: self.y.plus(t.times(other.y.minus(self.y))),
        }
    }

    /// The point at `t` on the way to `other`.
    #[verifier::when_used_as_spec(spec_lerp)]
    pub fn lerp(self, other: Point, t: Binary64) -> (r: Point)
        ensures
            r == self.spec_lerp(other, t),
    {
        Point {
            x: self.x.plus(t.times(other.x.minus(self.x))),
            y: self.y.plus(t.times(other.y.minus(self.y))),
        }
    }
}

} // verus!
