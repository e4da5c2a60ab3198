//! Non-premultiplied sRGB colours.

use crate::ieee::Binary32;
use vstd::prelude::*;

verus! {

/// A non-premultiplied sRGB colour.
#[derive(Clone, Copy, Debug, PartialEq, Eq, Structural)]
pub struct Color {
    pub r: Binary32,
    pub g: Binary32,
    pub b: Binary32,
    pub a: Binary32,
}

impl Color {
    pub open spec fn spec_same_as(self, other: Color) -> bool {
        &&& self.r.equals(other.r)
        &&& self.g.equals(other.g)
        &&& self.b.equals(other.b)
        &&& self.a.equals(other.a)
    }

    /// Whether the components are equal as numbers.
    #[verifier::when_used_as_spec(spec_same_as)]
    pub fn same_as(self, other: Color) -> (r: bool)
        ensures
            r == self.spec_same_as(other),
    {
        self.r.equals(other.r) && self.g.equals(other.g) && self.b.equals(other.b)
            && self.a.equals(other.a)
    }

    pub open spec fn spec_transparent() -> Color {
        let zero = Binary32::zero();
        Color { r: zero, g: zero, b: zero, a: zero }
    }

    /// Transparent black.
    #[verifier::when_used_as_spec(spec_transparent)]
    pub fn transparent() -> (r: Color)
        ensures
            r == Color::spec_transparent(),
    {
        let zero = Binary32::zero();
        Color { r: zero, g: zero, b: zero, a: zero }
    }

    /// Whether every component is a finite number.
    pub open spec fn finite(self) -> bool {
        self.r.finite() && self.g.finite() && self.b.finite() && self.a.finite()
    }
}

} // verus!
