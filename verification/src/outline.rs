//! Where an outline lies.
//!
//! The outline is outset from the border edge by `outline-offset`; a negative offset shrinks
//! it into the border box. The outside of the ring never becomes smaller than twice the
//! outline's width, in each dimension on its own.

use crate::geometry::Rect;
use crate::ieee::Binary64;
use vstd::prelude::*;

verus! {

/// One dimension of the outside of a ring around `lo..hi`.
pub open spec fn spec_outline_side(
    lo: Binary64,
    hi: Binary64,
    offset: Binary64,
    width: Binary64,
) -> (Binary64, Binary64) {
    let distance = offset.plus(width);
    let start = lo.minus(distance);
    let end = hi.plus(distance);
    if end.minus(start).below(Binary64::two().times(width)) {
        let middle = Binary64::half().times(lo.plus(hi));
        (middle.minus(width), middle.plus(width))
    } else {
        (start, end)
    }
}

/// One dimension of the outside of a ring around `lo..hi`: moved outwards by the offset and
/// the width, or twice the width about the middle where that would be smaller.
#[verifier::when_used_as_spec(spec_outline_side)]
pub fn outline_side(lo: Binary64, hi: Binary64, offset: Binary64, width: Binary64) -> (r: (
    Binary64,
    Binary64,
))
    ensures
        r == spec_outline_side(lo, hi, offset, width),
{
    let distance = offset.plus(width);
    let start = lo.minus(distance);
    let end = hi.plus(distance);
    if end.minus(start).below(Binary64::two().times(width)) {
        let middle = Binary64::half().times(lo.plus(hi));
        (middle.minus(width), middle.plus(width))
    } else {
        (start, end)
    }
}

/// The outside of the ring around a border box.
pub open spec fn outline_outside(border_box: Rect, offset: Binary64, width: Binary64) -> Rect {
    let (x0, x1) = outline_side(border_box.x0, border_box.x1, offset, width);
    let (y0, y1) = outline_side(border_box.y0, border_box.y1, offset, width);
    Rect { x0, y0, x1, y1 }
}

/// The outside and the inside of the ring around a border box.
pub open spec fn outline_ring(border_box: Rect, offset: Binary64, width: Binary64) -> (Rect, Rect) {
    let outside = outline_outside(border_box, offset, width);
    (outside, outside.shrunk(width))
}

/// The outside and the inside of the ring around a border box.
pub fn outline_boxes(border_box: Rect, offset: Binary64, width: Binary64) -> (r: (Rect, Rect))
    ensures
        r == outline_ring(border_box, offset, width),
        r.0 == outline_outside(border_box, offset, width),
        r.1 == outline_outside(border_box, offset, width).shrunk(width),
{
    let (x0, x1) = outline_side(border_box.x0, border_box.x1, offset, width);
    let (y0, y1) = outline_side(border_box.y0, border_box.y1, offset, width);
    let outside = Rect { x0, y0, x1, y1 };
    (outside, outside.shrunk(width))
}

} // verus!
