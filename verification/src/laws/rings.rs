//! What a border and an outline look like from where their box is, how wide they are and how each
//! side and corner of them is styled.

use crate::border::{
    beveled_edge_color, border_ops, outline_ops, BorderOp, BorderStyle, BorderStyles, CircularRadii,
    Edge, EdgeStyle, OutlineStyle, OutlineStyles,
};
use crate::color::Color;
use crate::edges::{dashed_edge, dotted_edge};
use crate::element::{CornerRadii, Frame};
use crate::geometry::Rect;
use crate::ieee::facts::lemma_rounded_sign;
use crate::ieee::model::Format;
use crate::ieee::{Binary32, Binary64};
use crate::laws::border::{
    has_numbers, is_number, law_ordering_keeps_every_piece, law_pieces_are_ordered_by_color,
    lemma_run_color,
};
use crate::laws::culling::is_held;
use crate::laws::placement::{lemma_held_difference, lemma_held_sum};
use crate::outline::outline_ring;
use crate::pieces::{ordered, run_fills, EdgePiece, Slice};
use vstd::prelude::*;

verus! {

/// Whether nothing is rounded where one side of an outline is moved out from one side of a box.
pub open spec fn is_ring_exact(
    lo: Binary64,
    hi: Binary64,
    offset: Binary64,
    width: Binary64,
) -> bool {
    let (l, h, o, w) = (lo.value(), hi.value(), offset.value(), width.value());
    &&& lo.finite() && hi.finite() && offset.finite() && width.finite()
    &&& is_held(o + w)
    &&& is_held(l - (o + w))
    &&& is_held(h + (o + w))
    &&& is_held((h + (o + w)) - (l - (o + w)))
    &&& is_held(2 * w)
    &&& is_held(l - o)
    &&& is_held(h + o)
}

/// Twice a number, where it can be held.
proof fn lemma_two(width: Binary64)
    requires
        width.finite(),
        is_held(2 * width.value()),
    ensures
        Binary64::two().times(width).finite(),
        Binary64::two().times(width).value() == 2 * width.value(),
{
    let f = Format::Double;
    let two = Binary64::two();
    let unit = Binary64::unit() as int;
    let x = choose|x: Binary64| x.finite() && #[trigger] x.value() == 2 * width.value();
    Binary64::lemma_from_unsigned(2);
    Binary64::lemma_constants(width);
    Binary64::lemma_constants(x);
    lemma_two_is_two();
    two.lemma_times(width);
    assert((2 * unit) * width.value() == (2 * width.value()) * unit) by (nonlinear_arith);
    crate::ieee::facts::lemma_rounded_exact(f, x.bits as nat, unit as nat);
    let r = two.times(width);
    Binary64::lemma_constants(r);
    crate::ieee::model::lemma_mag_order(f, f.body(x.bits as nat), f.inf());
    crate::ieee::model::lemma_mag_order(f, f.body(r.bits as nat), f.inf());
}

/// Two is two.
pub proof fn lemma_two_is_two()
    ensures
        Binary64::two().finite(),
        Binary64::two().value() == 2 * Binary64::unit(),
{
    let f = Format::Double;
    reveal(Format::mag);
    let b = Binary64::two().bits as nat;
    assert(f.hidden() == 0x10_0000_0000_0000);
    assert(0x4000_0000_0000_0000nat / 0x10_0000_0000_0000 == 1024
        && 0x4000_0000_0000_0000nat % 0x10_0000_0000_0000 == 0);
    let p = vstd::arithmetic::power2::pow2(1023) as int;
    assert(f.mag(b) == 0x10_0000_0000_0000 * p);
    vstd::arithmetic::power2::lemma_pow2_adds(52, 1023);
    vstd::arithmetic::power2::lemma_pow2_adds(1, 1074);
    vstd::arithmetic::power2::lemma2_to64();
    vstd::arithmetic::power2::lemma2_to64_rest();
}

/// One side of an outline, where nothing is rounded.
proof fn lemma_side(lo: Binary64, hi: Binary64, offset: Binary64, width: Binary64)
    requires
        is_ring_exact(lo, hi, offset, width),
        hi.value() - lo.value() + 2 * offset.value() >= 0,
    ensures
        ({
            let side = crate::outline::outline_side(lo, hi, offset, width);
            &&& side.0.finite() && side.1.finite()
            &&& side.0.value() == lo.value() - offset.value() - width.value()
            &&& side.1.value() == hi.value() + offset.value() + width.value()
        }),
{
    lemma_held_sum(offset, width);
    let distance = offset.plus(width);
    lemma_held_difference(lo, distance);
    lemma_held_sum(hi, distance);
    lemma_held_difference(hi.plus(distance), lo.minus(distance));
    lemma_two(width);
}

/// An outline lies around its box: unless that would be too small a ring, its outside is the box
/// moved outwards by the offset and the width on each side, its inside the box moved outwards by
/// the offset, left and right from the left and the right of the box, top and bottom from its top
/// and its bottom.
pub proof fn law_an_outline_lies_around_its_box(
    border_box: Rect,
    offset: Binary64,
    width: Binary64,
)
    ensures
        ({
            let (outside, inside) = outline_ring(border_box, offset, width);
            let (o, w) = (offset.value(), width.value());
            &&& is_ring_exact(border_box.x0, border_box.x1, offset, width) && w >= 0
                && border_box.x1.value() - border_box.x0.value() + 2 * o >= 0 ==> {
                &&& outside.x0.value() == border_box.x0.value() - o - w
                &&& outside.x1.value() == border_box.x1.value() + o + w
                &&& inside.x0.value() == border_box.x0.value() - o
                &&& inside.x1.value() == border_box.x1.value() + o
            }
            &&& is_ring_exact(border_box.y0, border_box.y1, offset, width) && w >= 0
                && border_box.y1.value() - border_box.y0.value() + 2 * o >= 0 ==> {
                &&& outside.y0.value() == border_box.y0.value() - o - w
                &&& outside.y1.value() == border_box.y1.value() + o + w
                &&& inside.y0.value() == border_box.y0.value() - o
                &&& inside.y1.value() == border_box.y1.value() + o
            }
        }),
{
    let (outside, inside) = outline_ring(border_box, offset, width);
    let (o, w) = (offset.value(), width.value());
    let b = border_box;
    if is_ring_exact(b.x0, b.x1, offset, width) && w >= 0 && b.x1.value() - b.x0.value() + 2 * o
        >= 0 {
        lemma_side(b.x0, b.x1, offset, width);
        lemma_inner(outside.x0, outside.x1, width);
    }
    if is_ring_exact(b.y0, b.y1, offset, width) && w >= 0 && b.y1.value() - b.y0.value() + 2 * o
        >= 0 {
        lemma_side(b.y0, b.y1, offset, width);
        lemma_inner(outside.y0, outside.y1, width);
    }
}

/// The inside of a ring from its outside.
proof fn lemma_inner(a: Binary64, b: Binary64, width: Binary64)
    requires
        a.finite() && b.finite() && width.finite(),
        a.value() <= b.value(),
        is_held(a.value() + width.value()),
        is_held(b.value() - width.value()),
    ensures
        a.min(b).plus(width).value() == a.value() + width.value(),
        a.max(b).minus(width).value() == b.value() - width.value(),
{
    Binary64::lemma_constants(a);
    let (p, q) = (a.min(b), a.max(b));
    assert(p.finite() && p.value() == a.value());
    assert(q.finite() && q.value() == b.value());
    lemma_held_sum(p, width);
    lemma_held_difference(q, width);
}

/// A ring that would be too small along an axis is twice its width there, about the middle of its
/// box.
pub proof fn law_a_small_outline_is_twice_its_width(
    border_box: Rect,
    offset: Binary64,
    width: Binary64,
)
    ensures
        ({
            let outside = outline_ring(border_box, offset, width).0;
            let (o, w) = (offset.value(), width.value());
            let (x, y) = (border_box.center().x, border_box.center().y);
            &&& is_ring_exact(border_box.x0, border_box.x1, offset, width) && x.finite()
                && border_box.x1.value() - border_box.x0.value() + 2 * o < 0 && is_held(
                x.value() - w,
            ) && is_held(x.value() + w) ==> outside.x0.value() == x.value() - w
                && outside.x1.value() == x.value() + w
            &&& is_ring_exact(border_box.y0, border_box.y1, offset, width) && y.finite()
                && border_box.y1.value() - border_box.y0.value() + 2 * o < 0 && is_held(
                y.value() - w,
            ) && is_held(y.value() + w) ==> outside.y0.value() == y.value() - w
                && outside.y1.value() == y.value() + w
        }),
{
    let b = border_box;
    let (o, w) = (offset.value(), width.value());
    let (x, y) = (b.center().x, b.center().y);
    if is_ring_exact(b.x0, b.x1, offset, width) && x.finite() && b.x1.value() - b.x0.value() + 2 * o
        < 0 && is_held(x.value() - w) && is_held(x.value() + w) {
        lemma_small_side(b.x0, b.x1, offset, width, x);
    }
    if is_ring_exact(b.y0, b.y1, offset, width) && y.finite() && b.y1.value() - b.y0.value() + 2 * o
        < 0 && is_held(y.value() - w) && is_held(y.value() + w) {
        lemma_small_side(b.y0, b.y1, offset, width, y);
    }
}

proof fn lemma_small_side(
    lo: Binary64,
    hi: Binary64,
    offset: Binary64,
    width: Binary64,
    middle: Binary64,
)
    requires
        is_ring_exact(lo, hi, offset, width),
        hi.value() - lo.value() + 2 * offset.value() < 0,
        middle == Binary64::half().times(lo.plus(hi)),
        middle.finite(),
        is_held(middle.value() - width.value()),
        is_held(middle.value() + width.value()),
    ensures
        ({
            let side = crate::outline::outline_side(lo, hi, offset, width);
            &&& side.0.value() == middle.value() - width.value()
            &&& side.1.value() == middle.value() + width.value()
        }),
{
    lemma_held_sum(offset, width);
    let distance = offset.plus(width);
    lemma_held_difference(lo, distance);
    lemma_held_sum(hi, distance);
    lemma_held_difference(hi.plus(distance), lo.minus(distance));
    lemma_two(width);
    lemma_held_difference(middle, width);
    lemma_held_sum(middle, width);
}

/// Moving a box up or down, or making it taller, leaves the left and the right of its outline
/// alone; moving it sideways, or making it wider, leaves the top and the bottom alone.
pub proof fn law_the_sides_of_an_outline_are_those_of_its_box(
    a: Rect,
    b: Rect,
    offset: Binary64,
    width: Binary64,
)
    ensures
        ({
            let (s, t) = (outline_ring(a, offset, width), outline_ring(b, offset, width));
            &&& a.x0 == b.x0 && a.x1 == b.x1 ==> s.0.x0 == t.0.x0 && s.0.x1 == t.0.x1 && s.1.x0
                == t.1.x0 && s.1.x1 == t.1.x1
            &&& a.y0 == b.y0 && a.y1 == b.y1 ==> s.0.y0 == t.0.y0 && s.0.y1 == t.0.y1 && s.1.y0
                == t.1.y0 && s.1.y1 == t.1.y1
        }),
{
}

/// Whether a corner of a stroke along the middle of a border is the border's own: sharp where the
/// border's radius is at most half the width, and otherwise that radius less half the width.
pub open spec fn is_middle_of_corner(own: Binary64, width: Binary64, made: Binary64) -> bool {
    let half = width.over(Binary64::two());
    own.finite() && half.finite() ==> {
        &&& own.value() <= half.value() ==> made.value() == 0
        &&& own.value() > half.value() ==> made == own.minus(half) && made.value() > 0
    }
}

proof fn lemma_middle_of_corner(own: Binary64, width: Binary64)
    ensures
        is_middle_of_corner(
            own,
            width,
            own.minus(width.over(Binary64::two())).max(Binary64::zero()),
        ),
{
    let f = Format::Double;
    let half = width.over(Binary64::two());
    if own.finite() && half.finite() {
        Binary64::lemma_constants(own);
        own.lemma_minus(half);
        let d = own.value() - half.value();
        lemma_rounded_sign(f, d, 1);
        if d > 0 {
            crate::ieee::error::lemma_whole_error(f, d);
            crate::ieee::model::lemma_format_constants(f);
            assert(f.hidden() == 0x10_0000_0000_0000);
            let r = f.rounded(d, 1);
            if r == 0 {
                crate::ieee::model::lemma_mag_order(f, 0, f.inf());
                crate::ieee::facts::lemma_value_zero(f, 0);
            }
        }
    }
}

/// The style of one edge of a border.
pub open spec fn own_style(border: BorderStyles, edge: Edge) -> EdgeStyle {
    match edge {
        Edge::Top => border.top,
        Edge::Right => border.right,
        Edge::Bottom => border.bottom,
        Edge::Left => border.left,
    }
}

/// The width of one edge of a border.
pub open spec fn own_width(frame: Frame, edge: Edge) -> Binary64 {
    match edge {
        Edge::Top => frame.border_width.y0,
        Edge::Right => frame.border_width.x1,
        Edge::Bottom => frame.border_width.y1,
        Edge::Left => frame.border_width.x0,
    }
}

/// Whether a step strokes the whole border at once.
pub open spec fn is_stroke(op: BorderOp) -> bool {
    op is StrokeRoundedRect || op is StrokeEllipse
}

/// A border is stroked at once only where every edge of it is solid, has the colour of the stroke,
/// is visible, and has one and the same positive width; and then the stroke is all there is.
pub proof fn law_a_stroked_border_is_the_same_all_around(
    frame: Frame,
    scale: Binary64,
    border: BorderStyles,
    i: int,
    edge: Edge,
)
    requires
        0 <= i < border_ops(frame, scale, border).len(),
        is_stroke(border_ops(frame, scale, border)[i]),
    ensures
        ({
            let op = border_ops(frame, scale, border)[i];
            let color = match op {
                BorderOp::StrokeRoundedRect { color, .. } => color,
                BorderOp::StrokeEllipse { color, .. } => color,
                _ => Color::transparent(),
            };
            let style = own_style(border, edge);
            &&& border_ops(frame, scale, border).len() == 1
            &&& style.style is Solid
            &&& style.color == color || style.color.same_as(color)
            &&& Binary32::zero().below(color.a)
            &&& own_width(frame, edge).value() == frame.border_width.x0.value()
            &&& own_width(frame, edge).value() > 0
            &&& op is StrokeRoundedRect ==> frame.is_uniform_corner_border
            &&& op is StrokeEllipse ==> !frame.is_uniform_corner_border
                && frame.is_elliptical_border
        }),
{
    let ops = border_ops(frame, scale, border);
    Binary64::lemma_constants(frame.border_width.x0);
    if !border.is_uniform(frame) || crate::border::stroke_op(frame, border.top.color) is None {
        lemma_edges_are_not_stroked(frame, scale, border, i);
    }
}

proof fn lemma_edges_are_not_stroked(
    frame: Frame,
    scale: Binary64,
    border: BorderStyles,
    i: int,
)
    requires
        0 <= i < border.edge_ops(frame, scale).len(),
    ensures
        !is_stroke(border.edge_ops(frame, scale)[i]),
{
}

/// A solid border of one visible colour and one positive width, whose corners are all circular and
/// each sharp or at least as round as the border is wide, is one stroke; so is a full ellipse.
pub proof fn law_a_border_that_a_stroke_can_draw_is_one(
    frame: Frame,
    scale: Binary64,
    border: BorderStyles,
)
    requires
        forall|edge: Edge| (#[trigger] own_style(border, edge)).style is Solid,
        forall|edge: Edge|
            (#[trigger] own_style(border, edge)).color.same_as(border.top.color)
                && own_width(frame, edge).equals(frame.border_width.x0),
        Binary64::zero().below(frame.border_width.x0),
        Binary32::zero().below(border.top.color.a),
        ({
            let w = frame.border_box.width().minus(frame.padding_box.width()).over(
                Binary64::two(),
            );
            let r = frame.border_radii;
            let zero = Binary64::zero();
            ||| frame.is_uniform_corner_border && (r.top_left.x.equals(zero) || w.at_most(
                r.top_left.x,
            )) && (r.top_right.x.equals(zero) || w.at_most(r.top_right.x)) && (
            r.bottom_right.x.equals(zero) || w.at_most(r.bottom_right.x)) && (
            r.bottom_left.x.equals(zero) || w.at_most(r.bottom_left.x))
            ||| !frame.is_uniform_corner_border && frame.is_elliptical_border
        }),
    ensures
        border_ops(frame, scale, border).len() == 1,
        is_stroke(border_ops(frame, scale, border)[0]),
{
    assert(own_style(border, Edge::Top).style is Solid);
    assert(own_style(border, Edge::Right).style is Solid);
    assert(own_style(border, Edge::Bottom).style is Solid);
    assert(own_style(border, Edge::Left).style is Solid);
    assert(own_width(frame, Edge::Top).equals(frame.border_width.x0));
    assert(own_width(frame, Edge::Right).equals(frame.border_width.x0));
    assert(own_width(frame, Edge::Bottom).equals(frame.border_width.x0));
}

/// Each corner of a stroke along a border comes from the border's own radius at that corner, the
/// stroke runs in the middle of the border, and its corners were ones that a stroke can draw.
pub proof fn law_a_stroke_follows_each_corner(frame: Frame, scale: Binary64, border: BorderStyles)
    requires
        border_ops(frame, scale, border).len() == 1,
        border_ops(frame, scale, border)[0] is StrokeRoundedRect,
    ensures
        ({
            let op = border_ops(frame, scale, border)[0];
            let made = op->radii;
            let own = frame.border_radii;
            let width = op->StrokeRoundedRect_width;
            let half = width.over(Binary64::two());
            let zero = Binary64::zero();
            let bb = frame.border_box;
            &&& is_middle_of_corner(own.top_left.x, width, made.top_left)
            &&& is_middle_of_corner(own.top_right.x, width, made.top_right)
            &&& is_middle_of_corner(own.bottom_right.x, width, made.bottom_right)
            &&& is_middle_of_corner(own.bottom_left.x, width, made.bottom_left)
            &&& own.top_left.x.equals(zero) || width.at_most(own.top_left.x)
            &&& own.top_right.x.equals(zero) || width.at_most(own.top_right.x)
            &&& own.bottom_right.x.equals(zero) || width.at_most(own.bottom_right.x)
            &&& own.bottom_left.x.equals(zero) || width.at_most(own.bottom_left.x)
            &&& bb.x0.below(bb.x1) && bb.y0.below(bb.y1) ==> op->rect == (Rect {
                x0: bb.x0.plus(half),
                y0: bb.y0.plus(half),
                x1: bb.x1.minus(half),
                y1: bb.y1.minus(half),
            })
        }),
{
    lemma_edges_have_no_stroke(frame, scale, border);
    let op = border_ops(frame, scale, border)[0];
    let width = op->StrokeRoundedRect_width;
    let own = frame.border_radii;
    lemma_middle_of_corner(own.top_left.x, width);
    lemma_middle_of_corner(own.top_right.x, width);
    lemma_middle_of_corner(own.bottom_right.x, width);
    lemma_middle_of_corner(own.bottom_left.x, width);
}

/// Nothing that is drawn edge by edge is a stroke.
pub proof fn lemma_edges_have_no_stroke(frame: Frame, scale: Binary64, border: BorderStyles)
    ensures
        forall|i: int|
            0 <= i < border.edge_ops(frame, scale).len() ==> !is_stroke(
                #[trigger] border.edge_ops(frame, scale)[i],
            ),
{
    assert forall|i: int| 0 <= i < border.edge_ops(frame, scale).len() implies !is_stroke(
        #[trigger] border.edge_ops(frame, scale)[i],
    ) by {
        lemma_edges_are_not_stroked(frame, scale, border, i);
    }
}

/// An element's corners seen in a mirror that exchanges left and right.
pub open spec fn mirrored_corners(f: Frame) -> Frame {
    Frame {
        border_radii: CornerRadii {
            top_left: f.border_radii.top_right,
            top_right: f.border_radii.top_left,
            bottom_right: f.border_radii.bottom_left,
            bottom_left: f.border_radii.bottom_right,
        },
        ..f
    }
}

/// An element's corners seen in a mirror that exchanges top and bottom.
pub open spec fn flipped_corners(f: Frame) -> Frame {
    Frame {
        border_radii: CornerRadii {
            top_left: f.border_radii.bottom_left,
            top_right: f.border_radii.bottom_right,
            bottom_right: f.border_radii.top_right,
            bottom_left: f.border_radii.top_left,
        },
        ..f
    }
}

/// A stroke seen in a mirror that exchanges left and right.
pub open spec fn mirrored_stroke(r: CircularRadii) -> CircularRadii {
    CircularRadii {
        top_left: r.top_right,
        top_right: r.top_left,
        bottom_right: r.bottom_left,
        bottom_left: r.bottom_right,
    }
}

/// A stroke seen in a mirror that exchanges top and bottom.
pub open spec fn flipped_stroke(r: CircularRadii) -> CircularRadii {
    CircularRadii {
        top_left: r.bottom_left,
        top_right: r.bottom_right,
        bottom_right: r.top_right,
        bottom_left: r.top_left,
    }
}

/// Exchanging the corners of an element, left and right or top and bottom, exchanges those of its
/// stroke, and changes nothing else about it.
pub proof fn law_mirroring_the_corners_mirrors_the_stroke(
    frame: Frame,
    scale: Binary64,
    border: BorderStyles,
)
    requires
        border_ops(frame, scale, border).len() == 1,
        border_ops(frame, scale, border)[0] is StrokeRoundedRect,
    ensures
        ({
            let op = border_ops(frame, scale, border)[0];
            let mirrored = border_ops(mirrored_corners(frame), scale, border);
            let flipped = border_ops(flipped_corners(frame), scale, border);
            &&& mirrored == seq![
                BorderOp::StrokeRoundedRect {
                    color: op->StrokeRoundedRect_color,
                    width: op->StrokeRoundedRect_width,
                    rect: op->rect,
                    radii: mirrored_stroke(op->radii),
                },
            ]
            &&& flipped == seq![
                BorderOp::StrokeRoundedRect {
                    color: op->StrokeRoundedRect_color,
                    width: op->StrokeRoundedRect_width,
                    rect: op->rect,
                    radii: flipped_stroke(op->radii),
                },
            ]
        }),
{
    lemma_edges_have_no_stroke(frame, scale, border);
    assert(border_ops(frame, scale, border)[0] == crate::border::stroke_op(
        frame,
        border.top.color,
    )->0);
    assert(border.is_uniform(mirrored_corners(frame)) && border.is_uniform(
        flipped_corners(frame),
    ));
}

/// Whether the colours that an edge can be shaded to are numbers.
pub open spec fn has_number_colors(style: EdgeStyle) -> bool {
    &&& is_number(style.color)
    &&& is_number(crate::border::darken(style.color))
    &&& is_number(crate::border::lighten(style.color))
}

/// Whether some step fills a slice of an edge with a colour.
pub open spec fn has_fill(ops: Seq<BorderOp>, edge: Edge, slice: Slice, color: Color) -> bool {
    exists|i: int|
        0 <= i < ops.len() && (#[trigger] ops[i]) is Fill && ops[i]->fill.piece == (EdgePiece {
            edge,
            slice,
        }) && ops[i]->fill.color.same_as(color)
}

/// What a visible edge has to show for itself among the steps of a border or an outline.
pub open spec fn is_painted(
    ops: Seq<BorderOp>,
    frame: Frame,
    scale: Binary64,
    edge: Edge,
    style: EdgeStyle,
    width: Binary64,
) -> bool {
    let color = style.color;
    let lit = beveled_edge_color(color, style.contrast, edge, false);
    let shaded = beveled_edge_color(color, style.contrast, edge, true);
    match style.style {
        BorderStyle::Absent | BorderStyle::Hidden => true,
        BorderStyle::Solid => has_fill(ops, edge, Slice::Whole, color),
        BorderStyle::Double => if width.below(Binary64::from_unsigned(3).times(scale)) {
            has_fill(ops, edge, Slice::Whole, color)
        } else {
            has_fill(ops, edge, Slice::OuterAndInnerThird, color)
        },
        BorderStyle::Inset => has_fill(ops, edge, Slice::Whole, shaded),
        BorderStyle::Outset => has_fill(ops, edge, Slice::Whole, lit),
        BorderStyle::Groove => has_fill(ops, edge, Slice::OuterHalf, shaded) && has_fill(
            ops,
            edge,
            Slice::InnerHalf,
            lit,
        ),
        BorderStyle::Ridge => has_fill(ops, edge, Slice::OuterHalf, lit) && has_fill(
            ops,
            edge,
            Slice::InnerHalf,
            shaded,
        ),
        BorderStyle::Dashed => match dashed_edge(frame, scale, edge) {
            Some(dashes) => ops.contains(BorderOp::Dashes { edge, color, dashes }),
            None => true,
        },
        BorderStyle::Dotted => match dotted_edge(frame, edge) {
            Some(dots) => ops.contains(BorderOp::Dots { edge, color, dots }),
            None => true,
        },
    }
}

/// The edge that a step paints.
pub open spec fn edge_of(op: BorderOp) -> Option<Edge> {
    match op {
        BorderOp::Dashes { edge, .. } => Some(edge),
        BorderOp::Dots { edge, .. } => Some(edge),
        BorderOp::Fill { fill } => Some(fill.piece.edge),
        _ => None,
    }
}

/// A piece of a list is filled, in its colour.
proof fn lemma_piece_is_filled(pieces: Seq<(Color, EdgePiece)>, k: int) -> (i: int)
    requires
        has_numbers(pieces),
        0 <= k < pieces.len(),
    ensures
        ({
            let fills = run_fills(ordered(pieces));
            &&& 0 <= i < fills.len()
            &&& fills[i].piece == pieces[k].1
            &&& fills[i].color.same_as(pieces[k].0)
        }),
{
    broadcast use vstd::seq_lib::group_to_multiset_ensures;

    let list = ordered(pieces);
    law_ordering_keeps_every_piece(pieces);
    law_pieces_are_ordered_by_color(pieces);
    assert(pieces.contains(pieces[k]));
    assert(list.to_multiset().count(pieces[k]) > 0);
    assert(list.contains(pieces[k]));
    let i = choose|i: int| 0 <= i < list.len() && list[i] == pieces[k];
    lemma_run_color(list, i as nat);
    i
}

/// What is filled is a piece of the list.
proof fn lemma_fill_is_a_piece(pieces: Seq<(Color, EdgePiece)>, i: int) -> (k: int)
    requires
        0 <= i < run_fills(ordered(pieces)).len(),
    ensures
        0 <= k < pieces.len(),
        run_fills(ordered(pieces))[i].piece == pieces[k].1,
{
    broadcast use vstd::seq_lib::group_to_multiset_ensures;

    let list = ordered(pieces);
    law_ordering_keeps_every_piece(pieces);
    assert(list.contains(list[i]));
    assert(pieces.to_multiset().count(list[i]) > 0);
    assert(pieces.contains(list[i]));
    choose|k: int| 0 <= k < pieces.len() && pieces[k] == list[i]
}

/// The patterned and the filled steps of four edges.
spec fn four_edges(
    patterns: Seq<BorderOp>,
    pieces: Seq<(Color, EdgePiece)>,
) -> Seq<BorderOp> {
    patterns + crate::border::fill_ops(run_fills(ordered(pieces)))
}

proof fn lemma_has_fill(
    patterns: Seq<BorderOp>,
    pieces: Seq<(Color, EdgePiece)>,
    k: int,
)
    requires
        has_numbers(pieces),
        0 <= k < pieces.len(),
    ensures
        has_fill(
            four_edges(patterns, pieces),
            pieces[k].1.edge,
            pieces[k].1.slice,
            pieces[k].0,
        ),
{
    let i = lemma_piece_is_filled(pieces, k);
    let ops = four_edges(patterns, pieces);
    let j = patterns.len() + i;
    assert(ops[j] == BorderOp::Fill { fill: run_fills(ordered(pieces))[i] });
}

/// The pieces of one edge among those of all four.
proof fn lemma_among(
    a: Seq<(Color, EdgePiece)>,
    b: Seq<(Color, EdgePiece)>,
    c: Seq<(Color, EdgePiece)>,
    d: Seq<(Color, EdgePiece)>,
)
    ensures
        ({
            let all = a + b + c + d;
            let (n, m, l) = (
                a.len() as int,
                (a.len() + b.len()) as int,
                (a.len() + b.len() + c.len()) as int,
            );
            &&& all.len() == l + d.len()
            &&& forall|k: int| 0 <= k < a.len() ==> all[k] == #[trigger] a[k]
            &&& forall|k: int| 0 <= k < b.len() ==> all[n + k] == #[trigger] b[k]
            &&& forall|k: int| 0 <= k < c.len() ==> all[m + k] == #[trigger] c[k]
            &&& forall|k: int| 0 <= k < d.len() ==> all[l + k] == #[trigger] d[k]
        }),
{
}

proof fn lemma_edge_is_painted(
    patterns: Seq<BorderOp>,
    pieces: Seq<(Color, EdgePiece)>,
    own: Seq<(Color, EdgePiece)>,
    at: int,
    frame: Frame,
    scale: Binary64,
    edge: Edge,
    style: EdgeStyle,
    width: Binary64,
    pattern_at: int,
)
    requires
        has_numbers(pieces),
        own == crate::border::edge_pieces(edge, style, width, scale),
        0 <= at,
        at + own.len() <= pieces.len(),
        forall|k: int| 0 <= k < own.len() ==> pieces[at + k] == #[trigger] own[k],
        ({
            let mine = crate::border::patterned_ops(frame, scale, edge, style.style, style.color);
            &&& 0 <= pattern_at
            &&& pattern_at + mine.len() <= patterns.len()
            &&& forall|k: int| 0 <= k < mine.len() ==> patterns[pattern_at + k] == #[trigger] mine[k]
        }),
    ensures
        is_painted(four_edges(patterns, pieces), frame, scale, edge, style, width),
{
    let ops = four_edges(patterns, pieces);
    let mine = crate::border::patterned_ops(frame, scale, edge, style.style, style.color);
    if own.len() > 0 {
        assert(pieces[at + 0] == own[0]);
        lemma_has_fill(patterns, pieces, at);
    }
    if own.len() > 1 {
        assert(pieces[at + 1] == own[1]);
        lemma_has_fill(patterns, pieces, at + 1);
    }
    if mine.len() > 0 {
        assert(patterns[pattern_at + 0] == mine[0]);
        assert(ops[pattern_at] == mine[0]);
    }
}

/// What one edge contributes is its own: pieces of that edge, filled only where the edge is visible
/// and its style is filled, and dashes or dots of that edge in its colour.
proof fn lemma_contributions(frame: Frame, scale: Binary64, border: BorderStyles, edge: Edge)
    ensures
        ({
            let style = own_style(border, edge);
            let fills = border.edge_fills(frame, scale, edge);
            let patterns = border.edge_patterns(frame, scale, edge);
            &&& has_number_colors(style) ==> has_numbers(fills)
            &&& forall|k: int|
                0 <= k < fills.len() ==> {
                    &&& (#[trigger] fills[k]).1.edge == edge
                    &&& !style.color.a.at_most(Binary32::zero())
                    &&& !(style.style is Absent) && !(style.style is Hidden)
                    &&& !(style.style is Dashed) && !(style.style is Dotted)
                }
            &&& forall|k: int|
                0 <= k < patterns.len() ==> {
                    &&& edge_of(#[trigger] patterns[k]) == Some(edge)
                    &&& !style.color.a.at_most(Binary32::zero())
                    &&& patterns[k] is Dashes || patterns[k] is Dots
                    &&& patterns[k] is Dashes <==> style.style is Dashed
                    &&& patterns[k] is Dots <==> style.style is Dotted
                    &&& patterns[k] matches BorderOp::Dashes { color, .. } ==> color == style.color
                    &&& patterns[k] matches BorderOp::Dots { color, .. } ==> color == style.color
                }
            &&& Binary32::zero().below(style.color.a) ==> fills == crate::border::edge_pieces(
                edge,
                style,
                own_width(frame, edge),
                scale,
            ) && patterns == crate::border::patterned_ops(
                frame,
                scale,
                edge,
                style.style,
                style.color,
            )
        }),
{
    Binary32::lemma_constants(Binary32::zero());
}

/// The steps of a border that is drawn edge by edge, and what each edge contributes to them.
#[verifier::opaque]
spec fn fills_of(frame: Frame, scale: Binary64, border: BorderStyles, edge: Edge) -> Seq<
    (Color, EdgePiece),
> {
    border.edge_fills(frame, scale, edge)
}

#[verifier::opaque]
spec fn patterns_of(frame: Frame, scale: Binary64, border: BorderStyles, edge: Edge) -> Seq<
    BorderOp,
> {
    border.edge_patterns(frame, scale, edge)
}

proof fn lemma_edge_ops(frame: Frame, scale: Binary64, border: BorderStyles)
    ensures
        border.edge_ops(frame, scale) == four_edges(
            patterns_of(frame, scale, border, Edge::Top) + patterns_of(
                frame,
                scale,
                border,
                Edge::Right,
            ) + patterns_of(frame, scale, border, Edge::Bottom) + patterns_of(
                frame,
                scale,
                border,
                Edge::Left,
            ),
            fills_of(frame, scale, border, Edge::Top) + fills_of(
                frame,
                scale,
                border,
                Edge::Right,
            ) + fills_of(frame, scale, border, Edge::Bottom) + fills_of(
                frame,
                scale,
                border,
                Edge::Left,
            ),
        ),
{
    reveal(fills_of);
    reveal(patterns_of);
}

proof fn lemma_own_contributions(frame: Frame, scale: Binary64, border: BorderStyles, edge: Edge)
    ensures
        ({
            let style = own_style(border, edge);
            let fills = fills_of(frame, scale, border, edge);
            let patterns = patterns_of(frame, scale, border, edge);
            &&& has_number_colors(style) ==> has_numbers(fills)
            &&& forall|k: int|
                0 <= k < fills.len() ==> {
                    &&& (#[trigger] fills[k]).1.edge == edge
                    &&& !style.color.a.at_most(Binary32::zero())
                    &&& !(style.style is Absent) && !(style.style is Hidden)
                    &&& !(style.style is Dashed) && !(style.style is Dotted)
                }
            &&& forall|k: int|
                0 <= k < patterns.len() ==> {
                    &&& edge_of(#[trigger] patterns[k]) == Some(edge)
                    &&& !style.color.a.at_most(Binary32::zero())
                    &&& patterns[k] is Dashes || patterns[k] is Dots
                    &&& patterns[k] is Dashes <==> style.style is Dashed
                    &&& patterns[k] is Dots <==> style.style is Dotted
                    &&& patterns[k] matches BorderOp::Dashes { color, .. } ==> color == style.color
                    &&& patterns[k] matches BorderOp::Dots { color, .. } ==> color == style.color
                }
            &&& Binary32::zero().below(style.color.a) ==> fills == crate::border::edge_pieces(
                edge,
                style,
                own_width(frame, edge),
                scale,
            ) && patterns == crate::border::patterned_ops(
                frame,
                scale,
                edge,
                style.style,
                style.color,
            )
        }),
{
    reveal(fills_of);
    reveal(patterns_of);
    lemma_contributions(frame, scale, border, edge);
}

proof fn lemma_steps_of_edges(
    a: Seq<BorderOp>,
    b: Seq<BorderOp>,
    c: Seq<BorderOp>,
    d: Seq<BorderOp>,
)
    ensures
        ({
            let all = a + b + c + d;
            let (n, m, l) = (
                a.len() as int,
                (a.len() + b.len()) as int,
                (a.len() + b.len() + c.len()) as int,
            );
            &&& all.len() == l + d.len()
            &&& forall|k: int| 0 <= k < a.len() ==> all[k] == #[trigger] a[k]
            &&& forall|k: int| 0 <= k < b.len() ==> all[n + k] == #[trigger] b[k]
            &&& forall|k: int| 0 <= k < c.len() ==> all[m + k] == #[trigger] c[k]
            &&& forall|k: int| 0 <= k < d.len() ==> all[l + k] == #[trigger] d[k]
        }),
{
}

/// Every visible edge of a border that is drawn edge by edge is painted: its own edge, in its own
/// style and its own colour, as wide as it is.
pub proof fn law_every_visible_edge_is_painted(
    frame: Frame,
    scale: Binary64,
    border: BorderStyles,
    edge: Edge,
)
    requires
        forall|i: int|
            0 <= i < border_ops(frame, scale, border).len() ==> !is_stroke(
                #[trigger] border_ops(frame, scale, border)[i],
            ),
        forall|edge: Edge| has_number_colors(#[trigger] own_style(border, edge)),
        Binary32::zero().below(own_style(border, edge).color.a),
    ensures
        is_painted(
            border_ops(frame, scale, border),
            frame,
            scale,
            edge,
            own_style(border, edge),
            own_width(frame, edge),
        ),
{
    let ops = border_ops(frame, scale, border);
    if border.is_uniform(frame) && crate::border::stroke_op(frame, border.top.color) is Some {
        assert(is_stroke(ops[0]));
    }
    let (fa, fb, fc, fd) = (
        fills_of(frame, scale, border, Edge::Top),
        fills_of(frame, scale, border, Edge::Right),
        fills_of(frame, scale, border, Edge::Bottom),
        fills_of(frame, scale, border, Edge::Left),
    );
    let (pa, pb, pc, pd) = (
        patterns_of(frame, scale, border, Edge::Top),
        patterns_of(frame, scale, border, Edge::Right),
        patterns_of(frame, scale, border, Edge::Bottom),
        patterns_of(frame, scale, border, Edge::Left),
    );
    let pieces = fa + fb + fc + fd;
    let patterns = pa + pb + pc + pd;
    lemma_edge_ops(frame, scale, border);
    lemma_own_contributions(frame, scale, border, Edge::Top);
    lemma_own_contributions(frame, scale, border, Edge::Right);
    lemma_own_contributions(frame, scale, border, Edge::Bottom);
    lemma_own_contributions(frame, scale, border, Edge::Left);
    lemma_steps_of_edges(pa, pb, pc, pd);
    assert(ops == four_edges(patterns, pieces));
    assert(has_number_colors(own_style(border, Edge::Top)));
    assert(has_number_colors(own_style(border, Edge::Right)));
    assert(has_number_colors(own_style(border, Edge::Bottom)));
    assert(has_number_colors(own_style(border, Edge::Left)));
    lemma_among(fa, fb, fc, fd);
    lemma_numbers(fa, fb, fc, fd);
    Binary32::lemma_constants(Binary32::zero());
    let (own, at, pattern_at) = match edge {
        Edge::Top => (fa, 0int, 0int),
        Edge::Right => (fb, fa.len() as int, pa.len() as int),
        Edge::Bottom => (fc, (fa.len() + fb.len()) as int, (pa.len() + pb.len()) as int),
        Edge::Left => (
            fd,
            (fa.len() + fb.len() + fc.len()) as int,
            (pa.len() + pb.len() + pc.len()) as int,
        ),
    };
    lemma_edge_is_painted(
        patterns,
        pieces,
        own,
        at,
        frame,
        scale,
        edge,
        own_style(border, edge),
        own_width(frame, edge),
        pattern_at,
    );
}

proof fn lemma_numbers(
    a: Seq<(Color, EdgePiece)>,
    b: Seq<(Color, EdgePiece)>,
    c: Seq<(Color, EdgePiece)>,
    d: Seq<(Color, EdgePiece)>,
)
    requires
        has_numbers(a),
        has_numbers(b),
        has_numbers(c),
        has_numbers(d),
    ensures
        has_numbers(a + b + c + d),
{
    let all = a + b + c + d;
    assert forall|i: int| 0 <= i < all.len() implies is_number((#[trigger] all[i]).0) by {
        let (n, m, l) = (
            a.len() as int,
            (a.len() + b.len()) as int,
            (a.len() + b.len() + c.len()) as int,
        );
        if i < n {
            assert(is_number(a[i].0));
        } else if i < m {
            assert(is_number(b[i - n].0));
        } else if i < l {
            assert(is_number(c[i - m].0));
        } else {
            assert(is_number(d[i - l].0));
        }
    }
}

/// Nothing else is painted: each step of a border that is drawn edge by edge paints an edge that is
/// visible and has a style that paints, a patterned one with dashes or dots in its own colour, and
/// any other with fills.
pub proof fn law_only_visible_edges_are_painted(
    frame: Frame,
    scale: Binary64,
    border: BorderStyles,
    i: int,
)
    requires
        0 <= i < border_ops(frame, scale, border).len(),
        !is_stroke(border_ops(frame, scale, border)[i]),
    ensures
        ({
            let op = border_ops(frame, scale, border)[i];
            let style = own_style(border, edge_of(op)->0);
            &&& edge_of(op) is Some
            &&& !style.color.a.at_most(Binary32::zero())
            &&& !(style.style is Absent) && !(style.style is Hidden)
            &&& op is Dashes <==> style.style is Dashed
            &&& op is Dots <==> style.style is Dotted
            &&& op matches BorderOp::Dashes { color, .. } ==> color == style.color
            &&& op matches BorderOp::Dots { color, .. } ==> color == style.color
        }),
{
    let ops = border_ops(frame, scale, border);
    let (fa, fb, fc, fd) = (
        fills_of(frame, scale, border, Edge::Top),
        fills_of(frame, scale, border, Edge::Right),
        fills_of(frame, scale, border, Edge::Bottom),
        fills_of(frame, scale, border, Edge::Left),
    );
    let (pa, pb, pc, pd) = (
        patterns_of(frame, scale, border, Edge::Top),
        patterns_of(frame, scale, border, Edge::Right),
        patterns_of(frame, scale, border, Edge::Bottom),
        patterns_of(frame, scale, border, Edge::Left),
    );
    let pieces = fa + fb + fc + fd;
    let patterns = pa + pb + pc + pd;
    lemma_edge_ops(frame, scale, border);
    lemma_own_contributions(frame, scale, border, Edge::Top);
    lemma_own_contributions(frame, scale, border, Edge::Right);
    lemma_own_contributions(frame, scale, border, Edge::Bottom);
    lemma_own_contributions(frame, scale, border, Edge::Left);
    lemma_steps_of_edges(pa, pb, pc, pd);
    assert(ops == four_edges(patterns, pieces));
    if i >= patterns.len() {
        let k = lemma_fill_is_a_piece(pieces, i - patterns.len());
        let fill = run_fills(ordered(pieces))[i - patterns.len()];
        assert(ops[i] == BorderOp::Fill { fill });
        let (n, m, l) = (
            fa.len() as int,
            (fa.len() + fb.len()) as int,
            (fa.len() + fb.len() + fc.len()) as int,
        );
        if k < n {
            assert(pieces[k] == fa[k]);
        } else if k < m {
            assert(pieces[k] == fb[k - n]);
        } else if k < l {
            assert(pieces[k] == fc[k - m]);
        } else {
            assert(pieces[k] == fd[k - l]);
        }
    }
}

/// A visible outline in a filled or patterned style other than `solid` shows each of its four edges
/// in that style, in its colour and as wide as the outline; `solid` is one ring; `auto`, `none` and
/// `hidden`, and an outline without a width or without a colour, show nothing.
pub proof fn law_an_outline_is_painted_in_its_style(
    frame: Frame,
    ring: Frame,
    scale: Binary64,
    outline: OutlineStyles,
    edge: Edge,
)
    ensures
        ({
            let ops = outline_ops(frame, ring, scale, outline);
            let shown = !frame.outline_width.at_most(Binary64::zero())
                && !outline.color.a.at_most(Binary32::zero());
            match outline.style {
                OutlineStyle::Auto => ops.len() == 0,
                OutlineStyle::BorderStyle(style) => {
                    let edges = EdgeStyle {
                        style,
                        color: outline.color,
                        contrast: outline.contrast,
                    };
                    &&& !shown || style is Absent || style is Hidden ==> ops.len() == 0
                    &&& shown && style is Solid ==> ops == seq![
                        BorderOp::FillOutline { color: outline.color },
                    ]
                    &&& shown && !(style is Solid) && has_number_colors(edges) ==> is_painted(
                        ops,
                        ring,
                        scale,
                        edge,
                        edges,
                        frame.outline_width,
                    )
                },
            }
        }),
{
    if let OutlineStyle::BorderStyle(style) = outline.style {
        let edges = EdgeStyle { style, color: outline.color, contrast: outline.contrast };
        let w = frame.outline_width;
        let shown = !w.at_most(Binary64::zero()) && !outline.color.a.at_most(Binary32::zero());
        if shown && !(style is Solid) && !(style is Absent) && !(style is Hidden)
            && has_number_colors(edges) {
            let (fa, fb, fc, fd) = (
                crate::border::edge_pieces(Edge::Top, edges, w, scale),
                crate::border::edge_pieces(Edge::Right, edges, w, scale),
                crate::border::edge_pieces(Edge::Bottom, edges, w, scale),
                crate::border::edge_pieces(Edge::Left, edges, w, scale),
            );
            let (pa, pb, pc, pd) = (
                crate::border::patterned_ops(ring, scale, Edge::Top, style, outline.color),
                crate::border::patterned_ops(ring, scale, Edge::Right, style, outline.color),
                crate::border::patterned_ops(ring, scale, Edge::Bottom, style, outline.color),
                crate::border::patterned_ops(ring, scale, Edge::Left, style, outline.color),
            );
            let pieces = fa + fb + fc + fd;
            let patterns = pa + pb + pc + pd;
            lemma_among(fa, fb, fc, fd);
            lemma_numbers(fa, fb, fc, fd);
            assert(outline_ops(frame, ring, scale, outline) == four_edges(patterns, pieces));
            let (own, at, pattern_at) = match edge {
                Edge::Top => (fa, 0int, 0int),
                Edge::Right => (fb, fa.len() as int, pa.len() as int),
                Edge::Bottom => (fc, (fa.len() + fb.len()) as int, (pa.len() + pb.len()) as int),
                Edge::Left => (
                    fd,
                    (fa.len() + fb.len() + fc.len()) as int,
                    (pa.len() + pb.len() + pc.len()) as int,
                ),
            };
            lemma_edge_is_painted(
                patterns,
                pieces,
                own,
                at,
                ring,
                scale,
                edge,
                edges,
                w,
                pattern_at,
            );
        }
    }
}

} // verus!
