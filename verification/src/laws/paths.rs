//! Points along a path, between two points and in the middle of a box; and the dashes of an edge.

use crate::border::Edge;
use crate::edges::{dashed_edge, sample_point, straight_line, walk_after, walk_to, DashLine};
use crate::element::Frame;
use crate::geometry::{Point, Rect};
use crate::ieee::facts::{lemma_rounded_exact, lemma_rounded_monotone};
use crate::ieee::model::{lemma_mag_order, Format};
use crate::ieee::Binary64;
use crate::laws::culling::is_held;
use crate::laws::placement::{lemma_held_difference, lemma_held_sum};
use crate::laws::rings::own_width;
use vstd::prelude::*;

verus! {

/// The lengths of the first `n` segments of a path, added up one after the other.
pub open spec fn way_to(lengths: Seq<Binary64>, n: nat) -> Binary64
    decreases n,
{
    if n == 0 {
        Binary64::zero()
    } else {
        way_to(lengths, (n - 1) as nat).plus(lengths[n - 1])
    }
}

/// Whether all lengths, and the ways that they add up to, are numbers.
pub open spec fn has_ways(lengths: Seq<Binary64>) -> bool {
    forall|n: nat| n <= lengths.len() ==> !(#[trigger] way_to(lengths, n)).nan()
}

/// The distance at which point `i` is to be.
pub open spec fn target(spacing: Binary64, i: int) -> Binary64 {
    Binary64::from_unsigned(i as u64).times(spacing)
}

proof fn lemma_walk(lengths: Seq<Binary64>, at: (nat, Binary64), goal: Binary64)
    requires
        has_ways(lengths),
        lengths.len() > 0,
        at.0 < lengths.len(),
        at.1 == way_to(lengths, at.0),
        at.0 > 0 ==> at.1.below(goal),
        !goal.nan(),
    ensures
        ({
            let (s, w) = walk_to(lengths, at, goal);
            &&& at.0 <= s < lengths.len()
            &&& w == way_to(lengths, s)
            &&& s > 0 ==> w.below(goal)
            &&& s + 1 < lengths.len() ==> !way_to(lengths, s + 1).below(goal)
        }),
    decreases lengths.len() - at.0,
{
    let (s, w) = at;
    assert(way_to(lengths, s + 1) == w.plus(lengths[s as int]));
    if s + 1 < lengths.len() && w.plus(lengths[s as int]).below(goal) {
        lemma_walk(lengths, (s + 1, w.plus(lengths[s as int])), goal);
    }
}

proof fn lemma_targets_rise(spacing: Binary64, i: int, j: int)
    requires
        spacing.finite(),
        spacing.value() >= 0,
        0 <= i <= j <= 0x20_0000_0000_0000,
    ensures
        !target(spacing, i).nan(),
        !target(spacing, j).nan(),
        target(spacing, i).value() <= target(spacing, j).value(),
{
    let f = Format::Double;
    let unit = Binary64::unit() as int;
    let (a, b) = (Binary64::from_unsigned(i as u64), Binary64::from_unsigned(j as u64));
    Binary64::lemma_from_unsigned(i as u64);
    Binary64::lemma_from_unsigned(j as u64);
    Binary64::lemma_constants(a);
    a.lemma_times(spacing);
    b.lemma_times(spacing);
    let s = spacing.value();
    let (m, n) = ((i * unit) * s, (j * unit) * s);
    assert(m <= n && m * unit <= n * unit) by (nonlinear_arith)
        requires
            m == (i * unit) * s,
            n == (j * unit) * s,
            i <= j,
            unit > 0,
            s >= 0,
    {
        assert(i * unit <= j * unit);
        assert((i * unit) * s <= (j * unit) * s);
    }
    lemma_rounded_monotone(f, m, unit as nat, n, unit as nat);
}

/// After so many targets the walk is on the segment that holds the last of them.
proof fn lemma_walked(lengths: Seq<Binary64>, spacing: Binary64, n: nat)
    requires
        has_ways(lengths),
        lengths.len() > 0,
        spacing.finite(),
        spacing.value() >= 0,
        n <= 0x20_0000_0000_0000,
    ensures
        ({
            let (s, w) = walk_after(lengths, spacing, n);
            &&& s < lengths.len()
            &&& w == way_to(lengths, s)
            &&& n > 0 && s > 0 ==> w.below(target(spacing, n - 1))
            &&& n > 0 && s + 1 < lengths.len() ==> !way_to(lengths, s + 1).below(
                target(spacing, n - 1),
            )
            &&& n == 0 ==> s == 0
        }),
    decreases n,
{
    if n > 0 {
        let m = (n - 1) as nat;
        lemma_walked(lengths, spacing, m);
        let (s, w) = walk_after(lengths, spacing, m);
        let goal = target(spacing, n - 1);
        lemma_targets_rise(spacing, n - 1, n - 1);
        if m > 0 {
            lemma_targets_rise(spacing, m - 1, n - 1);
        }
        assert(!way_to(lengths, s).nan());
        lemma_walk(lengths, (s, w), goal);
    }
}

/// Point `i` of those spaced out along a path is on the segment that the distance to it falls in:
/// the segments before it together are shorter than the distance, and with it they are not, unless
/// it is the first or the last; and on the segment it is as far along as is left of the distance,
/// or at an end.
pub proof fn law_points_are_where_their_distance_is(
    poly: Seq<Point>,
    lengths: Seq<Binary64>,
    spacing: Binary64,
    i: int,
) -> (s: int)
    requires
        has_ways(lengths),
        lengths.len() > 0,
        poly.len() == lengths.len() + 1,
        spacing.finite(),
        spacing.value() >= 0,
        0 <= i < 0x20_0000_0000_0000,
    ensures
        0 <= s < lengths.len(),
        s > 0 ==> way_to(lengths, s as nat).below(target(spacing, i)),
        s + 1 < lengths.len() ==> !way_to(lengths, (s + 1) as nat).below(target(spacing, i)),
        ({
            let left = target(spacing, i).minus(way_to(lengths, s as nat));
            let length = lengths[s];
            let t = if Binary64::zero().below(length) {
                left.over(length).clamp(Binary64::zero(), Binary64::one())
            } else {
                Binary64::zero()
            };
            sample_point(poly, lengths, spacing, i) == poly[s].lerp(poly[s + 1], t)
        }),
{
    lemma_walked(lengths, spacing, (i + 1) as nat);
    walk_after(lengths, spacing, (i + 1) as nat).0 as int
}

/// The way from one point to another starts at the one and ends at the other, along each axis on
/// its own.
pub proof fn law_the_way_between_two_points_starts_and_ends_at_them(a: Point, b: Point)
    requires
        a.x.finite() && a.y.finite() && b.x.finite() && b.y.finite(),
        is_held(b.x.value() - a.x.value()),
        is_held(b.y.value() - a.y.value()),
    ensures
        a.lerp(b, Binary64::zero()).x.value() == a.x.value(),
        a.lerp(b, Binary64::zero()).y.value() == a.y.value(),
        a.lerp(b, Binary64::one()).x.value() == b.x.value(),
        a.lerp(b, Binary64::one()).y.value() == b.y.value(),
{
    lemma_way(a.x, b.x);
    lemma_way(a.y, b.y);
}

proof fn lemma_way(a: Binary64, b: Binary64)
    requires
        a.finite(),
        b.finite(),
        is_held(b.value() - a.value()),
    ensures
        a.plus(Binary64::zero().times(b.minus(a))).value() == a.value(),
        a.plus(Binary64::one().times(b.minus(a))).value() == b.value(),
{
    let f = Format::Double;
    let (zero, one) = (Binary64::zero(), Binary64::one());
    let unit = Binary64::unit() as int;
    lemma_held_difference(b, a);
    let d = b.minus(a);
    Binary64::lemma_constants(d);
    Binary64::lemma_constants(a);
    zero.lemma_times(d);
    assert(0 * d.value() == 0) by (nonlinear_arith);
    crate::ieee::facts::lemma_rounded_zero(f, unit as nat);
    let z = zero.times(d);
    Binary64::lemma_constants(z);
    lemma_mag_order(f, f.body(z.bits as nat), f.inf());
    lemma_mag_order(f, 0, f.inf());
    crate::ieee::facts::lemma_value_zero(f, 0);
    assert(is_held(a.value() + z.value())) by {
        assert(a.finite() && a.value() == a.value() + z.value());
    }
    lemma_held_sum(a, z);
    one.lemma_times(d);
    lemma_rounded_exact(f, d.bits as nat, unit as nat);
    assert(unit * d.value() == d.value() * unit) by (nonlinear_arith);
    let w = one.times(d);
    Binary64::lemma_constants(w);
    lemma_mag_order(f, f.body(w.bits as nat), f.inf());
    lemma_mag_order(f, f.body(d.bits as nat), f.inf());
    assert(is_held(a.value() + w.value())) by {
        assert(b.finite() && b.value() == a.value() + w.value());
    }
    lemma_held_sum(a, w);
}

/// The dashes of an edge are as thick as the edge; those of an edge without round corners lie
/// on the line of that edge, and on an edge of at least three CSS pixels they are twice as long
/// as the gaps between them, where nothing is rounded; those of a border with a round corner go
/// around it.
pub proof fn law_dashes_lie_on_their_edge(frame: Frame, scale: Binary64, edge: Edge)
    ensures
        ({
            let width = own_width(frame, edge);
            let thick = Binary64::from_unsigned(3).times(scale).at_most(width);
            let (a, b, length) = straight_line(
                frame.border_box,
                edge,
                width.over(Binary64::two()),
            );
            &&& width.at_most(Binary64::zero()) ==> dashed_edge(frame, scale, edge) is None
            &&& dashed_edge(frame, scale, edge) matches Some(d) ==> {
                &&& d.thickness == width
                &&& frame.has_border_radius ==> d.line is Ring
                &&& !frame.has_border_radius ==> d.line == (DashLine::Straight {
                    start: a,
                    end: b,
                })
                &&& !frame.has_border_radius && thick && d.gap.finite() && is_held(
                    2 * d.gap.value(),
                ) ==> d.dash.value() == 2 * d.gap.value()
            }
            &&& !width.at_most(Binary64::zero()) && !frame.has_border_radius && !length.at_most(
                Binary64::zero(),
            ) ==> dashed_edge(frame, scale, edge) is Some
            &&& !width.at_most(Binary64::zero()) && frame.has_border_radius
                && !frame.centerline_perimeter.at_most(Binary64::zero()) ==> dashed_edge(
                frame,
                scale,
                edge,
            ) is Some
        }),
{
    let f = Format::Double;
    let unit = Binary64::unit() as int;
    let (one, two) = (Binary64::one(), Binary64::two());
    crate::laws::rings::lemma_two_is_two();
    Binary64::lemma_constants(one);
    Binary64::lemma_constants(two);
    let r = two.over(one);
    two.lemma_over(one);
    lemma_rounded_exact(f, two.bits as nat, unit as nat);
    Binary64::lemma_constants(r);
    lemma_mag_order(f, f.body(r.bits as nat), f.inf());
    lemma_mag_order(f, f.body(two.bits as nat), f.inf());
    assert(r.finite() && r.value() == 2 * unit);
    if let Some(d) = dashed_edge(frame, scale, edge) {
        if d.gap.finite() && is_held(2 * d.gap.value()) {
            let x = choose|x: Binary64| x.finite() && #[trigger] x.value() == 2 * d.gap.value();
            Binary64::lemma_constants(x);
            r.lemma_times(d.gap);
            lemma_rounded_exact(f, x.bits as nat, unit as nat);
            assert((2 * unit) * d.gap.value() == (2 * d.gap.value()) * unit) by (nonlinear_arith);
        }
    }
}

/// The middle of a box is as far from one side as from the other, along each axis on its own.
pub proof fn law_the_middle_of_a_box_is_in_its_middle(r: Rect)
    ensures
        r.x0.finite() && r.x1.finite() && is_held(r.x0.value() + r.x1.value()) && (r.x0.value()
            + r.x1.value()) % 2 == 0 && is_held((r.x0.value() + r.x1.value()) / 2) ==> 2
            * r.center().x.value() == r.x0.value() + r.x1.value(),
        r.y0.finite() && r.y1.finite() && is_held(r.y0.value() + r.y1.value()) && (r.y0.value()
            + r.y1.value()) % 2 == 0 && is_held((r.y0.value() + r.y1.value()) / 2) ==> 2
            * r.center().y.value() == r.y0.value() + r.y1.value(),
{
    if r.x0.finite() && r.x1.finite() && is_held(r.x0.value() + r.x1.value()) && (r.x0.value()
        + r.x1.value()) % 2 == 0 && is_held((r.x0.value() + r.x1.value()) / 2) {
        lemma_middle(r.x0, r.x1);
    }
    if r.y0.finite() && r.y1.finite() && is_held(r.y0.value() + r.y1.value()) && (r.y0.value()
        + r.y1.value()) % 2 == 0 && is_held((r.y0.value() + r.y1.value()) / 2) {
        lemma_middle(r.y0, r.y1);
    }
}

proof fn lemma_middle(a: Binary64, b: Binary64)
    requires
        a.finite(),
        b.finite(),
        is_held(a.value() + b.value()),
        (a.value() + b.value()) % 2 == 0,
        is_held((a.value() + b.value()) / 2),
    ensures
        2 * Binary64::half().times(a.plus(b)).value() == a.value() + b.value(),
{
    let f = Format::Double;
    let unit = Binary64::unit() as int;
    let half = Binary64::half();
    let n = a.value() + b.value();
    lemma_held_sum(a, b);
    lemma_half_is_half();
    let m = n / 2;
    let x = choose|x: Binary64| x.finite() && #[trigger] x.value() == m;
    Binary64::lemma_constants(x);
    half.lemma_times(a.plus(b));
    lemma_rounded_exact(f, x.bits as nat, unit as nat);
    let h = half.value();
    assert(h * n == m * unit) by (nonlinear_arith)
        requires
            n == 2 * m,
            unit == 2 * h,
    ;
}

/// One half is half of one.
pub proof fn lemma_half_is_half()
    ensures
        Binary64::half().finite(),
        2 * Binary64::half().value() == Binary64::unit(),
{
    let f = Format::Double;
    reveal(Format::mag);
    let b = Binary64::half().bits as nat;
    assert(f.hidden() == 0x10_0000_0000_0000);
    assert(0x3fe0_0000_0000_0000nat / 0x10_0000_0000_0000 == 1022
        && 0x3fe0_0000_0000_0000nat % 0x10_0000_0000_0000 == 0);
    let p = vstd::arithmetic::power2::pow2(1021) as int;
    assert(f.mag(b) == 0x10_0000_0000_0000 * p);
    vstd::arithmetic::power2::lemma_pow2_adds(53, 1021);
    vstd::arithmetic::power2::lemma2_to64();
    vstd::arithmetic::power2::lemma2_to64_rest();
}

} // verus!
