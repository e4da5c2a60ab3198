//! Dashed and dotted edges.

use crate::border::{dashed_ratios, edge_width, Edge};
use crate::element::{ElementCx, Frame};
use crate::geometry::{Point, Rect};
use crate::ieee::Binary64;
use vstd::prelude::*;

verus! {

/// The line that the dashes of an edge lie on.
#[derive(Clone, Copy, Debug, PartialEq, Eq, Structural)]
pub enum DashLine {
    /// The closed path through the middle of the whole border.
    Ring,
    /// A straight line through the middle of the edge, corner to corner.
    Straight { start: Point, end: Point },
}

/// A dashed edge: its centre line stroked with a dash pattern, clipped to the edge's region.
#[derive(Clone, Copy, Debug, PartialEq, Eq, Structural)]
pub struct DashedEdge {
    pub line: DashLine,
    pub thickness: Binary64,
    pub dash: Binary64,
    pub gap: Binary64,
}

/// Where the dots of an edge are.
#[derive(Clone, Copy, Debug, PartialEq, Eq, Structural)]
pub enum DotRow {
    /// `count` dots, `spacing` apart along the closed path through the middle of the border.
    Ring { spacing: Binary64, count: usize },
    /// One dot, on an edge too short for two.
    Single { center: Point },
    /// A dot in each corner and the others evenly between, `gaps` gaps in all.
    Straight { spacing: Binary64, gaps: usize },
}

/// A dotted edge: filled circles, clipped to the edge's region.
#[derive(Clone, Copy, Debug, PartialEq, Eq, Structural)]
pub struct DottedEdge {
    pub radius: Binary64,
    pub row: DotRow,
}

/// A straight centre line and the length of the edge.
pub open spec fn spec_straight_line(bb: Rect, edge: Edge, half: Binary64) -> (
    Point,
    Point,
    Binary64,
) {
    match edge {
        Edge::Top => (
            Point { x: bb.x0, y: bb.y0.plus(half) },
            Point { x: bb.x1, y: bb.y0.plus(half) },
            bb.width(),
        ),
        Edge::Bottom => (
            Point { x: bb.x0, y: bb.y1.minus(half) },
            Point { x: bb.x1, y: bb.y1.minus(half) },
            bb.width(),
        ),
        Edge::Left => (
            Point { x: bb.x0.plus(half), y: bb.y0 },
            Point { x: bb.x0.plus(half), y: bb.y1 },
            bb.height(),
        ),
        Edge::Right => (
            Point { x: bb.x1.minus(half), y: bb.y0 },
            Point { x: bb.x1.minus(half), y: bb.y1 },
            bb.height(),
        ),
    }
}

/// The straight line through the middle of an edge, and the length of the edge.
#[verifier::when_used_as_spec(spec_straight_line)]
pub fn straight_line(bb: Rect, edge: Edge, half: Binary64) -> (r: (Point, Point, Binary64))
    ensures
        r == spec_straight_line(bb, edge, half),
{
    match edge {
        Edge::Top => (
            Point { x: bb.x0, y: bb.y0.plus(half) },
            Point { x: bb.x1, y: bb.y0.plus(half) },
            bb.width(),
        ),
        Edge::Bottom => (
            Point { x: bb.x0, y: bb.y1.minus(half) },
            Point { x: bb.x1, y: bb.y1.minus(half) },
            bb.width(),
        ),
        Edge::Left => (
            Point { x: bb.x0.plus(half), y: bb.y0 },
            Point { x: bb.x0.plus(half), y: bb.y1 },
            bb.height(),
        ),
        Edge::Right => (
            Point { x: bb.x1.minus(half), y: bb.y0 },
            Point { x: bb.x1.minus(half), y: bb.y1 },
            bb.height(),
        ),
    }
}

/// The nearest whole number of times that `part` goes into `length`, at least one.
pub open spec fn spec_whole_count(length: Binary64, part: Binary64) -> Binary64 {
    length.over(part).round().max(Binary64::one())
}

/// The nearest whole number of times that `part` goes into `length`, at least one.
#[verifier::when_used_as_spec(spec_whole_count)]
pub fn whole_count(length: Binary64, part: Binary64) -> (r: Binary64)
    ensures
        r == spec_whole_count(length, part),
{
    length.over(part).round().max(Binary64::one())
}

/// The dash and the gap around a closed line: in their ratio, with a whole number of periods
/// in the perimeter.
pub open spec fn ring_dashes(
    perimeter: Binary64,
    thickness: Binary64,
    dash_ratio: Binary64,
    gap_ratio: Binary64,
) -> (Binary64, Binary64) {
    let sum = dash_ratio.plus(gap_ratio);
    let period = perimeter.over(whole_count(perimeter, sum.times(thickness)));
    let dash = period.times(dash_ratio).over(sum);
    (dash, period.minus(dash))
}

/// The dash and the gap along a straight line: in their ratio, with a dash at either end.
pub open spec fn straight_dashes(
    length: Binary64,
    thickness: Binary64,
    dash_ratio: Binary64,
    gap_ratio: Binary64,
) -> (Binary64, Binary64) {
    let dash0 = dash_ratio.times(thickness);
    let gap0 = gap_ratio.times(thickness);
    let count = whole_count(length.plus(gap0), dash0.plus(gap0));
    let r = dash_ratio.over(gap_ratio);
    let gap = length.over(count.times(r).plus(count).minus(Binary64::one()));
    (r.times(gap), gap)
}

/// The dashes of an edge; nothing where the edge has no thickness or no length.
pub open spec fn dashed_edge(frame: Frame, scale: Binary64, edge: Edge) -> Option<DashedEdge> {
    let zero = Binary64::zero();
    let thickness = edge_width(frame, edge);
    let (dash_ratio, gap_ratio) = dashed_ratios(thickness, scale);
    if thickness.at_most(zero) {
        None
    } else if frame.has_border_radius {
        let perimeter = frame.centerline_perimeter;
        if perimeter.at_most(zero) {
            None
        } else {
            let (dash, gap) = ring_dashes(perimeter, thickness, dash_ratio, gap_ratio);
            Some(DashedEdge { line: DashLine::Ring, thickness, dash, gap })
        }
    } else {
        let (start, end, length) = straight_line(
            frame.border_box,
            edge,
            thickness.over(Binary64::two()),
        );
        if length.at_most(zero) {
            None
        } else {
            let (dash, gap) = straight_dashes(length, thickness, dash_ratio, gap_ratio);
            Some(DashedEdge { line: DashLine::Straight { start, end }, thickness, dash, gap })
        }
    }
}

/// The length of an edge of a box.
pub open spec fn edge_length(bb: Rect, edge: Edge) -> Binary64 {
    if edge is Top || edge is Bottom {
        bb.width()
    } else {
        bb.height()
    }
}

pub open spec fn spec_dot_center(bb: Rect, edge: Edge, radius: Binary64, along: Binary64) -> Point {
    match edge {
        Edge::Top => Point { x: bb.x0.plus(along), y: bb.y0.plus(radius) },
        Edge::Bottom => Point { x: bb.x0.plus(along), y: bb.y1.minus(radius) },
        Edge::Left => Point { x: bb.x0.plus(radius), y: bb.y0.plus(along) },
        Edge::Right => Point { x: bb.x1.minus(radius), y: bb.y0.plus(along) },
    }
}

/// The centre of a dot at a distance along an edge.
#[verifier::when_used_as_spec(spec_dot_center)]
pub fn dot_center(bb: Rect, edge: Edge, radius: Binary64, along: Binary64) -> (r: Point)
    ensures
        r == spec_dot_center(bb, edge, radius, along),
{
    match edge {
        Edge::Top => Point { x: bb.x0.plus(along), y: bb.y0.plus(radius) },
        Edge::Bottom => Point { x: bb.x0.plus(along), y: bb.y1.minus(radius) },
        Edge::Left => Point { x: bb.x0.plus(radius), y: bb.y0.plus(along) },
        Edge::Right => Point { x: bb.x1.minus(radius), y: bb.y0.plus(along) },
    }
}

/// The dots of an edge; nothing where the edge has no thickness or no length.
pub open spec fn dotted_edge(frame: Frame, edge: Edge) -> Option<DottedEdge> {
    let zero = Binary64::zero();
    let thickness = edge_width(frame, edge);
    let radius = thickness.over(Binary64::two());
    let diameters = Binary64::two().times(thickness);
    if thickness.at_most(zero) {
        None
    } else if frame.has_border_radius {
        let perimeter = frame.centerline_perimeter;
        if perimeter.at_most(zero) {
            None
        } else {
            let count = whole_count(perimeter, diameters);
            Some(
                DottedEdge {
                    radius,
                    row: DotRow::Ring {
                        spacing: perimeter.over(count),
                        count: count.to_unsigned(usize::MAX as u64) as usize,
                    },
                },
            )
        }
    } else {
        let bb = frame.border_box;
        let length = edge_length(bb, edge);
        let span = length.minus(thickness);
        if length.at_most(zero) {
            None
        } else if span.at_most(zero) {
            let along = length.over(Binary64::two());
            Some(
                DottedEdge {
                    radius,
                    row: DotRow::Single { center: dot_center(bb, edge, radius, along) },
                },
            )
        } else {
            let gaps = whole_count(span, diameters).to_unsigned(usize::MAX as u64);
            Some(
                DottedEdge {
                    radius,
                    row: DotRow::Straight {
                        spacing: span.over(Binary64::from_unsigned(gaps)),
                        gaps: gaps as usize,
                    },
                },
            )
        }
    }
}

impl<'a> ElementCx<'a> {
    /// The dashes of a single `dashed` border edge.
    ///
    /// Rounded borders share one centre line and pattern between their edges, so that the
    /// dashes stay aligned as they wrap around each corner. A straight edge starts and ends
    /// with a dash, covering the corners.
    pub fn draw_dashed_border_edge(&self, frame: Frame, edge: Edge) -> (r: Option<DashedEdge>)
        ensures
            r == dashed_edge(frame, self.scale, edge),
    {
        let zero = Binary64::zero();
        let thickness = edge_width(frame, edge);
        if thickness.at_most(zero) {
            return None;
        }
        let (dash_ratio, gap_ratio) = dashed_ratios(thickness, self.scale);
        if frame.has_border_radius {
            let perimeter = frame.centerline_perimeter;
            if perimeter.at_most(zero) {
                return None;
            }
            let sum = dash_ratio.plus(gap_ratio);
            let count = whole_count(perimeter, sum.times(thickness));
            let period = perimeter.over(count);
            let dash = period.times(dash_ratio).over(sum);
            Some(DashedEdge { line: DashLine::Ring, thickness, dash, gap: period.minus(dash) })
        } else {
            let (start, end, length) = straight_line(
                frame.border_box,
                edge,
                thickness.over(Binary64::two()),
            );
            if length.at_most(zero) {
                return None;
            }
            let dash0 = dash_ratio.times(thickness);
            let gap0 = gap_ratio.times(thickness);
            let count = whole_count(length.plus(gap0), dash0.plus(gap0));
            let r = dash_ratio.over(gap_ratio);
            let gap = length.over(count.times(r).plus(count).minus(Binary64::one()));
            Some(
                DashedEdge {
                    line: DashLine::Straight { start, end },
                    thickness,
                    dash: r.times(gap),
                    gap,
                },
            )
        }
    }

    /// The dots of a single `dotted` border edge.
    ///
    /// Around rounded corners the dots are spaced evenly along the centre line. A straight
    /// edge has a dot in each corner and the rest spread evenly between them.
    pub fn draw_dotted_border_edge(&self, frame: Frame, edge: Edge) -> (r: Option<DottedEdge>)
        ensures
            r == dotted_edge(frame, edge),
    {
        let zero = Binary64::zero();
        let thickness = edge_width(frame, edge);
        if thickness.at_most(zero) {
            return None;
        }
        let radius = thickness.over(Binary64::two());
        let diameters = Binary64::two().times(thickness);
        if frame.has_border_radius {
            let perimeter = frame.centerline_perimeter;
            if perimeter.at_most(zero) {
                return None;
            }
            let count = whole_count(perimeter, diameters);
            let dots: u64 = count.to_unsigned(usize::MAX as u64);
            Some(
                DottedEdge {
                    radius,
                    row: DotRow::Ring { spacing: perimeter.over(count), count: dots as usize },
                },
            )
        } else {
            let bb = frame.border_box;
            let length = match edge {
                Edge::Top | Edge::Bottom => bb.width(),
                Edge::Left | Edge::Right => bb.height(),
            };
            if length.at_most(zero) {
                return None;
            }
            let span = length.minus(thickness);
            if span.at_most(zero) {
                let center = dot_center(bb, edge, radius, length.over(Binary64::two()));
                Some(DottedEdge { radius, row: DotRow::Single { center } })
            } else {
                let gaps: u64 = whole_count(span, diameters).to_unsigned(usize::MAX as u64);
                let spacing = span.over(Binary64::from_unsigned(gaps));
                Some(DottedEdge { radius, row: DotRow::Straight { spacing, gaps: gaps as usize } })
            }
        }
    }
}

/// The centres of the dots of a straight edge.
pub open spec fn straight_centers(
    bb: Rect,
    edge: Edge,
    radius: Binary64,
    spacing: Binary64,
    gaps: nat,
) -> Seq<Point> {
    Seq::new(
        gaps + 1,
        |i: int|
            dot_center(
                bb,
                edge,
                radius,
                radius.plus(Binary64::from_unsigned(i as u64).times(spacing)),
            ),
    )
}

/// The centres of the dots of a straight edge, from one corner to the other.
pub fn straight_dots(
    bb: Rect,
    edge: Edge,
    radius: Binary64,
    spacing: Binary64,
    gaps: usize,
) -> (r: Vec<Point>)
    requires
        gaps < usize::MAX,
    ensures
        r@ == straight_centers(bb, edge, radius, spacing, gaps as nat),
{
    let mut r: Vec<Point> = Vec::new();
    let mut i: usize = 0;
    while i <= gaps
        invariant
            i <= gaps + 1,
            gaps < usize::MAX,
            r@ == straight_centers(bb, edge, radius, spacing, gaps as nat).take(i as int),
        decreases gaps + 1 - i,
    {
        let along = radius.plus(Binary64::from_unsigned(i as u64).times(spacing));
        r.push(dot_center(bb, edge, radius, along));
        assert(r@ =~= straight_centers(bb, edge, radius, spacing, gaps as nat).take(i + 1));
        i = i + 1;
    }
    assert(r@ =~= straight_centers(bb, edge, radius, spacing, gaps as nat));
    r
}

/// A walk along a polyline moved on to the segment that holds `target`, or to the last one.
/// A walk is the segment it is on and the length of those before.
pub open spec fn walk_to(lengths: Seq<Binary64>, at: (nat, Binary64), target: Binary64) -> (
    nat,
    Binary64,
)
    decreases lengths.len() - at.0,
{
    let (segment, walked) = at;
    if segment + 1 < lengths.len() && walked.plus(lengths[segment as int]).below(target) {
        walk_to(lengths, (segment + 1, walked.plus(lengths[segment as int])), target)
    } else {
        at
    }
}

/// The walk after `n` targets.
pub open spec fn walk_after(lengths: Seq<Binary64>, spacing: Binary64, n: nat) -> (nat, Binary64)
    decreases n,
{
    if n == 0 {
        (0, Binary64::zero())
    } else {
        walk_to(
            lengths,
            walk_after(lengths, spacing, (n - 1) as nat),
            Binary64::from_unsigned((n - 1) as u64).times(spacing),
        )
    }
}

/// The point on a segment at a distance from where the segment starts.
pub open spec fn point_on(from: Point, to: Point, length: Binary64, along: Binary64) -> Point {
    let t = if Binary64::zero().below(length) {
        along.over(length).clamp(Binary64::zero(), Binary64::one())
    } else {
        Binary64::zero()
    };
    from.lerp(to, t)
}

/// Point `i` of `count` along a polyline.
pub open spec fn sample_point(
    poly: Seq<Point>,
    lengths: Seq<Binary64>,
    spacing: Binary64,
    i: int,
) -> Point {
    let (segment, walked) = walk_after(lengths, spacing, (i + 1) as nat);
    let target = Binary64::from_unsigned(i as u64).times(spacing);
    point_on(
        poly[segment as int],
        poly[segment as int + 1],
        lengths[segment as int],
        target.minus(walked),
    )
}

/// `count` points spaced `spacing` apart, by arc length, along a polyline whose segments have
/// the given lengths, starting at its beginning. A polyline without a segment has none.
pub fn sample_points_along_path(
    poly: &Vec<Point>,
    lengths: &Vec<Binary64>,
    spacing: Binary64,
    count: usize,
) -> (r: Vec<Point>)
    requires
        poly@.len() >= 2 ==> lengths@.len() + 1 == poly@.len(),
    ensures
        poly@.len() < 2 ==> r@ == Seq::<Point>::empty(),
        poly@.len() >= 2 ==> r@ == Seq::new(
            count as nat,
            |i: int| sample_point(poly@, lengths@, spacing, i),
        ),
{
    let mut points: Vec<Point> = Vec::new();
    let total: usize = poly.len();
    if total < 2 {
        return points;
    }
    let zero = Binary64::zero();
    let one = Binary64::one();
    proof {
        Binary64::lemma_constants(zero);
    }
    let ghost all = Seq::new(count as nat, |i: int| sample_point(poly@, lengths@, spacing, i));
    let last: usize = lengths.len() - 1;
    let mut seg: usize = 0;
    let mut seg_start = zero;
    let mut seg_len = lengths[0];
    let mut i: usize = 0;
    while i < count
        invariant
            i <= count,
            total == poly@.len(),
            total == lengths@.len() + 1,
            last + 1 == lengths@.len(),
            seg <= last,
            seg_len == lengths@[seg as int],
            zero == Binary64::zero(),
            one == Binary64::one(),
            zero.at_most(one),
            walk_after(lengths@, spacing, i as nat) == (seg as nat, seg_start),
            all == Seq::new(count as nat, |i: int| sample_point(poly@, lengths@, spacing, i)),
            points@ == all.take(i as int),
        decreases count - i,
    {
        let target = Binary64::from_unsigned(i as u64).times(spacing);
        let ghost begin = (seg as nat, seg_start);
        while seg < last && seg_start.plus(seg_len).below(target)
            invariant
                last + 1 == lengths@.len(),
                seg <= last,
                seg_len == lengths@[seg as int],
                walk_to(lengths@, begin, target) == walk_to(
                    lengths@,
                    (seg as nat, seg_start),
                    target,
                ),
            decreases last - seg,
        {
            seg_start = seg_start.plus(seg_len);
            seg = seg + 1;
            seg_len = lengths[seg];
        }
        let t = if zero.below(seg_len) {
            target.minus(seg_start).over(seg_len).clamp(zero, one)
        } else {
            zero
        };
        points.push(poly[seg].lerp(poly[seg + 1], t));
        assert(walk_after(lengths@, spacing, (i + 1) as nat) == (seg as nat, seg_start));
        assert(points@ =~= all.take(i + 1));
        i = i + 1;
    }
    assert(all.take(count as int) =~= all);
    points
}

} // verus!
