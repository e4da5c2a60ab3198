use blitz_paint::border::{
    beveled_edge_color, brightest, darken, dashed_ratios, edge_width, grooved_edge_colors,
    is_bright, is_exact_corner, lighten, min_contrast_ratio, BorderOp, BorderStyle, BorderStyles,
    CircularRadii, Edge, EdgeStyle, OutlineStyle, OutlineStyles,
};
use blitz_paint::color::Color;
use blitz_paint::edges::{
    sample_points_along_path, straight_dots, DashLine, DashedEdge, DotRow, DottedEdge,
};
use blitz_paint::element::{CornerRadii, CornerRadius, ElementCx, Frame, Surface, TreeNode};
use blitz_paint::geometry::{Insets, Point, Rect};
use blitz_paint::ieee::{Binary32, Binary64};
use blitz_paint::outline::{outline_boxes, outline_side};
use blitz_paint::pieces::{precedes, EdgePiece, Slice};

fn d(x: f64) -> Binary64 {
    Binary64::from_bits(x.to_bits())
}

fn v(x: Binary64) -> f64 {
    f64::from_bits(x.bits)
}

fn s(x: f32) -> Binary32 {
    Binary32::from_bits(x.to_bits())
}

fn rgba(r: f32, g: f32, b: f32, a: f32) -> Color {
    Color { r: s(r), g: s(g), b: s(b), a: s(a) }
}

fn components(c: Color) -> [f32; 4] {
    [c.r, c.g, c.b, c.a].map(|x| f32::from_bits(x.bits))
}

fn rect(x0: f64, y0: f64, x1: f64, y1: f64) -> Rect {
    Rect { x0: d(x0), y0: d(y0), x1: d(x1), y1: d(y1) }
}

fn point(p: Point) -> (f64, f64) {
    (v(p.x), v(p.y))
}

/// A frame with a border of one width, and corners of one radius.
fn frame(outer: Rect, width: f64, radius: f64) -> Frame {
    let corner = CornerRadius { x: d(radius), y: d(radius) };
    let padding = outer.shrunk(d(width));
    Frame {
        border_box: outer,
        padding_box: padding,
        content_box: padding,
        border_width: Insets { x0: d(width), y0: d(width), x1: d(width), y1: d(width) },
        border_radii: CornerRadii {
            top_left: corner,
            top_right: corner,
            bottom_right: corner,
            bottom_left: corner,
        },
        outline_width: d(0.0),
        is_uniform_corner_border: true,
        is_elliptical_border: false,
        has_border_radius: radius > 0.0,
        centerline_perimeter: d(0.0),
    }
}

fn with_cx<T>(frame: Frame, scale: f64, f: impl Fn(&ElementCx<'_>) -> T) -> T {
    let nodes: Vec<Option<TreeNode>> = Vec::new();
    f(&ElementCx {
        nodes: &nodes,
        node: 0,
        frame,
        scale: d(scale),
        surface: Surface { width: 100, height: 100, initial_x: d(0.0), initial_y: d(0.0) },
    })
}

fn edge_style(style: BorderStyle, color: Color) -> EdgeStyle {
    EdgeStyle { style, color, contrast: s(21.0) }
}

fn all_edges(style: BorderStyle, color: Color) -> BorderStyles {
    let edge = edge_style(style, color);
    BorderStyles { top: edge, right: edge, bottom: edge, left: edge }
}

fn draw(frame: Frame, scale: f64, border: BorderStyles) -> Vec<BorderOp> {
    with_cx(frame, scale, |cx| cx.draw_border(border))
}

/// The fills of a border, as colour, piece and whether it joins the one before.
fn fills(ops: &[BorderOp]) -> Vec<(Color, Edge, Slice, bool)> {
    ops.iter()
        .map(|op| match op {
            BorderOp::Fill { fill } => {
                (fill.color, fill.piece.edge, fill.piece.slice, fill.joined)
            }
            other => panic!("{other:?} is no fill"),
        })
        .collect()
}

const EDGES: [Edge; 4] = [Edge::Top, Edge::Right, Edge::Bottom, Edge::Left];

#[test]
fn shades_follow_the_brightest_channel() {
    let [r, g, b, a] = [0.8f32, 0.4, 0.2, 0.5];
    let m = (r - 0.33) / r;
    assert_eq!(components(darken(rgba(r, g, b, a))), [r * m, g * m, b * m, a]);
    let m = (r + 0.33f32).min(1.0) / r;
    assert_eq!(components(lighten(rgba(r, g, b, a))), [r * m, g * m, b * m, a]);
    assert_eq!(f32::from_bits(brightest(rgba(0.1, 0.7, 0.3, 1.0)).bits), 0.7);
    // A colour darker than the step goes to black, and black stays black.
    assert_eq!(components(darken(rgba(0.25, 0.1, 0.0, 1.0))), [0.0, 0.0, 0.0, 1.0]);
    assert_eq!(components(darken(rgba(0.0, 0.0, 0.0, 1.0))), [0.0, 0.0, 0.0, 1.0]);
    // Pure black lightens to a fixed dark grey.
    assert_eq!(components(lighten(rgba(0.0, 0.0, 0.0, 0.5))), [0.33, 0.33, 0.33, 0.5]);
}

#[test]
fn shading_never_brightens_and_keeps_alpha() {
    for i in 0..=20 {
        for j in 0..=20 {
            let color = rgba(i as f32 / 20.0, j as f32 / 20.0, 0.35, 0.25);
            let dark = components(darken(color));
            let base = components(color);
            assert!((0..3).all(|k| 0.0 <= dark[k] && dark[k] <= base[k]));
            assert_eq!(dark[3], 0.25);
            assert_eq!(components(lighten(color))[3], 0.25);
        }
    }
}

#[test]
fn bevels_darken_one_pair_of_edges() {
    let bright = rgba(0.8, 0.4, 0.2, 1.0);
    for edge in EDGES {
        let top_or_left = matches!(edge, Edge::Top | Edge::Left);
        let inset = beveled_edge_color(bright, s(1.0), edge, true);
        let outset = beveled_edge_color(bright, s(1.0), edge, false);
        let dark = darken(bright);
        assert_eq!(inset, if top_or_left { dark } else { bright });
        assert_eq!(outset, if top_or_left { bright } else { dark });
        assert_eq!(grooved_edge_colors(bright, s(1.0), edge, false), (inset, outset));
        assert_eq!(grooved_edge_colors(bright, s(1.0), edge, true), (outset, inset));
    }
}

#[test]
fn dark_bevels_are_lightened_where_contrast_is_wanting() {
    let dark = rgba(0.2, 0.1, 0.9, 1.0);
    assert!(!is_bright(dark));
    assert_eq!(f32::from_bits(min_contrast_ratio().bits), 1.75);
    let outset = |contrast: f32| beveled_edge_color(dark, s(contrast), Edge::Top, false);
    assert_eq!(outset(1.74), lighten(dark));
    assert_eq!(outset(1.75), dark);
    assert_eq!(outset(3.0), dark);
    // For bright colours the contrast is not looked at.
    for bright in [rgba(150.0 / 255.0, 0.0, 0.0, 1.0), rgba(0.0, 92.0 / 255.0, 0.0, 1.0)] {
        assert!(is_bright(bright));
        assert_eq!(beveled_edge_color(bright, s(1.0), Edge::Top, false), bright);
    }
}

#[test]
fn dashes_are_longer_on_thin_borders() {
    let ratios = |thickness: f64, scale: f64| {
        let (dash, gap) = dashed_ratios(d(thickness), d(scale));
        (v(dash), v(gap))
    };
    assert_eq!(ratios(3.0, 1.0), (2.0, 1.0));
    assert_eq!(ratios(2.99, 1.0), (3.0, 2.0));
    assert_eq!(ratios(4.0, 2.0), (3.0, 2.0));
    assert_eq!(ratios(6.0, 2.0), (2.0, 1.0));
}

#[test]
fn each_edge_has_its_width() {
    let mut frame = frame(rect(0.0, 0.0, 10.0, 10.0), 1.0, 0.0);
    frame.border_width = Insets { x0: d(1.0), y0: d(2.0), x1: d(3.0), y1: d(4.0) };
    let widths: Vec<f64> = EDGES.iter().map(|e| v(edge_width(frame, *e))).collect();
    assert_eq!(widths, [2.0, 3.0, 4.0, 1.0]);
    assert_eq!(with_cx(frame, 1.0, |cx| v(cx.edge_width(Edge::Bottom))), 4.0);
}

#[test]
fn a_uniform_solid_border_is_one_stroke() {
    let red = rgba(1.0, 0.0, 0.0, 1.0);
    let solid = all_edges(BorderStyle::Solid, red);
    let stroke = |radius: f64| {
        let ops = draw(frame(rect(0.0, 0.0, 100.0, 50.0), 4.0, radius), 1.0, solid);
        match ops.as_slice() {
            [BorderOp::StrokeRoundedRect { color, width, rect, radii }] => {
                assert_eq!((*color, v(*width)), (red, 4.0));
                assert_eq!([v(rect.x0), v(rect.y0), v(rect.x1), v(rect.y1)], [2.0, 2.0, 98.0, 48.0]);
                v(radii.top_left)
            }
            other => panic!("{other:?}"),
        }
    };
    assert_eq!(stroke(0.0), 0.0);
    assert_eq!(stroke(10.0), 8.0);
    assert_eq!(stroke(4.0), 2.0);
    let radii = CircularRadii {
        top_left: d(8.0),
        top_right: d(8.0),
        bottom_right: d(8.0),
        bottom_left: d(8.0),
    };
    let ops = draw(frame(rect(0.0, 0.0, 100.0, 50.0), 4.0, 10.0), 1.0, solid);
    let want = BorderOp::StrokeRoundedRect {
        color: red,
        width: d(4.0),
        rect: rect(2.0, 2.0, 98.0, 48.0),
        radii,
    };
    assert_eq!(ops, [want]);
    // A radius under the width has a sharp inner corner that no stroke has.
    let corner = |x: f64| CornerRadius { x: d(x), y: d(x) };
    assert!(is_exact_corner(corner(0.0), d(4.0)) && is_exact_corner(corner(4.0), d(4.0)));
    assert!(!is_exact_corner(corner(2.0), d(4.0)));
    let ops = draw(frame(rect(0.0, 0.0, 100.0, 50.0), 4.0, 2.0), 1.0, solid);
    assert_eq!(
        fills(&ops),
        [
            (red, Edge::Top, Slice::Whole, false),
            (red, Edge::Right, Slice::Whole, true),
            (red, Edge::Bottom, Slice::Whole, true),
            (red, Edge::Left, Slice::Whole, true),
        ]
    );
}

#[test]
fn a_full_ellipse_is_stroked_as_one() {
    let red = rgba(1.0, 0.0, 0.0, 1.0);
    let mut frame = frame(rect(0.0, 0.0, 100.0, 50.0), 4.0, 50.0);
    frame.is_uniform_corner_border = false;
    frame.is_elliptical_border = true;
    let ops = draw(frame, 1.0, all_edges(BorderStyle::Solid, red));
    let want = BorderOp::StrokeEllipse {
        color: red,
        width: d(4.0),
        center: Point { x: d(50.0), y: d(25.0) },
        rx: d(48.0),
        ry: d(23.0),
    };
    assert_eq!(ops, [want]);
}

#[test]
fn a_border_that_varies_is_drawn_edge_by_edge() {
    let (red, blue) = (rgba(1.0, 0.0, 0.0, 1.0), rgba(0.0, 0.0, 1.0, 1.0));
    let outer = frame(rect(0.0, 0.0, 100.0, 50.0), 4.0, 0.0);
    let mut border = all_edges(BorderStyle::Solid, red);
    border.left.color = blue;
    // Blue has less red, so it is filled first.
    assert_eq!(
        fills(&draw(outer, 1.0, border)),
        [
            (blue, Edge::Left, Slice::Whole, false),
            (red, Edge::Top, Slice::Whole, false),
            (red, Edge::Right, Slice::Whole, true),
            (red, Edge::Bottom, Slice::Whole, true),
        ]
    );
    // Widths that vary rule the stroke out too.
    let mut uneven = outer;
    uneven.border_width.x0 = d(5.0);
    assert_eq!(draw(uneven, 1.0, all_edges(BorderStyle::Solid, red)).len(), 4);
    // Patterned edges come first, in their order.
    border.right = edge_style(BorderStyle::Dotted, blue);
    border.bottom = edge_style(BorderStyle::Dashed, red);
    let ops = draw(outer, 1.0, border);
    assert!(matches!(ops[0], BorderOp::Dots { edge: Edge::Right, color, .. } if color == blue));
    assert!(matches!(ops[1], BorderOp::Dashes { edge: Edge::Bottom, color, .. } if color == red));
    assert_eq!(fills(&ops[2..]).len(), 2);
}

#[test]
fn invisible_edges_are_not_drawn() {
    let outer = frame(rect(0.0, 0.0, 100.0, 50.0), 4.0, 0.0);
    let red = rgba(1.0, 0.0, 0.0, 1.0);
    for style in [BorderStyle::Absent, BorderStyle::Hidden] {
        assert!(draw(outer, 1.0, all_edges(style, red)).is_empty());
    }
    let clear = rgba(1.0, 0.0, 0.0, 0.0);
    for style in [BorderStyle::Solid, BorderStyle::Dashed, BorderStyle::Groove] {
        assert!(draw(outer, 1.0, all_edges(style, clear)).is_empty());
    }
}

#[test]
fn a_thin_double_border_is_solid() {
    let red = rgba(1.0, 0.0, 0.0, 1.0);
    let slice = |width: f64, scale: f64| {
        let outer = frame(rect(0.0, 0.0, 100.0, 50.0), width, 0.0);
        fills(&draw(outer, scale, all_edges(BorderStyle::Double, red)))[0].2
    };
    assert_eq!(slice(3.0, 1.0), Slice::OuterAndInnerThird);
    assert_eq!(slice(2.5, 1.0), Slice::Whole);
    assert_eq!(slice(5.0, 2.0), Slice::Whole);
}

#[test]
fn grooves_fill_each_shade_once() {
    let base = rgba(0.8, 0.4, 0.2, 1.0);
    let dark = darken(base);
    let outer = frame(rect(0.0, 0.0, 100.0, 50.0), 4.0, 0.0);
    let groove = fills(&draw(outer, 1.0, all_edges(BorderStyle::Groove, base)));
    assert_eq!(groove.len(), 8, "two halves of four edges");
    assert!(precedes(dark, base) && !precedes(base, dark) && !precedes(base, base));
    let halves = |color: Color, list: &[(Color, Edge, Slice, bool)]| -> Vec<(Edge, Slice)> {
        list.iter().filter(|p| p.0 == color).map(|p| (p.1, p.2)).collect()
    };
    assert_eq!(
        halves(dark, &groove),
        [
            (Edge::Top, Slice::OuterHalf),
            (Edge::Right, Slice::InnerHalf),
            (Edge::Bottom, Slice::InnerHalf),
            (Edge::Left, Slice::OuterHalf),
        ]
    );
    let joined: Vec<bool> = groove.iter().map(|p| p.3).collect();
    assert_eq!(joined, [false, true, true, true, false, true, true, true]);
    // A ridge is the groove with its halves exchanged.
    let ridge = fills(&draw(outer, 1.0, all_edges(BorderStyle::Ridge, base)));
    assert_eq!(
        halves(base, &ridge),
        [
            (Edge::Top, Slice::OuterHalf),
            (Edge::Right, Slice::InnerHalf),
            (Edge::Bottom, Slice::InnerHalf),
            (Edge::Left, Slice::OuterHalf),
        ]
    );
    let inset = fills(&draw(outer, 1.0, all_edges(BorderStyle::Inset, base)));
    let outset = fills(&draw(outer, 1.0, all_edges(BorderStyle::Outset, base)));
    assert_eq!(halves(dark, &inset), [(Edge::Top, Slice::Whole), (Edge::Left, Slice::Whole)]);
    assert_eq!(halves(dark, &outset), [(Edge::Right, Slice::Whole), (Edge::Bottom, Slice::Whole)]);
    let piece = EdgePiece { edge: Edge::Top, slice: Slice::Whole };
    assert_eq!((piece.edge, piece.slice), (inset[0].1, inset[0].2));
}

#[test]
fn dashes_fit_the_edge() {
    let dashes = |frame: Frame, edge: Edge| -> Option<DashedEdge> {
        with_cx(frame, 1.0, |cx| cx.draw_dashed_border_edge(frame, edge))
    };
    let straight = frame(rect(0.0, 0.0, 100.0, 50.0), 4.0, 0.0);
    let top = dashes(straight, Edge::Top).unwrap();
    // Nine dashes of eight pixels and eight gaps of half that, to scale.
    assert_eq!(v(top.gap), 100.0 / (9.0 * 2.0 + 9.0 - 1.0));
    assert_eq!(v(top.dash), 2.0 * v(top.gap));
    assert_eq!(v(top.thickness), 4.0);
    match top.line {
        DashLine::Straight { start, end } => {
            assert_eq!((point(start), point(end)), ((0.0, 2.0), (100.0, 2.0)));
        }
        DashLine::Ring => panic!("the edge is straight"),
    }
    let right = dashes(straight, Edge::Right).unwrap();
    match right.line {
        DashLine::Straight { start, end } => {
            assert_eq!((point(start), point(end)), ((98.0, 0.0), (98.0, 50.0)));
        }
        DashLine::Ring => panic!("the edge is straight"),
    }
    // A whole number of periods fits around a rounded border.
    let mut rounded = frame(rect(0.0, 0.0, 100.0, 50.0), 4.0, 10.0);
    rounded.centerline_perimeter = d(250.0);
    let ring = dashes(rounded, Edge::Left).unwrap();
    assert_eq!(ring.line, DashLine::Ring);
    let period = 250.0 / 21.0;
    assert_eq!(v(ring.dash), period * 2.0 / 3.0);
    assert_eq!(v(ring.gap), period - period * 2.0 / 3.0);
    // Nothing to draw.
    assert_eq!(dashes(frame(rect(0.0, 0.0, 100.0, 50.0), 0.0, 0.0), Edge::Top), None);
    assert_eq!(dashes(frame(rect(0.0, 0.0, 0.0, 50.0), 4.0, 0.0), Edge::Top), None);
    rounded.centerline_perimeter = d(0.0);
    assert_eq!(dashes(rounded, Edge::Top), None);
}

#[test]
fn dots_are_anchored_in_the_corners() {
    let dots = |frame: Frame, edge: Edge| -> Option<DottedEdge> {
        with_cx(frame, 1.0, |cx| cx.draw_dotted_border_edge(frame, edge))
    };
    let bb = rect(0.0, 0.0, 100.0, 50.0);
    let straight = frame(bb, 4.0, 0.0);
    let bottom = dots(straight, Edge::Bottom).unwrap();
    assert_eq!(v(bottom.radius), 2.0);
    assert_eq!(bottom.row, DotRow::Straight { spacing: d(8.0), gaps: 12 });
    let centers = straight_dots(bb, Edge::Bottom, bottom.radius, d(8.0), 12);
    assert_eq!(centers.len(), 13);
    assert_eq!(point(centers[0]), (2.0, 48.0));
    assert_eq!(point(centers[1]), (10.0, 48.0));
    assert_eq!(point(centers[12]), (98.0, 48.0));
    let left = straight_dots(bb, Edge::Left, d(2.0), d(7.5), 1);
    assert_eq!((point(left[0]), point(left[1])), ((2.0, 2.0), (2.0, 9.5)));
    // Too short for two.
    let short = frame(rect(0.0, 0.0, 3.0, 50.0), 4.0, 0.0);
    let center = Point { x: d(1.5), y: d(2.0) };
    assert_eq!(dots(short, Edge::Top).unwrap().row, DotRow::Single { center });
    // Around rounded corners they are evenly spaced.
    let mut rounded = frame(bb, 4.0, 10.0);
    rounded.centerline_perimeter = d(250.0);
    let ring = dots(rounded, Edge::Top).unwrap();
    assert_eq!(ring.row, DotRow::Ring { spacing: d(250.0 / 31.0), count: 31 });
    assert_eq!(dots(frame(bb, 0.0, 0.0), Edge::Top), None);
}

#[test]
fn points_are_sampled_by_arc_length() {
    let poly: Vec<Point> = [(0.0, 0.0), (3.0, 4.0), (3.0, 4.0), (3.0, 14.0)]
        .iter()
        .map(|(x, y)| Point { x: d(*x), y: d(*y) })
        .collect();
    let lengths = vec![d(5.0), d(0.0), d(10.0)];
    let sample = |spacing: f64, count: usize| -> Vec<(f64, f64)> {
        sample_points_along_path(&poly, &lengths, d(spacing), count)
            .into_iter()
            .map(point)
            .collect()
    };
    assert_eq!(sample(2.5, 5), [(0.0, 0.0), (1.5, 2.0), (3.0, 4.0), (3.0, 6.5), (3.0, 9.0)]);
    // Past the end the last point is repeated.
    assert_eq!(sample(10.0, 3), [(0.0, 0.0), (3.0, 9.0), (3.0, 14.0)]);
    assert!(sample(1.0, 0).is_empty());
    let lone = vec![Point { x: d(1.0), y: d(1.0) }];
    assert!(sample_points_along_path(&lone, &Vec::new(), d(1.0), 9).is_empty());
}

const SIZE: u32 = 100;
/// The element under the outline spans `[20, 80)` on both axes.
const BOX_START: i32 = 20;
const BOX_END: i32 = 80;
const OUTLINE_WIDTH: i32 = 4;
const MID: u32 = 50;

/// What an outline of the element paints.
struct Outline {
    outer: kurbo::Rect,
    inner: kurbo::Rect,
    ops: Vec<BorderOp>,
}

fn outline(style: BorderStyle, offset: i32) -> Outline {
    let (lo, hi) = (BOX_START as f64, BOX_END as f64);
    let width = d(OUTLINE_WIDTH as f64);
    let border_box = rect(lo, lo, hi, hi);
    let (outer, inner) = outline_boxes(border_box, d(offset as f64), width);
    let mut element = frame(border_box, 0.0, 0.0);
    element.outline_width = width;
    let ring = frame(outer, OUTLINE_WIDTH as f64, 0.0);
    assert_eq!(ring.padding_box, inner);
    let styles = OutlineStyles {
        style: OutlineStyle::BorderStyle(style),
        color: rgba(1.0, 0.0, 0.0, 1.0),
        contrast: s(21.0),
    };
    let ops = with_cx(element, 1.0, |cx| cx.draw_outline(styles, ring));
    let to_kurbo = |r: Rect| kurbo::Rect::new(v(r.x0), v(r.y0), v(r.x1), v(r.y1));
    Outline { outer: to_kurbo(outer), inner: to_kurbo(inner), ops }
}

impl Outline {
    fn is_ring(&self, x: u32, y: u32) -> bool {
        let p = kurbo::Point::new(x as f64 + 0.5, y as f64 + 0.5);
        self.outer.contains(p)
            && !self.inner.contains(p)
            && self.ops.iter().any(|op| self.paints(op, p))
    }

    /// How far a point is from an edge of the ring, where that edge is the nearest one.
    fn depth(&self, edge: Edge, p: kurbo::Point) -> Option<f64> {
        let from = |edge: Edge| match edge {
            Edge::Top => p.y - self.outer.y0,
            Edge::Right => self.outer.x1 - p.x,
            Edge::Bottom => self.outer.y1 - p.y,
            Edge::Left => p.x - self.outer.x0,
        };
        let depth = from(edge);
        EDGES.iter().all(|e| depth <= from(*e)).then_some(depth)
    }

    fn paints(&self, op: &BorderOp, p: kurbo::Point) -> bool {
        let width = OUTLINE_WIDTH as f64;
        match op {
            BorderOp::FillOutline { .. } => true,
            BorderOp::Dashes { edge, dashes, .. } => {
                let DashLine::Straight { start, .. } = dashes.line else {
                    return false;
                };
                let along = match edge {
                    Edge::Top | Edge::Bottom => p.x - v(start.x),
                    Edge::Left | Edge::Right => p.y - v(start.y),
                };
                let period = v(dashes.dash) + v(dashes.gap);
                self.depth(*edge, p).is_some() && along % period < v(dashes.dash)
            }
            BorderOp::Dots { edge, dots, .. } => {
                let DotRow::Straight { spacing, gaps } = dots.row else {
                    return false;
                };
                let outer = rect(self.outer.x0, self.outer.y0, self.outer.x1, self.outer.y1);
                self.depth(*edge, p).is_some()
                    && straight_dots(outer, *edge, dots.radius, spacing, gaps).iter().any(|c| {
                        (p.x - v(c.x)).hypot(p.y - v(c.y)) <= v(dots.radius)
                    })
            }
            BorderOp::Fill { fill } => match self.depth(fill.piece.edge, p) {
                Some(depth) => match fill.piece.slice {
                    Slice::Whole => true,
                    Slice::OuterAndInnerThird => {
                        depth < width / 3.0 || depth >= 2.0 * width / 3.0
                    }
                    Slice::OuterHalf => depth < width / 2.0,
                    Slice::InnerHalf => depth >= width / 2.0,
                },
                None => false,
            },
            other => panic!("{other:?}"),
        }
    }

    fn ring_columns(&self, y: u32) -> Vec<i32> {
        (0..SIZE).filter(|x| self.is_ring(*x, y)).map(|x| x as i32).collect()
    }
}

/// The columns the ring must cover on a row that crosses only its left and right sides.
fn expected_columns(offset: i32) -> Vec<i32> {
    let left_inner = BOX_START - offset;
    let right_inner = BOX_END + offset;
    (left_inner - OUTLINE_WIDTH..left_inner)
        .chain(right_inner..right_inner + OUTLINE_WIDTH)
        .collect()
}

#[test]
fn a_solid_outline_sits_at_its_offset() {
    for offset in [-4, -3, -1, 0, 1, 2, 5] {
        assert_eq!(
            outline(BorderStyle::Solid, offset).ring_columns(MID),
            expected_columns(offset),
            "outline-offset: {offset}px put the ring in the wrong columns"
        );
    }
}

#[test]
fn the_ring_moves_with_the_offset() {
    let left_edge = |offset: i32| -> i32 {
        *outline(BorderStyle::Solid, offset)
            .ring_columns(MID)
            .first()
            .expect("no outline was painted")
    };
    let zero = left_edge(0);
    for offset in [-3, -1, 1, 3, 6] {
        assert_eq!(left_edge(offset) - zero, -offset);
    }
}

#[test]
fn a_negative_offset_paints_over_the_elements_own_background() {
    let inside: Vec<i32> = (BOX_START..BOX_START + OUTLINE_WIDTH).collect();
    let columns = outline(BorderStyle::Solid, -OUTLINE_WIDTH).ring_columns(MID);
    assert!(columns.starts_with(&inside), "columns {columns:?}");
}

#[test]
fn a_large_negative_offset_is_clamped_not_inverted() {
    let ring = outline(BorderStyle::Solid, -1000);
    let painted: Vec<(u32, u32)> = (0..SIZE)
        .flat_map(|y| (0..SIZE).map(move |x| (x, y)))
        .filter(|(x, y)| ring.is_ring(*x, *y))
        .collect();
    assert!(!painted.is_empty(), "the clamped outline vanished entirely");
    let (xs, ys): (Vec<u32>, Vec<u32>) = painted.into_iter().unzip();
    let (x0, x1) = (*xs.iter().min().unwrap(), *xs.iter().max().unwrap());
    let (y0, y1) = (*ys.iter().min().unwrap(), *ys.iter().max().unwrap());
    let min_side = 2 * OUTLINE_WIDTH as u32;
    assert_eq!((x1 - x0 + 1, y1 - y0 + 1), (min_side, min_side));
    let centre = ((BOX_START + BOX_END) / 2) as u32;
    assert_eq!((x0 + min_side / 2, y0 + min_side / 2), (centre, centre));
}

#[test]
fn a_dashed_outline_is_drawn_as_dashes() {
    let top_row = (BOX_START - OUTLINE_WIDTH / 2) as u32;
    let painted = |style: BorderStyle| -> usize {
        let ring = outline(style, 0);
        (BOX_START..BOX_END).filter(|x| ring.is_ring(*x as u32, top_row)).count()
    };
    let solid = painted(BorderStyle::Solid);
    let dashed = painted(BorderStyle::Dashed);
    let span = (BOX_END - BOX_START) as usize;
    assert_eq!(solid, span, "the solid outline did not cover its whole side");
    assert!(dashed > 0, "the dashed outline painted nothing along the top side");
    assert!(dashed < solid, "it was painted solid");
    assert!(
        (span / 2..=(span * 8) / 10).contains(&dashed),
        "dashed coverage {dashed}/{span} is not a 2:1 dash pattern"
    );
}

#[test]
fn a_dotted_outline_is_drawn_as_dots() {
    let top_row = (BOX_START - OUTLINE_WIDTH / 2) as u32;
    let painted = |style: BorderStyle| -> usize {
        let ring = outline(style, 0);
        (BOX_START..BOX_END).filter(|x| ring.is_ring(*x as u32, top_row)).count()
    };
    let dotted = painted(BorderStyle::Dotted);
    let dashed = painted(BorderStyle::Dashed);
    assert!(dotted > 0, "the dotted outline painted nothing");
    assert!(dotted < dashed, "dots covered as much of the side as dashes");
}

#[test]
fn a_dashed_outline_also_honours_the_offset() {
    let top_of_ring = |offset: i32| -> u32 {
        let ring = outline(BorderStyle::Dashed, offset);
        (0..SIZE)
            .find(|y| (0..SIZE).any(|x| ring.is_ring(x, *y)))
            .expect("no dashed outline was painted")
    };
    let zero = top_of_ring(0);
    for offset in [-3, -1, 2, 5] {
        assert_eq!(top_of_ring(offset) as i32 - zero as i32, -offset);
    }
}

#[test]
fn a_square_box_keeps_square_outline_corners() {
    for offset in [0, 2, 6] {
        let outer = (BOX_START - offset - OUTLINE_WIDTH) as u32;
        for style in [BorderStyle::Solid, BorderStyle::Dashed, BorderStyle::Double] {
            assert!(
                outline(style, offset).is_ring(outer, outer),
                "{style:?} at offset {offset}px left the outermost corner unpainted"
            );
        }
    }
}

#[test]
fn some_outlines_paint_nothing() {
    let outer = rect(16.0, 16.0, 84.0, 84.0);
    let ring = frame(outer, 4.0, 0.0);
    let mut element = frame(rect(20.0, 20.0, 80.0, 80.0), 0.0, 0.0);
    element.outline_width = d(4.0);
    let draw = |element: Frame, style: OutlineStyle, alpha: f32| {
        let color = rgba(1.0, 0.0, 0.0, alpha);
        let styles = OutlineStyles { style, color, contrast: s(1.0) };
        with_cx(element, 1.0, |cx| cx.draw_outline(styles, ring))
    };
    assert!(draw(element, OutlineStyle::Auto, 1.0).is_empty());
    for style in [BorderStyle::Absent, BorderStyle::Hidden] {
        assert!(draw(element, OutlineStyle::BorderStyle(style), 1.0).is_empty());
    }
    let solid = OutlineStyle::BorderStyle(BorderStyle::Solid);
    assert!(draw(element, solid, 0.0).is_empty());
    assert_eq!(draw(element, solid, 1.0).len(), 1);
    element.outline_width = d(0.0);
    assert!(draw(element, solid, 1.0).is_empty());
}

#[test]
fn a_side_of_an_outline_is_never_inverted() {
    for offset in [-1e300, -500.0, -33.0, -32.0, -31.5, 0.0, 12.25, 1e300] {
        for width in [0.5, 1.0, 3.0, 40.0] {
            let (lo, hi) = outline_side(d(20.0), d(80.0), d(offset), d(width));
            assert!(v(lo) <= v(hi), "{offset} and {width}");
            assert!(v(hi) - v(lo) >= 2.0 * width);
        }
    }
}
