//! Borders and outlines.

use crate::color::Color;
use crate::edges::{dashed_edge, dotted_edge, DashedEdge, DottedEdge};
use crate::element::{CornerRadius, ElementCx, Frame};
use crate::geometry::{Point, Rect};
use crate::ieee::{Binary32, Binary64};
use crate::pieces::{
    fill_grouped_by_color, listed_pieces, ordered, run_fills, EdgePiece, PieceFill, PieceList,
    Slice,
};
use vstd::prelude::*;

verus! {

/// One edge of a border.
#[derive(Clone, Copy, Debug, PartialEq, Eq, Structural)]
pub enum Edge {
    Top,
    Right,
    Bottom,
    Left,
}

/// `border-style`
#[derive(Clone, Copy, Debug, PartialEq, Eq, Structural)]
pub enum BorderStyle {
    /// The keyword `none`.
    Absent,
    Hidden,
    Dotted,
    Dashed,
    Solid,
    Double,
    Groove,
    Ridge,
    Inset,
    Outset,
}

pub open spec fn spec_shade() -> Binary32 {
    Binary32::from_bits(0x3ea8_f5c3)
}

/// `0.33`, the fixed amount by which a bevelled edge is shaded.
#[verifier::when_used_as_spec(spec_shade)]
pub fn shade() -> (r: Binary32)
    ensures
        r == spec_shade(),
{
    Binary32::from_bits(0x3ea8_f5c3)
}

pub open spec fn spec_brightest(color: Color) -> Binary32 {
    color.r.max(color.g).max(color.b)
}

/// The brightest channel.
#[verifier::when_used_as_spec(spec_brightest)]
pub fn brightest(color: Color) -> (r: Binary32)
    ensures
        r == spec_brightest(color),
{
    color.r.max(color.g).max(color.b)
}

pub open spec fn spec_dimmed(color: Color, multiplier: Binary32) -> Color {
    Color {
        r: color.r.times(multiplier),
        g: color.g.times(multiplier),
        b: color.b.times(multiplier),
        a: color.a,
    }
}

/// The colour with its channels scaled and its alpha kept.
#[verifier::when_used_as_spec(spec_dimmed)]
pub fn dimmed(color: Color, multiplier: Binary32) -> (r: Color)
    ensures
        r == spec_dimmed(color, multiplier),
{
    Color {
        r: color.r.times(multiplier),
        g: color.g.times(multiplier),
        b: color.b.times(multiplier),
        a: color.a,
    }
}

pub open spec fn spec_darken(color: Color) -> Color {
    let v = brightest(color);
    if v.equals(Binary32::zero()) {
        color
    } else {
        dimmed(color, v.minus(shade()).over(v).max(Binary32::zero()))
    }
}

/// A darker version of a colour: the brightest channel is reduced by a fixed amount and the
/// others scaled to match, preserving hue.
#[verifier::when_used_as_spec(spec_darken)]
pub fn darken(color: Color) -> (r: Color)
    ensures
        r == spec_darken(color),
{
    let v = brightest(color);
    if v.equals(Binary32::zero()) {
        return color;
    }
    dimmed(color, v.minus(shade()).over(v).max(Binary32::zero()))
}

pub open spec fn spec_lighten(color: Color) -> Color {
    let v = brightest(color);
    if v.equals(Binary32::zero()) {
        Color { r: shade(), g: shade(), b: shade(), a: color.a }
    } else {
        dimmed(color, v.plus(shade()).min(Binary32::one()).over(v))
    }
}

/// A lighter version of a colour: the brightest channel is increased by a fixed amount and
/// the others scaled to match, preserving hue. Black becomes a dark grey.
#[verifier::when_used_as_spec(spec_lighten)]
pub fn lighten(color: Color) -> (r: Color)
    ensures
        r == spec_lighten(color),
{
    let v = brightest(color);
    if v.equals(Binary32::zero()) {
        return Color { r: shade(), g: shade(), b: shade(), a: color.a };
    }
    dimmed(color, v.plus(shade()).min(Binary32::one()).over(v))
}

pub open spec fn spec_is_top_or_left(edge: Edge) -> bool {
    edge is Top || edge is Left
}

/// Whether an edge faces the light.
#[verifier::when_used_as_spec(spec_is_top_or_left)]
pub fn is_top_or_left(edge: Edge) -> (r: bool)
    ensures
        r == spec_is_top_or_left(edge),
{
    matches!(edge, Edge::Top | Edge::Left)
}

pub open spec fn spec_is_bright(color: Color) -> bool {
    let full = Binary32::from_unsigned(255);
    ||| Binary32::from_unsigned(150).over(full).at_most(color.r)
    ||| Binary32::from_unsigned(92).over(full).at_most(color.g)
}

/// Whether a colour is bright enough in red or green that its darkened version always
/// contrasts with it: `150 / 255` and `92 / 255`.
#[verifier::when_used_as_spec(spec_is_bright)]
pub fn is_bright(color: Color) -> (r: bool)
    ensures
        r == spec_is_bright(color),
{
    let full = Binary32::from_unsigned(255);
    Binary32::from_unsigned(150).over(full).at_most(color.r) || Binary32::from_unsigned(92).over(
        full,
    ).at_most(color.g)
}

pub open spec fn spec_min_contrast_ratio() -> Binary32 {
    Binary32::from_bits(0x3fe0_0000)
}

/// `1.75`, the contrast below which a darkened edge does not stand out.
#[verifier::when_used_as_spec(spec_min_contrast_ratio)]
pub fn min_contrast_ratio() -> (r: Binary32)
    ensures
        r == spec_min_contrast_ratio(),
{
    Binary32::from_bits(0x3fe0_0000)
}

pub open spec fn spec_beveled_edge_color(
    color: Color,
    contrast: Binary32,
    edge: Edge,
    inset: bool,
) -> Color {
    if is_top_or_left(edge) == inset {
        darken(color)
    } else if !is_bright(color) && contrast.below(min_contrast_ratio()) {
        lighten(color)
    } else {
        color
    }
}

/// The colour of a single edge of an `inset` or `outset` border.
///
/// An `outset` border is raised: its top and left edges use the lighter shade and the other
/// two the darker (`inset` is the reverse). The darker edge is always darkened. The lighter
/// keeps the base colour, except for colours dark enough that the darkened edge lacks
/// contrast against them: those are lightened. `contrast` is the contrast ratio of the colour
/// and its darkened version.
#[verifier::when_used_as_spec(spec_beveled_edge_color)]
pub fn beveled_edge_color(color: Color, contrast: Binary32, edge: Edge, inset: bool) -> (r: Color)
    ensures
        r == spec_beveled_edge_color(color, contrast, edge, inset),
{
    let should_darken: bool = is_top_or_left(edge) == inset;
    if should_darken {
        return darken(color);
    }
    if is_bright(color) {
        return color;
    }
    if contrast.below(min_contrast_ratio()) {
        lighten(color)
    } else {
        color
    }
}

/// The (outer half, inner half) colours of a single edge of a `groove` or `ridge` border. A
/// `groove` looks carved: its outer half is shaded like `inset` and its inner half like
/// `outset`. `ridge` is the reverse.
pub fn grooved_edge_colors(color: Color, contrast: Binary32, edge: Edge, ridge: bool) -> (r: (
    Color,
    Color,
))
    ensures
        r.0 == beveled_edge_color(color, contrast, edge, !ridge),
        r.1 == beveled_edge_color(color, contrast, edge, ridge),
{
    let outer = beveled_edge_color(color, contrast, edge, !ridge);
    let inner = beveled_edge_color(color, contrast, edge, ridge);
    (outer, inner)
}

pub open spec fn spec_dashed_ratios(thickness: Binary64, scale: Binary64) -> (
    Binary64,
    Binary64,
) {
    if Binary64::from_unsigned(3).times(scale).at_most(thickness) {
        (Binary64::two(), Binary64::one())
    } else {
        (Binary64::from_unsigned(3), Binary64::two())
    }
}

/// The `(dash, gap)` lengths of a dashed border, as multiples of the border thickness:
/// borders of at least 3 CSS pixels use a 2:1 ratio, thinner ones longer dashes and gaps.
#[verifier::when_used_as_spec(spec_dashed_ratios)]
pub fn dashed_ratios(thickness: Binary64, scale: Binary64) -> (r: (Binary64, Binary64))
    ensures
        r == spec_dashed_ratios(thickness, scale),
{
    if Binary64::from_unsigned(3).times(scale).at_most(thickness) {
        (Binary64::two(), Binary64::one())
    } else {
        (Binary64::from_unsigned(3), Binary64::two())
    }
}

pub open spec fn spec_edge_width(frame: Frame, edge: Edge) -> Binary64 {
    match edge {
        Edge::Top => frame.border_width.y0,
        Edge::Bottom => frame.border_width.y1,
        Edge::Left => frame.border_width.x0,
        Edge::Right => frame.border_width.x1,
    }
}

/// The border width, in device pixels, of a single edge.
#[verifier::when_used_as_spec(spec_edge_width)]
pub fn edge_width(frame: Frame, edge: Edge) -> (r: Binary64)
    ensures
        r == spec_edge_width(frame, edge),
{
    match edge {
        Edge::Top => frame.border_width.y0,
        Edge::Bottom => frame.border_width.y1,
        Edge::Left => frame.border_width.x0,
        Edge::Right => frame.border_width.x1,
    }
}

/// The computed style of one edge.
#[derive(Clone, Copy, Debug, PartialEq, Eq, Structural)]
pub struct EdgeStyle {
    pub style: BorderStyle,
    pub color: Color,
    /// The contrast ratio of the colour and its darkened version.
    pub contrast: Binary32,
}

/// The computed style of a border.
#[derive(Clone, Copy, Debug, PartialEq, Eq, Structural)]
pub struct BorderStyles {
    pub top: EdgeStyle,
    pub right: EdgeStyle,
    pub bottom: EdgeStyle,
    pub left: EdgeStyle,
}

/// `outline-style`
#[derive(Clone, Copy, Debug, PartialEq, Eq, Structural)]
pub enum OutlineStyle {
    Auto,
    BorderStyle(BorderStyle),
}

/// The computed style of an outline.
#[derive(Clone, Copy, Debug, PartialEq, Eq, Structural)]
pub struct OutlineStyles {
    pub style: OutlineStyle,
    pub color: Color,
    /// The contrast ratio of the colour and its darkened version.
    pub contrast: Binary32,
}

/// A radius for each corner.
#[derive(Clone, Copy, Debug, PartialEq, Eq, Structural)]
pub struct CircularRadii {
    pub top_left: Binary64,
    pub top_right: Binary64,
    pub bottom_right: Binary64,
    pub bottom_left: Binary64,
}

/// One step of painting a border or an outline.
#[derive(Clone, Copy, Debug, PartialEq, Eq, Structural)]
pub enum BorderOp {
    /// Stroke a rounded rectangle, its sharp corners mitred.
    StrokeRoundedRect { color: Color, width: Binary64, rect: Rect, radii: CircularRadii },
    /// Stroke an ellipse.
    StrokeEllipse { color: Color, width: Binary64, center: Point, rx: Binary64, ry: Binary64 },
    /// Stroke the dashes of an edge, clipped to the edge.
    Dashes { edge: Edge, color: Color, dashes: DashedEdge },
    /// Fill the dots of an edge, clipped to the edge.
    Dots { edge: Edge, color: Color, dots: DottedEdge },
    /// Fill a piece of an edge.
    Fill { fill: PieceFill },
    /// Fill the whole ring of a solid outline.
    FillOutline { color: Color },
}

/// Three device pixels for each CSS pixel: below this a `double` edge has no room for two
/// lines and the gap between them.
pub open spec fn is_too_thin_for_two_lines(thickness: Binary64, scale: Binary64) -> bool {
    thickness.below(Binary64::from_unsigned(3).times(scale))
}

/// The coloured pieces of an edge in a style that is filled.
pub open spec fn edge_pieces(
    edge: Edge,
    style: EdgeStyle,
    thickness: Binary64,
    scale: Binary64,
) -> Seq<(Color, EdgePiece)> {
    let (color, contrast) = (style.color, style.contrast);
    match style.style {
        BorderStyle::Solid => seq![(color, EdgePiece { edge, slice: Slice::Whole })],
        BorderStyle::Double => seq![
            (
                color,
                EdgePiece {
                    edge,
                    slice: if is_too_thin_for_two_lines(thickness, scale) {
                        Slice::Whole
                    } else {
                        Slice::OuterAndInnerThird
                    },
                },
            ),
        ],
        BorderStyle::Inset => seq![
            (
                beveled_edge_color(color, contrast, edge, true),
                EdgePiece { edge, slice: Slice::Whole },
            ),
        ],
        BorderStyle::Outset => seq![
            (
                beveled_edge_color(color, contrast, edge, false),
                EdgePiece { edge, slice: Slice::Whole },
            ),
        ],
        BorderStyle::Groove => seq![
            (
                beveled_edge_color(color, contrast, edge, true),
                EdgePiece { edge, slice: Slice::OuterHalf },
            ),
            (
                beveled_edge_color(color, contrast, edge, false),
                EdgePiece { edge, slice: Slice::InnerHalf },
            ),
        ],
        BorderStyle::Ridge => seq![
            (
                beveled_edge_color(color, contrast, edge, false),
                EdgePiece { edge, slice: Slice::OuterHalf },
            ),
            (
                beveled_edge_color(color, contrast, edge, true),
                EdgePiece { edge, slice: Slice::InnerHalf },
            ),
        ],
        _ => Seq::empty(),
    }
}

/// Adds the pieces of an edge to a list.
fn add_edge_pieces(
    pieces: &mut PieceList,
    edge: Edge,
    style: EdgeStyle,
    thickness: Binary64,
    scale: Binary64,
)
    ensures
        listed_pieces(*final(pieces)) == listed_pieces(*old(pieces)) + edge_pieces(
            edge,
            style,
            thickness,
            scale,
        ),
{
    let (color, contrast) = (style.color, style.contrast);
    match style.style {
        BorderStyle::Solid => {
            pieces.push(color, EdgePiece { edge, slice: Slice::Whole });
        },
        BorderStyle::Double => {
            let slice = if thickness.below(Binary64::from_unsigned(3).times(scale)) {
                Slice::Whole
            } else {
                Slice::OuterAndInnerThird
            };
            pieces.push(color, EdgePiece { edge, slice });
        },
        BorderStyle::Inset | BorderStyle::Outset => {
            let inset: bool = matches!(style.style, BorderStyle::Inset);
            let tint = beveled_edge_color(color, contrast, edge, inset);
            pieces.push(tint, EdgePiece { edge, slice: Slice::Whole });
        },
        BorderStyle::Groove | BorderStyle::Ridge => {
            let ridge: bool = matches!(style.style, BorderStyle::Ridge);
            let (outer, inner) = grooved_edge_colors(color, contrast, edge, ridge);
            pieces.push(outer, EdgePiece { edge, slice: Slice::OuterHalf });
            pieces.push(inner, EdgePiece { edge, slice: Slice::InnerHalf });
        },
        BorderStyle::Absent | BorderStyle::Hidden | BorderStyle::Dotted | BorderStyle::Dashed => {
        },
    }
    assert(listed_pieces(*pieces) =~= listed_pieces(*old(pieces)) + edge_pieces(
        edge,
        style,
        thickness,
        scale,
    ));
}

/// The steps of an edge in a patterned style, which is drawn on its own.
pub open spec fn patterned_ops(
    frame: Frame,
    scale: Binary64,
    edge: Edge,
    style: BorderStyle,
    color: Color,
) -> Seq<BorderOp> {
    match style {
        BorderStyle::Dashed => match dashed_edge(frame, scale, edge) {
            Some(dashes) => seq![BorderOp::Dashes { edge, color, dashes }],
            None => Seq::empty(),
        },
        BorderStyle::Dotted => match dotted_edge(frame, edge) {
            Some(dots) => seq![BorderOp::Dots { edge, color, dots }],
            None => Seq::empty(),
        },
        _ => Seq::empty(),
    }
}

/// A fill as a step.
pub open spec fn fill_ops(fills: Seq<PieceFill>) -> Seq<BorderOp> {
    Seq::new(fills.len(), |i: int| BorderOp::Fill { fill: fills[i] })
}

/// Adds the fills of a list of pieces to the steps.
fn add_fills(ops: &mut Vec<BorderOp>, pieces: &PieceList)
    ensures
        final(ops)@ == old(ops)@ + fill_ops(run_fills(ordered(listed_pieces(*pieces)))),
{
    let fills = fill_grouped_by_color(pieces);
    let ghost start = ops@;
    let ghost all = fill_ops(fills@);
    let mut i: usize = 0;
    assert(start + all.take(0) =~= ops@);
    while i < fills.len()
        invariant
            i <= fills@.len(),
            all == fill_ops(fills@),
            ops@ == start + all.take(i as int),
        decreases fills@.len() - i,
    {
        ops.push(BorderOp::Fill { fill: fills[i] });
        assert(all.take(i + 1) =~= all.take(i as int).push(all[i as int]));
        i = i + 1;
    }
    assert(all.take(fills@.len() as int) =~= all);
}

/// Whether an edge is painted at all: a transparent one is not.
pub open spec fn is_visible(color: Color) -> bool {
    !color.a.at_most(Binary32::zero())
}

impl BorderStyles {
    /// The style of one edge.
    pub open spec fn of_edge(self, edge: Edge) -> EdgeStyle {
        match edge {
            Edge::Top => self.top,
            Edge::Right => self.right,
            Edge::Bottom => self.bottom,
            Edge::Left => self.left,
        }
    }

    /// The patterned steps of one edge.
    pub open spec fn edge_patterns(self, frame: Frame, scale: Binary64, edge: Edge) -> Seq<
        BorderOp,
    > {
        let style = self.of_edge(edge);
        if is_visible(style.color) {
            patterned_ops(frame, scale, edge, style.style, style.color)
        } else {
            Seq::empty()
        }
    }

    /// The filled pieces of one edge.
    pub open spec fn edge_fills(self, frame: Frame, scale: Binary64, edge: Edge) -> Seq<
        (Color, EdgePiece),
    > {
        let style = self.of_edge(edge);
        if is_visible(style.color) {
            edge_pieces(edge, style, edge_width(frame, edge), scale)
        } else {
            Seq::empty()
        }
    }

    /// The steps of a border that is drawn edge by edge: the patterned edges as they come,
    /// and then the filled ones, grouped by colour.
    pub open spec fn edge_ops(self, frame: Frame, scale: Binary64) -> Seq<BorderOp> {
        let patterns = self.edge_patterns(frame, scale, Edge::Top) + self.edge_patterns(
            frame,
            scale,
            Edge::Right,
        ) + self.edge_patterns(frame, scale, Edge::Bottom) + self.edge_patterns(
            frame,
            scale,
            Edge::Left,
        );
        let pieces = self.edge_fills(frame, scale, Edge::Top) + self.edge_fills(
            frame,
            scale,
            Edge::Right,
        ) + self.edge_fills(frame, scale, Edge::Bottom) + self.edge_fills(
            frame,
            scale,
            Edge::Left,
        );
        patterns + fill_ops(run_fills(ordered(pieces)))
    }

    /// Whether the border is solid, of one visible colour and of one positive width.
    pub open spec fn is_uniform(self, frame: Frame) -> bool {
        let bw = frame.border_width;
        &&& self.top.style is Solid
        &&& self.right.style is Solid
        &&& self.bottom.style is Solid
        &&& self.left.style is Solid
        &&& self.right.color.same_as(self.top.color)
        &&& self.bottom.color.same_as(self.top.color)
        &&& self.left.color.same_as(self.top.color)
        &&& bw.x0.equals(bw.y0)
        &&& bw.x0.equals(bw.x1)
        &&& bw.x0.equals(bw.y1)
        &&& Binary64::zero().below(bw.x0)
        &&& Binary32::zero().below(self.top.color.a)
    }
}

/// The width of the stroke that a uniform border can be.
pub open spec fn stroke_width(frame: Frame) -> Binary64 {
    frame.border_box.width().minus(frame.padding_box.width()).over(Binary64::two())
}

pub open spec fn spec_is_exact_corner(radius: CornerRadius, width: Binary64) -> bool {
    radius.x.equals(Binary64::zero()) || width.at_most(radius.x)
}

/// Whether a stroke has the shape of a border at a corner: the corner is sharp, or its radius
/// is at least the border width. In between, the border has a rounded outer edge against a
/// sharp inner corner, which no stroke has.
#[verifier::when_used_as_spec(spec_is_exact_corner)]
pub fn is_exact_corner(radius: CornerRadius, width: Binary64) -> (r: bool)
    ensures
        r == spec_is_exact_corner(radius, width),
{
    radius.x.equals(Binary64::zero()) || width.at_most(radius.x)
}

/// Whether a stroke has the shape of a border at every corner.
pub open spec fn is_exact_stroke(frame: Frame) -> bool {
    let width = stroke_width(frame);
    &&& is_exact_corner(frame.border_radii.top_left, width)
    &&& is_exact_corner(frame.border_radii.top_right, width)
    &&& is_exact_corner(frame.border_radii.bottom_right, width)
    &&& is_exact_corner(frame.border_radii.bottom_left, width)
}

/// The radius of a corner along the centre line.
pub open spec fn centerline_radius(radius: CornerRadius, half_width: Binary64) -> Binary64 {
    radius.x.minus(half_width).max(Binary64::zero())
}

/// The one stroke that a uniform border is drawn with, where one has its shape.
pub open spec fn stroke_op(frame: Frame, color: Color) -> Option<BorderOp> {
    let width = stroke_width(frame);
    let half = width.over(Binary64::two());
    let radii = frame.border_radii;
    let (bb, pb) = (frame.border_box, frame.padding_box);
    let four = Binary64::from_unsigned(4);
    if frame.is_uniform_corner_border {
        if is_exact_stroke(frame) {
            Some(
                BorderOp::StrokeRoundedRect {
                    color,
                    width,
                    rect: bb.shrunk(half),
                    radii: CircularRadii {
                        top_left: centerline_radius(radii.top_left, half),
                        top_right: centerline_radius(radii.top_right, half),
                        bottom_right: centerline_radius(radii.bottom_right, half),
                        bottom_left: centerline_radius(radii.bottom_left, half),
                    },
                },
            )
        } else {
            None
        }
    } else if frame.is_elliptical_border {
        Some(
            BorderOp::StrokeEllipse {
                color,
                width,
                center: bb.center(),
                rx: bb.width().plus(pb.width()).over(four),
                ry: bb.height().plus(pb.height()).over(four),
            },
        )
    } else {
        None
    }
}

/// The steps of painting a border.
pub open spec fn border_ops(frame: Frame, scale: Binary64, border: BorderStyles) -> Seq<BorderOp> {
    match stroke_op(frame, border.top.color) {
        Some(op) if border.is_uniform(frame) => seq![op],
        _ => border.edge_ops(frame, scale),
    }
}

/// The steps of painting an outline, over a frame whose border is the outline.
pub open spec fn outline_ops(
    frame: Frame,
    ring: Frame,
    scale: Binary64,
    outline: OutlineStyles,
) -> Seq<BorderOp> {
    let color = outline.color;
    match outline.style {
        OutlineStyle::Auto => Seq::empty(),
        OutlineStyle::BorderStyle(style) => {
            let edge_style = EdgeStyle { style, color, contrast: outline.contrast };
            let width = frame.outline_width;
            if style is Absent || style is Hidden || width.at_most(Binary64::zero())
                || !is_visible(color) {
                Seq::empty()
            } else if style is Solid {
                seq![BorderOp::FillOutline { color }]
            } else {
                let pieces = edge_pieces(Edge::Top, edge_style, width, scale) + edge_pieces(
                    Edge::Right,
                    edge_style,
                    width,
                    scale,
                ) + edge_pieces(Edge::Bottom, edge_style, width, scale) + edge_pieces(
                    Edge::Left,
                    edge_style,
                    width,
                    scale,
                );
                patterned_ops(ring, scale, Edge::Top, style, color) + patterned_ops(
                    ring,
                    scale,
                    Edge::Right,
                    style,
                    color,
                ) + patterned_ops(ring, scale, Edge::Bottom, style, color) + patterned_ops(
                    ring,
                    scale,
                    Edge::Left,
                    style,
                    color,
                ) + fill_ops(run_fills(ordered(pieces)))
            }
        },
    }
}

impl<'a> ElementCx<'a> {
    /// The border width, in device pixels, of a single edge.
    pub fn edge_width(&self, edge: Edge) -> (r: Binary64)
        ensures
            r == edge_width(self.frame, edge),
    {
        edge_width(self.frame, edge)
    }

    /// Adds the steps of an edge in a patterned style.
    fn add_pattern(
        &self,
        ops: &mut Vec<BorderOp>,
        frame: Frame,
        edge: Edge,
        style: BorderStyle,
        color: Color,
    )
        ensures
            final(ops)@ == old(ops)@ + patterned_ops(frame, self.scale, edge, style, color),
    {
        match style {
            BorderStyle::Dashed => {
                if let Some(dashes) = self.draw_dashed_border_edge(frame, edge) {
                    ops.push(BorderOp::Dashes { edge, color, dashes });
                }
            },
            BorderStyle::Dotted => {
                if let Some(dots) = self.draw_dotted_border_edge(frame, edge) {
                    ops.push(BorderOp::Dots { edge, color, dots });
                }
            },
            _ => {},
        }
        assert(ops@ =~= old(ops)@ + patterned_ops(frame, self.scale, edge, style, color));
    }

    /// Adds what one edge of the element's border contributes.
    fn add_border_edge(
        &self,
        ops: &mut Vec<BorderOp>,
        pieces: &mut PieceList,
        edge: Edge,
        border: BorderStyles,
    )
        ensures
            final(ops)@ == old(ops)@ + border.edge_patterns(self.frame, self.scale, edge),
            listed_pieces(*final(pieces)) == listed_pieces(*old(pieces)) + border.edge_fills(
                self.frame,
                self.scale,
                edge,
            ),
    {
        let style = match edge {
            Edge::Top => border.top,
            Edge::Right => border.right,
            Edge::Bottom => border.bottom,
            Edge::Left => border.left,
        };
        if style.color.a.at_most(Binary32::zero()) {
            assert(ops@ =~= old(ops)@ + border.edge_patterns(self.frame, self.scale, edge));
            assert(listed_pieces(*pieces) =~= listed_pieces(*old(pieces)) + border.edge_fills(
                self.frame,
                self.scale,
                edge,
            ));
            return;
        }
        self.add_pattern(ops, self.frame, edge, style.style, style.color);
        add_edge_pieces(pieces, edge, style, self.edge_width(edge), self.scale);
    }

    /// The one stroke that the element's border can be drawn with, where it can.
    fn border_stroke(&self, color: Color) -> (r: Option<BorderOp>)
        ensures
            r == stroke_op(self.frame, color),
    {
        let bb = self.frame.border_box;
        let pb = self.frame.padding_box;
        let width = bb.width().minus(pb.width()).over(Binary64::two());
        let zero = Binary64::zero();
        let radii = self.frame.border_radii;
        if self.frame.is_uniform_corner_border {
            if is_exact_corner(radii.top_left, width) && is_exact_corner(radii.top_right, width)
                && is_exact_corner(radii.bottom_right, width) && is_exact_corner(
                radii.bottom_left,
                width,
            ) {
                let half = width.over(Binary64::two());
                Some(
                    BorderOp::StrokeRoundedRect {
                        color,
                        width,
                        rect: bb.shrunk(half),
                        radii: CircularRadii {
                            top_left: radii.top_left.x.minus(half).max(zero),
                            top_right: radii.top_right.x.minus(half).max(zero),
                            bottom_right: radii.bottom_right.x.minus(half).max(zero),
                            bottom_left: radii.bottom_left.x.minus(half).max(zero),
                        },
                    },
                )
            } else {
                None
            }
        } else if self.frame.is_elliptical_border {
            let four = Binary64::from_unsigned(4);
            Some(
                BorderOp::StrokeEllipse {
                    color,
                    width,
                    center: bb.center(),
                    rx: bb.width().plus(pb.width()).over(four),
                    ry: bb.height().plus(pb.height()).over(four),
                },
            )
        } else {
            None
        }
    }

    /// The steps of painting the element's border.
    ///
    /// A solid border of one colour and one width whose corners are circular arcs, or that is
    /// a full ellipse, is a single stroke along its centre line. Any other is drawn edge by
    /// edge: the patterned edges on their own, the filled ones grouped by colour.
    pub fn draw_border(&self, border: BorderStyles) -> (r: Vec<BorderOp>)
        ensures
            r@ == border_ops(self.frame, self.scale, border),
    {
        let mut ops: Vec<BorderOp> = Vec::new();
        let all_solid: bool = matches!(border.top.style, BorderStyle::Solid)
            && matches!(border.right.style, BorderStyle::Solid)
            && matches!(border.bottom.style, BorderStyle::Solid)
            && matches!(border.left.style, BorderStyle::Solid);
        if all_solid {
            let color = border.top.color;
            let same_color: bool = border.right.color.same_as(color)
                && border.bottom.color.same_as(color) && border.left.color.same_as(color);
            let bw = self.frame.border_width;
            let uniform_width: bool = bw.x0.equals(bw.y0) && bw.x0.equals(bw.x1) && bw.x0.equals(
                bw.y1,
            ) && Binary64::zero().below(bw.x0);
            if same_color && uniform_width && Binary32::zero().below(color.a) {
                if let Some(op) = self.border_stroke(color) {
                    ops.push(op);
                    assert(ops@ =~= seq![op]);
                    return ops;
                }
            }
        }
        let mut pieces = PieceList::new();
        self.add_border_edge(&mut ops, &mut pieces, Edge::Top, border);
        self.add_border_edge(&mut ops, &mut pieces, Edge::Right, border);
        self.add_border_edge(&mut ops, &mut pieces, Edge::Bottom, border);
        self.add_border_edge(&mut ops, &mut pieces, Edge::Left, border);
        proof {
            let (f, s) = (self.frame, self.scale);
            let empty = Seq::<BorderOp>::empty();
            assert(empty + border.edge_patterns(f, s, Edge::Top) =~= border.edge_patterns(
                f,
                s,
                Edge::Top,
            ));
            let none = Seq::<(Color, EdgePiece)>::empty();
            assert(none + border.edge_fills(f, s, Edge::Top) =~= border.edge_fills(
                f,
                s,
                Edge::Top,
            ));
        }
        add_fills(&mut ops, &pieces);
        ops
    }

    /// The steps of painting the element's outline, over a frame whose border is the outline.
    ///
    /// Outlines take the styles of borders, except that `hidden` is not one of theirs. A solid
    /// outline is one ring, filled at once. `auto` paints nothing.
    pub fn draw_outline(&self, outline: OutlineStyles, ring: Frame) -> (r: Vec<BorderOp>)
        ensures
            r@ == outline_ops(self.frame, ring, self.scale, outline),
    {
        let mut ops: Vec<BorderOp> = Vec::new();
        let color = outline.color;
        let style = match outline.style {
            OutlineStyle::Auto => {
                return ops;
            },
            OutlineStyle::BorderStyle(style) => style,
        };
        if matches!(style, BorderStyle::Absent | BorderStyle::Hidden) {
            return ops;
        }
        let thickness = self.frame.outline_width;
        if thickness.at_most(Binary64::zero()) {
            return ops;
        }
        if color.a.at_most(Binary32::zero()) {
            return ops;
        }
        if matches!(style, BorderStyle::Solid) {
            ops.push(BorderOp::FillOutline { color });
            assert(ops@ =~= seq![BorderOp::FillOutline { color }]);
            return ops;
        }
        let scale = self.scale;
        self.add_pattern(&mut ops, ring, Edge::Top, style, color);
        self.add_pattern(&mut ops, ring, Edge::Right, style, color);
        self.add_pattern(&mut ops, ring, Edge::Bottom, style, color);
        self.add_pattern(&mut ops, ring, Edge::Left, style, color);
        let edge_style = EdgeStyle { style, color, contrast: outline.contrast };
        let mut pieces = PieceList::new();
        add_edge_pieces(&mut pieces, Edge::Top, edge_style, thickness, scale);
        add_edge_pieces(&mut pieces, Edge::Right, edge_style, thickness, scale);
        add_edge_pieces(&mut pieces, Edge::Bottom, edge_style, thickness, scale);
        add_edge_pieces(&mut pieces, Edge::Left, edge_style, thickness, scale);
        proof {
            let top = patterned_ops(ring, scale, Edge::Top, style, color);
            assert(Seq::<BorderOp>::empty() + top =~= top);
            let first = edge_pieces(Edge::Top, edge_style, thickness, scale);
            assert(Seq::<(Color, EdgePiece)>::empty() + first =~= first);
        }
        add_fills(&mut ops, &pieces);
        ops
    }
}

} // verus!
