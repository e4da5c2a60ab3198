//! The two axes are treated alike: exchanging them in what is painted exchanges them in how it is
//! painted, and nothing else.

use crate::background::BackgroundAttachment;
use crate::border::{edge_width, BorderStyle, Edge};
use crate::edges::{
    dashed_edge, dotted_edge, straight_centers, DashLine, DashedEdge, DotRow, DottedEdge,
};
use crate::element::{is_transformed_at, CornerRadii, CornerRadius, ElementCx, Frame, Surface};
use crate::geometry::{Insets, Point, Rect, Size};
use crate::ieee::Binary64;
use crate::layers::{LayerGeometry, LayerPlacement, LayerTiles, ScaledTiles, SvgImage};
use crate::outline::outline_outside;
use crate::table::{border_rects, PhysicalTracks, TableBorders};
use vstd::prelude::*;

verus! {

/// A point with its axes exchanged.
pub open spec fn turned_point(p: Point) -> Point {
    Point { x: p.y, y: p.x }
}

/// A size with its axes exchanged.
pub open spec fn turned_size(s: Size) -> Size {
    Size { width: s.height, height: s.width }
}

/// A rectangle with its axes exchanged.
pub open spec fn turned_rect(r: Rect) -> Rect {
    Rect { x0: r.y0, y0: r.x0, x1: r.y1, y1: r.x1 }
}

/// A corner with its axes exchanged.
pub open spec fn turned_corner(c: CornerRadius) -> CornerRadius {
    CornerRadius { x: c.y, y: c.x }
}

/// An element's boxes with their axes exchanged: the top left and the bottom right corner stay,
/// and the other two change places.
pub open spec fn turned_frame(f: Frame) -> Frame {
    Frame {
        border_box: turned_rect(f.border_box),
        padding_box: turned_rect(f.padding_box),
        content_box: turned_rect(f.content_box),
        border_width: Insets {
            x0: f.border_width.y0,
            y0: f.border_width.x0,
            x1: f.border_width.y1,
            y1: f.border_width.x1,
        },
        border_radii: CornerRadii {
            top_left: turned_corner(f.border_radii.top_left),
            top_right: turned_corner(f.border_radii.bottom_left),
            bottom_right: turned_corner(f.border_radii.bottom_right),
            bottom_left: turned_corner(f.border_radii.top_right),
        },
        outline_width: f.outline_width,
        is_uniform_corner_border: f.is_uniform_corner_border,
        is_elliptical_border: f.is_elliptical_border,
        has_border_radius: f.has_border_radius,
        centerline_perimeter: f.centerline_perimeter,
    }
}

/// An element with its axes, and those of the surface, exchanged.
pub open spec fn turned_cx<'a>(cx: ElementCx<'a>) -> ElementCx<'a> {
    ElementCx {
        nodes: cx.nodes,
        node: cx.node,
        frame: turned_frame(cx.frame),
        scale: cx.scale,
        surface: Surface {
            width: cx.surface.height,
            height: cx.surface.width,
            initial_x: cx.surface.initial_y,
            initial_y: cx.surface.initial_x,
        },
    }
}

/// A layer with its axes exchanged.
pub open spec fn turned_layer(l: LayerPlacement) -> LayerPlacement {
    LayerPlacement {
        origin: l.origin,
        clip: l.clip,
        attachment: l.attachment,
        repeat_x: l.repeat_y,
        repeat_y: l.repeat_x,
    }
}

/// The geometry of a layer with its axes exchanged.
pub open spec fn turned_geometry(g: LayerGeometry) -> LayerGeometry {
    LayerGeometry { position: turned_point(g.position), size: turned_size(g.size) }
}

/// Tiles with their axes exchanged.
pub open spec fn turned_tiles(t: LayerTiles) -> LayerTiles {
    LayerTiles { x: t.y, y: t.x }
}

/// Scaled tiles with their axes exchanged.
pub open spec fn turned_scaled(t: ScaledTiles) -> ScaledTiles {
    ScaledTiles { tiles: turned_tiles(t.tiles), scale_x: t.scale_y, scale_y: t.scale_x }
}

/// An SVG with its axes exchanged, as far as its tree goes.
pub open spec fn turned_svg(svg: SvgImage) -> SvgImage {
    SvgImage { tree_width: svg.tree_height, tree_height: svg.tree_width, ..svg }
}

/// Turning an element does not change whether its layers are fixed.
proof fn lemma_turned_is_as_fixed(cx: ElementCx, attachment: BackgroundAttachment)
    ensures
        turned_cx(cx).is_fixed(attachment) == cx.is_fixed(attachment),
{
    let t = turned_cx(cx);
    assert(t.nodes@ == cx.nodes@ && t.node == cx.node);
    if exists|k: nat| is_transformed_at(cx.nodes@, cx.node, k) {
        let k = choose|k: nat| is_transformed_at(cx.nodes@, cx.node, k);
        assert(is_transformed_at(t.nodes@, t.node, k));
    }
    if exists|k: nat| is_transformed_at(t.nodes@, t.node, k) {
        let k = choose|k: nat| is_transformed_at(t.nodes@, t.node, k);
        assert(is_transformed_at(cx.nodes@, cx.node, k));
    }
}

/// An element and its layer turned on their side have their tiles turned on their side: nothing
/// that is horizontal (an edge of a box or of the surface, a size, a position, a way of repeating)
/// places a tile vertically, nor the other way round.
pub proof fn law_layers_treat_both_axes_alike(
    cx: ElementCx,
    layer: LayerPlacement,
    geometry: LayerGeometry,
    surface: Rect,
)
    ensures
        ({
            let upright = cx.visible_tiles(layer, geometry, surface);
            let turned = turned_cx(cx).visible_tiles(
                turned_layer(layer),
                turned_geometry(geometry),
                turned_rect(surface),
            );
            &&& turned is Some <==> upright is Some
            &&& upright matches Some(tiles) ==> turned == Some(turned_tiles(tiles))
        }),
{
    lemma_turned_is_as_fixed(cx, layer.attachment);
}

/// The same of the tiles of an SVG, and of how it is scaled to them.
pub proof fn law_svg_layers_treat_both_axes_alike(
    cx: ElementCx,
    svg: SvgImage,
    layer: LayerPlacement,
    geometry: LayerGeometry,
    surface: Rect,
)
    ensures
        ({
            let upright = cx.svg_tiles(svg, layer, geometry, surface);
            let turned = turned_cx(cx).svg_tiles(
                turned_svg(svg),
                turned_layer(layer),
                turned_geometry(geometry),
                turned_rect(surface),
            );
            &&& turned is Some <==> upright is Some
            &&& upright matches Some(tiles) ==> turned == Some(turned_scaled(tiles))
        }),
{
    law_layers_treat_both_axes_alike(cx, layer, geometry, surface);
}

/// The same of the fills of a raster image, and of how it is scaled to them.
pub proof fn law_raster_layers_treat_both_axes_alike(
    cx: ElementCx,
    image_width: u32,
    image_height: u32,
    layer: LayerPlacement,
    geometry: LayerGeometry,
)
    ensures
        turned_cx(cx).raster_tiles(
            image_height,
            image_width,
            turned_layer(layer),
            turned_geometry(geometry),
        ) == turned_scaled(cx.raster_tiles(image_width, image_height, layer, geometry)),
{
    lemma_turned_is_as_fixed(cx, layer.attachment);
}

/// A box turned on its side has its outline turned on its side.
pub proof fn law_outlines_treat_both_axes_alike(
    border_box: Rect,
    offset: Binary64,
    width: Binary64,
)
    ensures
        outline_outside(turned_rect(border_box), offset, width) == turned_rect(
            outline_outside(border_box, offset, width),
        ),
        outline_outside(turned_rect(border_box), offset, width).shrunk(width) == turned_rect(
            outline_outside(border_box, offset, width).shrunk(width),
        ),
{
}

/// The edge that an edge becomes where the axes are exchanged.
pub open spec fn turned_edge(edge: Edge) -> Edge {
    match edge {
        Edge::Top => Edge::Left,
        Edge::Left => Edge::Top,
        Edge::Bottom => Edge::Right,
        Edge::Right => Edge::Bottom,
    }
}

/// Dashes with their axes exchanged.
pub open spec fn turned_dashes(d: DashedEdge) -> DashedEdge {
    DashedEdge {
        line: match d.line {
            DashLine::Ring => DashLine::Ring,
            DashLine::Straight { start, end } => DashLine::Straight {
                start: turned_point(start),
                end: turned_point(end),
            },
        },
        ..d
    }
}

/// Dots with their axes exchanged.
pub open spec fn turned_dots(d: DottedEdge) -> DottedEdge {
    DottedEdge {
        row: match d.row {
            DotRow::Single { center } => DotRow::Single { center: turned_point(center) },
            _ => d.row,
        },
        ..d
    }
}

/// An edge of an element on its side has the dashes and the dots of the edge it was, turned.
pub proof fn law_edges_treat_both_axes_alike(frame: Frame, scale: Binary64, edge: Edge)
    ensures
        ({
            let dashes = dashed_edge(frame, scale, edge);
            let turned = dashed_edge(turned_frame(frame), scale, turned_edge(edge));
            &&& turned is Some <==> dashes is Some
            &&& dashes matches Some(d) ==> turned == Some(turned_dashes(d))
        }),
        ({
            let dots = dotted_edge(frame, edge);
            let turned = dotted_edge(turned_frame(frame), turned_edge(edge));
            &&& turned is Some <==> dots is Some
            &&& dots matches Some(d) ==> turned == Some(turned_dots(d))
        }),
        edge_width(turned_frame(frame), turned_edge(edge)) == edge_width(frame, edge),
{
}

/// The centres of the dots of an edge of an element on its side are those of the edge it was,
/// turned.
pub proof fn law_dots_treat_both_axes_alike(
    bb: Rect,
    edge: Edge,
    radius: Binary64,
    spacing: Binary64,
    gaps: nat,
)
    ensures
        ({
            let dots = straight_centers(bb, edge, radius, spacing, gaps);
            let turned = straight_centers(
                turned_rect(bb),
                turned_edge(edge),
                radius,
                spacing,
                gaps,
            );
            &&& turned.len() == dots.len()
            &&& forall|i: int| 0 <= i < dots.len() ==> #[trigger] turned[i] == turned_point(dots[i])
        }),
{
}

/// The collapsed borders of a table with its axes exchanged.
pub open spec fn turned_borders(b: TableBorders) -> TableBorders {
    TableBorders {
        outer_top: b.outer_left,
        outer_left: b.outer_top,
        outer_bottom: b.outer_right,
        outer_right: b.outer_bottom,
        ..b
    }
}

/// A table whose rows become its columns has the same borders between and around its cells,
/// turned on their side.
pub proof fn law_tables_treat_both_axes_alike(
    borders: TableBorders,
    rows: PhysicalTracks,
    columns: PhysicalTracks,
    scale: Binary64,
    i: int,
)
    requires
        0 <= i < border_rects(borders, rows, columns, scale).len(),
    ensures
        border_rects(turned_borders(borders), columns, rows, scale).contains(
            turned_rect(border_rects(borders, rows, columns, scale)[i]),
        ),
        border_rects(turned_borders(borders), columns, rows, scale).len() == border_rects(
            borders,
            rows,
            columns,
            scale,
        ).len(),
{
    let t = turned_borders(borders);
    let upright = border_rects(borders, rows, columns, scale);
    let turned = border_rects(t, columns, rows, scale);
    let (nr, nc) = (
        crate::table::gutters(rows) as int,
        crate::table::gutters(columns) as int,
    );
    let top = hidden_or_one(borders.outer_top);
    let bottom = hidden_or_one(borders.outer_bottom);
    let left = hidden_or_one(borders.outer_left);
    let right = hidden_or_one(borders.outer_right);
    // In the turned table come the gutters between columns, the left and the right border, the
    // gutters between rows, the top and the bottom border.
    let j = if i < nr {
        nc + left + right + i
    } else if i < nr + top {
        nc + left + right + nr
    } else if i < nr + top + bottom {
        nc + left + right + nr + top
    } else if i < nr + top + bottom + nc {
        i - (nr + top + bottom)
    } else if i < nr + top + bottom + nc + left {
        nc
    } else {
        nc + left
    };
    assert(turned[j] == turned_rect(upright[i]));
}

/// How many borders a style paints on one side.
spec fn hidden_or_one(style: BorderStyle) -> int {
    if style is Hidden {
        0
    } else {
        1
    }
}

} // verus!
