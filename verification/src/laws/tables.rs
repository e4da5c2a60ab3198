//! Where the borders and the row backgrounds of a table lie, in terms of its rows and columns; and
//! in which order, and in which boxes, a background is painted.

use crate::background::{
    background_ops, painter_of, BackgroundClip, BackgroundOp, BoxModelBox, ImageResource,
    LayerImage,
};
use crate::border::BorderStyle;
use crate::color::Color;
use crate::geometry::Rect;
use crate::ieee::{Binary32, Binary64};
use crate::table::{background_fills, border_fills, PhysicalTracks, RectFill, TableBorders};
use crate::widget::{document_jobs, Document, WidgetNode};
use vstd::prelude::*;

verus! {

/// A distance from the first track, in device pixels.
pub open spec fn device_offset(at: Binary32, tracks: PhysicalTracks, scale: Binary64) -> Binary64 {
    at.minus(tracks.origin).to_binary64().times(scale)
}

/// Whether the collapsed borders of a table are painted.
pub open spec fn is_painted(borders: TableBorders) -> bool {
    &&& borders.collapse
    &&& !borders.color.same_as(Color::transparent())
    &&& !(borders.style is Absent || borders.style is Hidden)
}

/// One, for a border that is not hidden.
pub open spec fn shown(style: BorderStyle) -> int {
    if style is Hidden {
        0
    } else {
        1
    }
}

/// The number of spaces between tracks.
pub open spec fn spaces(tracks: PhysicalTracks) -> int {
    if tracks.tracks@.len() == 0 {
        0
    } else {
        tracks.tracks@.len() - 1
    }
}

/// The collapsed borders of a table are filled in the border's colour, if at all: one rectangle
/// between each two rows and one between each two columns, from the end of the one to the start of
/// the other and right across the table, and one along each side of the table that is not hidden,
/// as wide as the border; and nothing else.
pub proof fn law_collapsed_borders_lie_between_and_around_the_cells(
    borders: TableBorders,
    rows: PhysicalTracks,
    columns: PhysicalTracks,
    scale: Binary64,
    i: int,
)
    ensures
        ({
            let fills = border_fills(borders, rows, columns, scale);
            let color = borders.color;
            let zero = Binary64::zero().times(scale);
            let (width, height) = (columns.span.to_binary64(), rows.span.to_binary64());
            let (w, h) = (width.times(scale), height.times(scale));
            let bw = borders.width;
            &&& !is_painted(borders) ==> fills.len() == 0
            &&& is_painted(borders) ==> {
                &&& fills.len() == spaces(rows) + spaces(columns) + shown(borders.outer_top)
                    + shown(borders.outer_right) + shown(borders.outer_bottom) + shown(
                    borders.outer_left,
                )
                &&& 0 <= i < fills.len() ==> fills[i].color == color
                &&& 0 <= i < spaces(rows) ==> fills.contains(
                    RectFill {
                        color,
                        rect: Rect {
                            x0: zero,
                            y0: device_offset(rows.tracks@[i].end, rows, scale),
                            x1: w,
                            y1: device_offset(rows.tracks@[i + 1].start, rows, scale),
                        },
                    },
                )
                &&& 0 <= i < spaces(columns) ==> fills.contains(
                    RectFill {
                        color,
                        rect: Rect {
                            x0: device_offset(columns.tracks@[i].end, columns, scale),
                            y0: zero,
                            x1: device_offset(columns.tracks@[i + 1].start, columns, scale),
                            y1: h,
                        },
                    },
                )
                &&& !(borders.outer_top is Hidden) ==> fills.contains(
                    RectFill { color, rect: Rect { x0: zero, y0: zero, x1: w, y1: bw.times(scale) } },
                )
                &&& !(borders.outer_left is Hidden) ==> fills.contains(
                    RectFill { color, rect: Rect { x0: zero, y0: zero, x1: bw.times(scale), y1: h } },
                )
                &&& !(borders.outer_bottom is Hidden) ==> fills.contains(
                    RectFill {
                        color,
                        rect: Rect { x0: zero, y0: h, x1: w, y1: height.plus(bw).times(scale) },
                    },
                )
                &&& !(borders.outer_right is Hidden) ==> fills.contains(
                    RectFill {
                        color,
                        rect: Rect { x0: w, y0: zero, x1: width.plus(bw).times(scale), y1: h },
                    },
                )
            }
        }),
{
    let fills = border_fills(borders, rows, columns, scale);
    if is_painted(borders) {
        let rects = crate::table::border_rects(borders, rows, columns, scale);
        let (nr, nc) = (spaces(rows), spaces(columns));
        let (t, b, l) = (
            shown(borders.outer_top),
            shown(borders.outer_bottom),
            shown(borders.outer_left),
        );
        assert(rects.len() == nr + t + b + nc + l + shown(borders.outer_right));
        if 0 <= i < nr {
            assert(rects[i] == crate::table::row_gutter(
                rows,
                columns.span.to_binary64(),
                scale,
                i,
            ));
            assert(fills[i].rect == rects[i]);
        }
        if 0 <= i < nc {
            let k = nr + t + b + i;
            assert(rects[k] == crate::table::column_gutter(
                columns,
                rows.span.to_binary64(),
                scale,
                i,
            ));
            assert(fills[k].rect == rects[k]);
        }
        if t == 1 {
            assert(fills[nr].rect == rects[nr]);
        }
        if b == 1 {
            assert(fills[nr + t].rect == rects[nr + t]);
        }
        if l == 1 {
            assert(fills[nr + t + b + nc].rect == rects[nr + t + b + nc]);
        }
        if !(borders.outer_right is Hidden) {
            assert(fills[nr + t + b + nc + l].rect == rects[nr + t + b + nc + l]);
        }
    }
}

/// The background of a row.
pub open spec fn row_fill(
    color: Color,
    rows: PhysicalTracks,
    columns: PhysicalTracks,
    scale: Binary64,
    i: int,
) -> RectFill {
    let track = rows.tracks@[i];
    let top = track.start.minus(rows.origin).to_binary64();
    RectFill {
        color,
        rect: Rect {
            x0: Binary64::zero().times(scale),
            y0: top.times(scale),
            x1: columns.span.to_binary64().times(scale),
            y1: top.plus(track.end.minus(track.start).to_binary64()).times(scale),
        },
    }
}

/// Whether a row has a background: it was laid out, and has a colour that is not transparent.
pub open spec fn has_background(
    colors: Seq<Option<Color>>,
    rows: PhysicalTracks,
    i: int,
) -> bool {
    &&& 0 <= i < colors.len()
    &&& i < rows.tracks@.len()
    &&& colors[i] matches Some(color) && !color.same_as(Color::transparent())
}

/// Every row that was laid out and has a colour is filled with it, from where the row starts to
/// where it ends and right across the table; and nothing else is filled.
pub proof fn law_rows_are_filled_where_they_are(
    colors: Seq<Option<Color>>,
    rows: PhysicalTracks,
    columns: PhysicalTracks,
    scale: Binary64,
    i: int,
)
    ensures
        ({
            let fills = background_fills(colors, rows, columns, scale);
            &&& has_background(colors, rows, i) ==> fills.contains(
                row_fill(colors[i]->0, rows, columns, scale, i),
            )
            &&& 0 <= i < fills.len() ==> exists|k: int|
                has_background(colors, rows, k) && fills[i] == #[trigger] row_fill(
                    colors[k]->0,
                    rows,
                    columns,
                    scale,
                    k,
                )
        }),
{
    let n = if colors.len() < rows.tracks@.len() {
        colors.len()
    } else {
        rows.tracks@.len()
    };
    if has_background(colors, rows, i) {
        lemma_row_is_filled(colors, rows, columns, scale, n, i);
    }
    if 0 <= i < background_fills(colors, rows, columns, scale).len() {
        lemma_fill_is_a_row(colors, rows, columns, scale, n, i);
    }
}

proof fn lemma_row_is_filled(
    colors: Seq<Option<Color>>,
    rows: PhysicalTracks,
    columns: PhysicalTracks,
    scale: Binary64,
    n: nat,
    i: int,
)
    requires
        has_background(colors, rows, i),
        i < n <= colors.len(),
        n <= rows.tracks@.len(),
    ensures
        crate::table::row_backgrounds(
            colors,
            rows,
            columns.span.to_binary64(),
            scale,
            n,
        ).contains(row_fill(colors[i]->0, rows, columns, scale, i)),
    decreases n,
{
    let width = columns.span.to_binary64();
    let m = (n - 1) as nat;
    let before = crate::table::row_backgrounds(colors, rows, width, scale, m);
    let own = crate::table::row_background(colors, rows, width, scale, m as int);
    let fill = row_fill(colors[i]->0, rows, columns, scale, i);
    if i < m {
        lemma_row_is_filled(colors, rows, columns, scale, m, i);
        let k = choose|k: int| 0 <= k < before.len() && before[k] == fill;
        assert((before + own)[k] == fill);
    } else {
        assert(own[0] == fill);
        assert((before + own)[before.len() as int] == fill);
    }
}

proof fn lemma_fill_is_a_row(
    colors: Seq<Option<Color>>,
    rows: PhysicalTracks,
    columns: PhysicalTracks,
    scale: Binary64,
    n: nat,
    i: int,
)
    requires
        n <= colors.len(),
        n <= rows.tracks@.len(),
        0 <= i < crate::table::row_backgrounds(
            colors,
            rows,
            columns.span.to_binary64(),
            scale,
            n,
        ).len(),
    ensures
        exists|k: int|
            has_background(colors, rows, k) && crate::table::row_backgrounds(
                colors,
                rows,
                columns.span.to_binary64(),
                scale,
                n,
            )[i] == #[trigger] row_fill(colors[k]->0, rows, columns, scale, k),
    decreases n,
{
    let width = columns.span.to_binary64();
    if n > 0 {
        let m = (n - 1) as nat;
        let before = crate::table::row_backgrounds(colors, rows, width, scale, m);
        if i < before.len() {
            lemma_fill_is_a_row(colors, rows, columns, scale, m, i);
        } else {
            assert(has_background(colors, rows, m as int));
            assert(crate::table::row_background(colors, rows, width, scale, m as int)[0]
                == row_fill(colors[m as int]->0, rows, columns, scale, m as int));
        }
    }
}

/// The box that a clip keyword is painted in.
pub open spec fn painted_box(clip: BackgroundClip) -> BoxModelBox {
    match clip {
        BackgroundClip::PaddingBox => BoxModelBox::PaddingBox,
        BackgroundClip::ContentBox => BoxModelBox::ContentBox,
        BackgroundClip::BorderBox | BackgroundClip::BorderArea => BoxModelBox::BorderBox,
    }
}

/// A background is painted from the bottom up: the colour first, if it is not transparent, in the
/// box that the last layer is clipped to; then the layers, the last of the list first, each in the
/// box of its own clip keyword, the keywords being used over and over.
pub proof fn law_a_background_is_painted_from_the_bottom_up(
    color: Color,
    images: Seq<LayerImage>,
    clips: Seq<BackgroundClip>,
    i: int,
    j: int,
)
    requires
        0 < images.len() <= usize::MAX,
        clips.len() > 0,
    ensures
        ({
            let ops = background_ops(color, images, clips);
            let n = images.len() as int;
            let bare = color.same_as(Color::transparent());
            &&& !bare ==> ops.len() > 0 && ops[0] == (BackgroundOp::Color {
                color,
                clip: painted_box(clips[(n - 1) % clips.len() as int]),
            })
            &&& 0 <= i < ops.len() && (i > 0 || bare) ==> {
                &&& ops[i] is Layer
                &&& ops[i]->index < n
                &&& ops[i]->Layer_clip == painted_box(
                    clips[ops[i]->index as int % clips.len() as int],
                )
                &&& images[ops[i]->index as int].kind is Absent ==> false
            }
            &&& 0 <= i < j < ops.len() && (i > 0 || bare) ==> ops[i]->index > ops[j]->index
            &&& 0 <= j < n && images[j].kind is Gradient ==> exists|k: int|
                0 <= k < ops.len() && (#[trigger] ops[k]) is Layer && ops[k]->index == j
            &&& 0 <= j < n && images[j].kind is Url && images[j].resource is Some ==> exists|
                k: int,
            |
                0 <= k < ops.len() && (#[trigger] ops[k]) is Layer && ops[k]->index == j
        }),
{
    let ops = background_ops(color, images, clips);
    let n = images.len();
    let layers = crate::background::layer_ops(images, clips, n);
    let solid = crate::background::solid_ops(
        color,
        crate::background::clip_box(crate::background::cyclic(clips, n - 1)),
    );
    let s = solid.len() as int;
    crate::laws::background::law_layers_are_drawn_back_to_front(images, clips, n);
    if s <= i < ops.len() {
        assert(ops[i] == layers[i - s]);
    }
    if s <= j < ops.len() {
        assert(ops[j] == layers[j - s]);
    }
    if 0 <= j < n && !crate::background::layer_paints_nothing(images[j]) {
        let k = choose|k: int| 0 <= k < layers.len() && (#[trigger] layers[k])->index == j;
        assert(ops[s + k] == layers[k]);
    }
}

/// A gradient is painted as a gradient, and an image as what it was decoded to; anything else
/// paints nothing, and nothing else paints something.
pub proof fn law_layers_are_painted_as_what_they_are(image: LayerImage)
    ensures
        painter_of(image) is Gradient <==> image.kind is Gradient,
        painter_of(image) is Raster <==> image.kind is Url && image.resource == Some(
            ImageResource::Raster,
        ),
        painter_of(image) is Svg <==> image.kind is Url && image.resource == Some(
            ImageResource::Svg,
        ),
{
}

/// A layer is passed over where it is `none`, or where its image is not there, and nowhere else; a
/// layer that is passed over would have painted nothing.
pub proof fn law_layers_without_an_image_are_passed_over(image: LayerImage)
    ensures
        crate::background::layer_paints_nothing(image) <==> image.kind is Absent || image.kind is Url
            && image.resource is None,
        crate::background::layer_paints_nothing(image) ==> painter_of(image) is Nothing,
        !(painter_of(image) is Nothing) ==> !crate::background::layer_paints_nothing(image),
{
}

/// A length is as many whole device pixels as fit in it at the scale; none, where it is not
/// positive.
pub proof fn law_a_widget_is_as_large_as_whole_pixels_fit(length: Binary32, scale: Binary64)
    ensures
        ({
            let p = length.to_binary64().times(scale);
            let n = crate::widget::device_length(length, scale) as int;
            let unit = Binary64::unit() as int;
            p.finite() && 0 <= p.value() && p.value() < 0x1_0000_0000 * unit ==> n * unit
                <= p.value() < (n + 1) * unit
        }),
        ({
            let p = length.to_binary64().times(scale);
            p.nan() || p.value() < 0 ==> crate::widget::device_length(length, scale) == 0
        }),
{
    let p = length.to_binary64().times(scale);
    let unit = Binary64::unit() as int;
    Binary64::lemma_constants(p);
    p.lemma_sign();
    if p.finite() && 0 <= p.value() && p.value() < 0x1_0000_0000 * unit {
        let k = p.value() / unit;
        vstd::arithmetic::div_mod::lemma_fundamental_div_mod(p.value(), unit);
        vstd::arithmetic::div_mod::lemma_mod_bound(p.value(), unit);
        assert(0 <= k < 0x1_0000_0000) by (nonlinear_arith)
            requires
                p.value() == unit * k + p.value() % unit,
                0 <= p.value() % unit < unit,
                0 <= p.value() < 0x1_0000_0000 * unit,
        ;
        crate::ieee::facts::lemma_value_zero(crate::ieee::model::Format::Double, p.bits as nat);
        assert(unit * k == k * unit && (k + 1) * unit == k * unit + unit) by (nonlinear_arith);
        if p.negative() {
            assert(p.value() == 0);
            vstd::arithmetic::div_mod::lemma_small_mod(0, unit as nat);
        }
    }
}

/// Whether a widget has something to paint at a scale.
pub open spec fn can_paint(node: WidgetNode, scale: Binary64) -> bool {
    &&& node.styled
    &&& node.status is Some
    &&& crate::widget::device_length(node.width, scale) > 0
    &&& crate::widget::device_length(node.height, scale) > 0
}

/// The widgets of a document that can paint are asked to, each under its own document and node, in
/// its own size; and no others are.
pub proof fn law_widgets_that_can_paint_are_asked_to(doc: Document, scale: Binary64, i: int)
    ensures
        0 <= i < doc.widgets@.len() && can_paint(doc.widgets@[i], scale) ==> exists|k: int|
            0 <= k < document_jobs(doc, scale).len() && {
                let job = #[trigger] document_jobs(doc, scale)[k];
                let node = doc.widgets@[i];
                &&& job.document == doc.id
                &&& job.node_id == node.node_id
                &&& job.paint.width == crate::widget::device_length(node.width, scale)
                &&& job.paint.height == crate::widget::device_length(node.height, scale)
                &&& job.paint.resume <==> node.status == Some(
                    crate::widget::CustomWidgetStatus::Suspended,
                )
                &&& job.paint.status is Active
            },
{
    if 0 <= i < doc.widgets@.len() && can_paint(doc.widgets@[i], scale) {
        let n = doc.widgets@.len();
        let own = crate::widget::own_jobs(doc.id, doc.widgets@, scale, n);
        let k = lemma_own_job(doc.id, doc.widgets@, scale, n, i);
        assert(document_jobs(doc, scale)[k] == own[k]);
    }
}

proof fn lemma_own_job(
    document: usize,
    widgets: Seq<WidgetNode>,
    scale: Binary64,
    n: nat,
    i: int,
) -> (k: int)
    requires
        0 <= i < n <= widgets.len(),
        can_paint(widgets[i], scale),
    ensures
        ({
            let jobs = crate::widget::own_jobs(document, widgets, scale, n);
            &&& 0 <= k < jobs.len()
            &&& jobs[k].document == document
            &&& jobs[k].node_id == widgets[i].node_id
            &&& crate::widget::process_custom_widget_node(widgets[i], scale) == Some(jobs[k].paint)
        }),
    decreases n,
{
    let m = (n - 1) as nat;
    if i < m {
        lemma_own_job(document, widgets, scale, m, i)
    } else {
        crate::widget::own_jobs(document, widgets, scale, m).len() as int
    }
}

} // verus!
