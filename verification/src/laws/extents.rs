//! How far things reach: the surface, the strokes of a border, the lines and the dots of an edge;
//! and what is asked of a rasteriser, of a layer's styles and of a segment of a ramp.

use crate::background::{ImageLayerStyles, LayerLists};
use crate::border::{border_ops, BorderOp, BorderStyles, Edge};
use crate::color::Color;
use crate::color_matrix::{ColorMatrixChain, Filter};
use crate::edges::{dotted_edge, straight_centers, straight_line};
use crate::element::{ElementCx, Frame};
use crate::geometry::Rect;
use crate::ieee::facts::lemma_rounded_exact;
use crate::ieee::model::{lemma_mag_order, Format};
use crate::ieee::Binary64;
use crate::laws::culling::is_held;
use crate::laws::placement::{lemma_held_difference, lemma_held_sum};
use crate::layers::{LayerPlacement, LayerTiles};
use crate::pieces::{ordered, run_fills, run_start, EdgePiece};
use crate::ramp::{segment_ends, stages, ColorStop};
use crate::svg_tile::is_substitutable;
use crate::widget::{document_jobs, Document};
use vstd::prelude::*;

verus! {

/// The surface starts where the document was placed on it, and reaches as far to the right as it is
/// wide and as far down as it is high.
pub proof fn law_the_surface_reaches_as_far_as_it_is_large(cx: ElementCx)
    ensures
        ({
            let r = cx.surface_rect();
            let s = cx.surface;
            let unit = Binary64::unit() as int;
            &&& r.x0 == s.initial_x
            &&& r.y0 == s.initial_y
            &&& s.initial_x.finite() && is_held(s.initial_x.value() + s.width * unit)
                ==> r.x1.value() == s.initial_x.value() + s.width * unit
            &&& s.initial_y.finite() && is_held(s.initial_y.value() + s.height * unit)
                ==> r.y1.value() == s.initial_y.value() + s.height * unit
        }),
{
    let s = cx.surface;
    let unit = Binary64::unit() as int;
    Binary64::lemma_from_unsigned(s.width as u64);
    Binary64::lemma_from_unsigned(s.height as u64);
    if s.initial_x.finite() && is_held(s.initial_x.value() + s.width * unit) {
        lemma_held_sum(s.initial_x, Binary64::from_unsigned(s.width as u64));
    }
    if s.initial_y.finite() && is_held(s.initial_y.value() + s.height * unit) {
        lemma_held_sum(s.initial_y, Binary64::from_unsigned(s.height as u64));
    }
}

/// A quotient that can be held is exact.
pub proof fn lemma_held_quotient(a: Binary64, b: Binary64, n: int)
    requires
        a.finite(),
        b.finite(),
        b.value() > 0,
        a.value() * Binary64::unit() == n * b.value(),
        is_held(n),
    ensures
        a.over(b).finite(),
        a.over(b).value() == n,
{
    let f = Format::Double;
    let x = choose|x: Binary64| x.finite() && #[trigger] x.value() == n;
    let q = a.over(b);
    a.lemma_over(b);
    Binary64::lemma_constants(x);
    Binary64::lemma_constants(q);
    lemma_rounded_exact(f, x.bits as nat, b.value() as nat);
    lemma_mag_order(f, f.body(x.bits as nat), f.inf());
    lemma_mag_order(f, f.body(q.bits as nat), f.inf());
}

/// A border that is stroked at once is as wide as the border box reaches beyond the padding box on
/// one side, where both sides are the same and nothing is rounded; and a stroke along an ellipse is
/// half way between the two boxes.
pub proof fn law_a_stroke_is_as_wide_as_the_border(
    frame: Frame,
    scale: Binary64,
    border: BorderStyles,
    w: int,
)
    requires
        border_ops(frame, scale, border).len() == 1,
        ({
            let (bb, pb) = (frame.border_box, frame.padding_box);
            let unit = Binary64::unit() as int;
            &&& bb.x0.finite() && bb.x1.finite() && pb.x0.finite() && pb.x1.finite()
            &&& bb.y0.finite() && bb.y1.finite() && pb.y0.finite() && pb.y1.finite()
            &&& pb.x0.value() - bb.x0.value() == w
            &&& bb.x1.value() - pb.x1.value() == w
            &&& is_held(bb.x1.value() - bb.x0.value())
            &&& is_held(pb.x1.value() - pb.x0.value())
            &&& is_held(bb.y1.value() - bb.y0.value())
            &&& is_held(pb.y1.value() - pb.y0.value())
            &&& is_held(2 * w)
            &&& is_held(w)
        }),
    ensures
        border_ops(frame, scale, border)[0] matches BorderOp::StrokeRoundedRect { width, .. }
            ==> width.value() == w,
        border_ops(frame, scale, border)[0] matches BorderOp::StrokeEllipse { width, rx, ry, center, .. }
            ==> {
            let (bb, pb) = (frame.border_box, frame.padding_box);
            let across = bb.x1.value() - bb.x0.value() + (pb.x1.value() - pb.x0.value());
            let down = bb.y1.value() - bb.y0.value() + (pb.y1.value() - pb.y0.value());
            &&& width.value() == w
            &&& center == bb.center()
            &&& is_held(across) && across % 4 == 0 && is_held(across / 4) ==> 4 * rx.value()
                == across
            &&& is_held(down) && down % 4 == 0 && is_held(down / 4) ==> 4 * ry.value() == down
        },
{
    let (bb, pb) = (frame.border_box, frame.padding_box);
    let unit = Binary64::unit() as int;
    crate::laws::rings::lemma_edges_have_no_stroke(frame, scale, border);
    Binary64::lemma_constants(bb.x0);
    lemma_held_difference(bb.x1, bb.x0);
    lemma_held_difference(pb.x1, pb.x0);
    lemma_held_difference(bb.y1, bb.y0);
    lemma_held_difference(pb.y1, pb.y0);
    lemma_held_difference(bb.width(), pb.width());
    crate::laws::rings::lemma_two_is_two();
    let d = bb.width().minus(pb.width());
    assert(d.value() * unit == w * (2 * unit)) by (nonlinear_arith)
        requires
            d.value() == 2 * w,
    ;
    lemma_held_quotient(d, Binary64::two(), w);
    let across = bb.x1.value() - bb.x0.value() + (pb.x1.value() - pb.x0.value());
    let down = bb.y1.value() - bb.y0.value() + (pb.y1.value() - pb.y0.value());
    let four = Binary64::from_unsigned(4);
    Binary64::lemma_from_unsigned(4);
    if is_held(across) && across % 4 == 0 && is_held(across / 4) {
        lemma_held_sum(bb.width(), pb.width());
        let n = across / 4;
        assert(across * unit == n * (4 * unit)) by (nonlinear_arith)
            requires
                across == 4 * n,
        ;
        lemma_held_quotient(bb.width().plus(pb.width()), four, n);
    }
    if is_held(down) && down % 4 == 0 && is_held(down / 4) {
        lemma_held_sum(bb.height(), pb.height());
        let n = down / 4;
        assert(down * unit == n * (4 * unit)) by (nonlinear_arith)
            requires
                down == 4 * n,
        ;
        lemma_held_quotient(bb.height().plus(pb.height()), four, n);
    }
}

/// The line of an edge runs inside the box, half the thickness from the edge's own side of it, from
/// one end of that side to the other, and is as long as that side.
pub proof fn law_the_line_of_an_edge_runs_inside_its_side(bb: Rect, half: Binary64)
    ensures
        ({
            let (a, b, l) = straight_line(bb, Edge::Top, half);
            &&& a.x == bb.x0 && b.x == bb.x1 && a.y == b.y && l == bb.x1.minus(bb.x0)
            &&& bb.y0.finite() && half.finite() && is_held(bb.y0.value() + half.value())
                ==> a.y.value() == bb.y0.value() + half.value()
        }),
        ({
            let (a, b, l) = straight_line(bb, Edge::Bottom, half);
            &&& a.x == bb.x0 && b.x == bb.x1 && a.y == b.y && l == bb.x1.minus(bb.x0)
            &&& bb.y1.finite() && half.finite() && is_held(bb.y1.value() - half.value())
                ==> a.y.value() == bb.y1.value() - half.value()
        }),
        ({
            let (a, b, l) = straight_line(bb, Edge::Left, half);
            &&& a.y == bb.y0 && b.y == bb.y1 && a.x == b.x && l == bb.y1.minus(bb.y0)
            &&& bb.x0.finite() && half.finite() && is_held(bb.x0.value() + half.value())
                ==> a.x.value() == bb.x0.value() + half.value()
        }),
        ({
            let (a, b, l) = straight_line(bb, Edge::Right, half);
            &&& a.y == bb.y0 && b.y == bb.y1 && a.x == b.x && l == bb.y1.minus(bb.y0)
            &&& bb.x1.finite() && half.finite() && is_held(bb.x1.value() - half.value())
                ==> a.x.value() == bb.x1.value() - half.value()
        }),
{
    if bb.y0.finite() && half.finite() && is_held(bb.y0.value() + half.value()) {
        lemma_held_sum(bb.y0, half);
    }
    if bb.y1.finite() && half.finite() && is_held(bb.y1.value() - half.value()) {
        lemma_held_difference(bb.y1, half);
    }
    if bb.x0.finite() && half.finite() && is_held(bb.x0.value() + half.value()) {
        lemma_held_sum(bb.x0, half);
    }
    if bb.x1.finite() && half.finite() && is_held(bb.x1.value() - half.value()) {
        lemma_held_difference(bb.x1, half);
    }
}

/// The dots of a straight edge touch its own side of the box: each is a radius inside that
/// side, and as far along it as its place in the row says.
pub proof fn law_the_dots_of_an_edge_touch_its_side(
    bb: Rect,
    radius: Binary64,
    spacing: Binary64,
    gaps: nat,
    i: int,
)
    requires
        0 <= i <= gaps,
    ensures
        ({
            let along = radius.plus(Binary64::from_unsigned(i as u64).times(spacing));
            let top = straight_centers(bb, Edge::Top, radius, spacing, gaps);
            let bottom = straight_centers(bb, Edge::Bottom, radius, spacing, gaps);
            let left = straight_centers(bb, Edge::Left, radius, spacing, gaps);
            let right = straight_centers(bb, Edge::Right, radius, spacing, gaps);
            &&& top.len() == gaps + 1 && bottom.len() == gaps + 1
            &&& left.len() == gaps + 1 && right.len() == gaps + 1
            &&& top[i].x == bb.x0.plus(along) && top[i].y == bb.y0.plus(radius)
            &&& bottom[i].x == bb.x0.plus(along) && bottom[i].y == bb.y1.minus(radius)
            &&& left[i].y == bb.y0.plus(along) && left[i].x == bb.x0.plus(radius)
            &&& right[i].y == bb.y0.plus(along) && right[i].x == bb.x1.minus(radius)
        }),
{
}

/// The dots of a straight edge that has room for two reach from corner to corner: the gaps between
/// them add up to the edge less a dot, in exact arithmetic, and there is at least one.
pub proof fn law_the_dots_of_an_edge_reach_from_corner_to_corner(frame: Frame, edge: Edge)
    requires
        dotted_edge(frame, edge) matches Some(dots) && dots.row is Straight,
    ensures
        ({
            let row = dotted_edge(frame, edge)->0.row;
            let bb = frame.border_box;
            let length = if edge is Top || edge is Bottom {
                bb.x1.minus(bb.x0)
            } else {
                bb.y1.minus(bb.y0)
            };
            let width = crate::laws::rings::own_width(frame, edge);
            let (spacing, gaps) = (row->Straight_spacing, row->gaps as int);
            let span = length.value() - width.value();
            &&& length.finite() && width.finite() && is_held(span) && 0 < gaps
                <= 0x20_0000_0000_0000 && span % gaps == 0 && is_held(span / gaps) ==> gaps
                * spacing.value() == span
        }),
{
    let row = dotted_edge(frame, edge)->0.row;
    let bb = frame.border_box;
    let length = if edge is Top || edge is Bottom {
        bb.x1.minus(bb.x0)
    } else {
        bb.y1.minus(bb.y0)
    };
    let width = crate::laws::rings::own_width(frame, edge);
    let gaps = row->gaps as int;
    let span = length.value() - width.value();
    let unit = Binary64::unit() as int;
    if length.finite() && width.finite() && is_held(span) && 0 < gaps <= 0x20_0000_0000_0000 && span
        % gaps == 0 && is_held(span / gaps) {
        lemma_held_difference(length, width);
        Binary64::lemma_from_unsigned(gaps as u64);
        Binary64::lemma_constants(length);
        let n = span / gaps;
        vstd::arithmetic::div_mod::lemma_fundamental_div_mod(span, gaps);
        assert(span * unit == n * (gaps * unit)) by (nonlinear_arith)
            requires
                span == gaps * n + 0,
        ;
        assert(gaps * unit > 0) by (nonlinear_arith)
            requires
                gaps > 0,
                unit > 0,
        ;
        lemma_held_quotient(length.minus(width), Binary64::from_unsigned(gaps as u64), n);
    }
}

/// Whether a number is a whole one, and positive.
pub open spec fn is_whole(x: Binary64) -> bool {
    x.finite() && x.value() % (Binary64::unit() as int) == 0
}

/// A rasterised tile may stand for the replay wherever it can: both axes are laid edge to edge,
/// there is more than one tile, the tile is a whole, positive number of pixels that can be asked
/// for, and the layer is moved by whole pixels and not turned, skewed or scaled; and nowhere else.
pub proof fn law_a_tile_may_stand_for_the_replay_wherever_it_can(
    layer: LayerPlacement,
    tiles: LayerTiles,
    placed: [Binary64; 6],
)
    ensures
        is_substitutable(layer, tiles, placed) <==> {
            let unit = Binary64::unit() as int;
            let (w, h) = (tiles.x.rect_len, tiles.y.rect_len);
            &&& layer.repeat_x is Repeat || layer.repeat_x is Round
            &&& layer.repeat_y is Repeat || layer.repeat_y is Round
            &&& tiles.x.count * tiles.y.count > 1
            &&& is_whole(w) && 0 < w.value() <= u32::MAX * unit
            &&& is_whole(h) && 0 < h.value() <= u32::MAX * unit
            &&& !placed@[0].nan() && placed@[0].value() == unit
            &&& !placed@[1].nan() && placed@[1].value() == 0
            &&& !placed@[2].nan() && placed@[2].value() == 0
            &&& !placed@[3].nan() && placed@[3].value() == unit
            &&& is_whole(placed@[4]) && is_whole(placed@[5])
        },
{
    Binary64::lemma_constants(Binary64::zero());
    Binary64::lemma_from_unsigned(u32::MAX as u64);
    lemma_whole(tiles.x.rect_len);
    lemma_whole(tiles.y.rect_len);
    lemma_whole(placed@[4]);
    lemma_whole(placed@[5]);
}

/// Whole numbers are the integral patterns.
proof fn lemma_whole(x: Binary64)
    ensures
        x.is_integral() <==> is_whole(x),
{
    let f = Format::Double;
    let unit = Binary64::unit() as int;
    Binary64::lemma_constants(x);
    let s = f.size(x.bits as nat) as int;
    assert(x.value() == s || x.value() == -s);
    let (k, r) = (s / unit, s % unit);
    vstd::arithmetic::div_mod::lemma_fundamental_div_mod(s, unit);
    vstd::arithmetic::div_mod::lemma_mod_bound(s, unit);
    if r == 0 {
        assert(-s == (-k) * unit + 0) by (nonlinear_arith)
            requires
                s == unit * k + 0,
        ;
        vstd::arithmetic::div_mod::lemma_fundamental_div_mod_converse(-s, unit, -k, 0);
    } else {
        assert(-s == (-k - 1) * unit + (unit - r)) by (nonlinear_arith)
            requires
                s == unit * k + r,
        ;
        vstd::arithmetic::div_mod::lemma_fundamental_div_mod_converse(
            -s,
            unit,
            -k - 1,
            unit - r,
        );
    }
}

/// Each style of a layer is the one that its list has for it: the lists are gone through over and
/// over, each by its own length; the image and its data are those of the layer itself.
pub proof fn law_a_layer_gets_its_styles_from_each_list<'a, I, D, P, S>(
    styles: ImageLayerStyles<'a, I, D, P, S>,
    lists: LayerLists<'a, I, P, S>,
    data: Seq<Option<D>>,
    idx: int,
)
    requires
        lists.is_complete(),
        0 <= idx < lists.image@.len(),
        styles.is_layer(lists, data, idx),
    ensures
        *styles.image == lists.image@[idx],
        *styles.position_x == lists.position_x@[idx % lists.position_x@.len() as int],
        *styles.position_y == lists.position_y@[idx % lists.position_y@.len() as int],
        styles.repeat == lists.repeat@[idx % lists.repeat@.len() as int],
        *styles.size == lists.size@[idx % lists.size@.len() as int],
        styles.clip == crate::laws::tables::painted_box(
            lists.clip@[idx % lists.clip@.len() as int],
        ),
        styles.origin is BorderBox <==> lists.origin@[idx % lists.origin@.len() as int]
            is BorderBox,
        styles.origin is PaddingBox <==> lists.origin@[idx % lists.origin@.len() as int]
            is PaddingBox,
        styles.image_data matches Some(d) ==> idx < data.len() && data[idx] == Some(*d),
        idx < data.len() && data[idx] is Some ==> styles.image_data is Some,
{
}

/// The functions of a `filter` list that are colour matrices are the seven, and no others.
pub proof fn law_seven_functions_are_matrices(filter: Filter)
    ensures
        filter.matrix() is Some <==> !(filter is Blur || filter is DropShadow || filter is Opacity
            || filter is Url),
{
}

/// A segment that any number of the matrices would need more than 32 stops for keeps its ends
/// alone, and one for which none does keeps every stop that is inside.
pub proof fn law_a_segment_past_the_limit_keeps_its_ends(
    chain: ColorMatrixChain,
    start: Color,
    end: Color,
    premultiplied: bool,
    m: nat,
)
    requires
        m <= chain.matrices().len(),
    ensures
        stages(chain.matrices(), segment_ends(start, end), premultiplied, m).len() > 32
            ==> chain.segment_stops(start, end, premultiplied).len() == 0,
        (forall|k: nat|
            k <= chain.matrices().len() ==> (#[trigger] stages(
                chain.matrices(),
                segment_ends(start, end),
                premultiplied,
                k,
            )).len() <= 32) ==> forall|stop: ColorStop|
            (#[trigger] stages(
                chain.matrices(),
                segment_ends(start, end),
                premultiplied,
                chain.matrices().len(),
            ).contains(stop)) && crate::ramp::is_interior(stop.offset) ==> chain.segment_stops(
                start,
                end,
                premultiplied,
            ).contains(stop),
{
    let all = stages(
        chain.matrices(),
        segment_ends(start, end),
        premultiplied,
        chain.matrices().len(),
    );
    assert forall|stop: ColorStop|
        (#[trigger] all.contains(stop)) && crate::ramp::is_interior(
            stop.offset,
        ) implies crate::ramp::interior(all).contains(stop) by {
        lemma_inside_is_kept(all, stop);
    }
}

proof fn lemma_inside_is_kept(s: Seq<ColorStop>, stop: ColorStop)
    requires
        s.contains(stop),
        crate::ramp::is_interior(stop.offset),
    ensures
        crate::ramp::interior(s).contains(stop),
    decreases s.len(),
{
    let i = choose|i: int| 0 <= i < s.len() && s[i] == stop;
    let short = s.drop_last();
    let before = crate::ramp::interior(short);
    let all = crate::ramp::interior(s);
    if i < short.len() {
        assert(short[i] == stop);
        lemma_inside_is_kept(short, stop);
        let k = choose|k: int| 0 <= k < before.len() && before[k] == stop;
        assert(all[k] == stop);
    } else {
        assert(all[before.len() as int] == stop);
    }
}

/// The widgets of the documents inside a document are asked to paint as they would be on their own,
/// after those of the document itself.
pub proof fn law_documents_inside_a_document_are_asked_too(
    doc: Document,
    scale: Binary64,
    i: int,
    k: int,
)
    requires
        0 <= i < doc.sub_documents@.len(),
        0 <= k < document_jobs(doc.sub_documents@[i], scale).len(),
    ensures
        document_jobs(doc, scale).contains(document_jobs(doc.sub_documents@[i], scale)[k]),
{
    let n = doc.sub_documents@.len();
    let job = document_jobs(doc.sub_documents@[i], scale)[k];
    lemma_inner_job(doc, scale, n, i, k);
    let subs = crate::widget::sub_document_jobs(doc, scale, n);
    let own = crate::widget::own_jobs(doc.id, doc.widgets@, scale, doc.widgets@.len());
    let j = choose|j: int| 0 <= j < subs.len() && subs[j] == job;
    assert((own + subs)[own.len() + j] == job);
}

proof fn lemma_inner_job(doc: Document, scale: Binary64, n: nat, i: int, k: int)
    requires
        0 <= i < n <= doc.sub_documents@.len(),
        0 <= k < document_jobs(doc.sub_documents@[i], scale).len(),
    ensures
        crate::widget::sub_document_jobs(doc, scale, n).contains(
            document_jobs(doc.sub_documents@[i], scale)[k],
        ),
    decreases n,
{
    let m = (n - 1) as nat;
    let before = crate::widget::sub_document_jobs(doc, scale, m);
    let last = document_jobs(doc.sub_documents@[m as int], scale);
    let job = document_jobs(doc.sub_documents@[i], scale)[k];
    assert(crate::widget::sub_document_jobs(doc, scale, n) == before + last);
    if i < m {
        lemma_inner_job(doc, scale, m, i, k);
        let j = choose|j: int| 0 <= j < before.len() && before[j] == job;
        assert((before + last)[j] == job);
    } else {
        assert((before + last)[before.len() + k] == job);
    }
}

/// Pieces are filled together exactly where they have one colour: a piece joins the one before it
/// if and only if they have the same colour, and no two pieces that are not filled together have
/// the same colour.
pub proof fn law_pieces_of_one_color_are_filled_together(
    pieces: Seq<(Color, EdgePiece)>,
    i: int,
)
    requires
        crate::laws::border::has_numbers(pieces),
        0 <= i < run_fills(ordered(pieces)).len(),
    ensures
        ({
            let fills = run_fills(ordered(pieces));
            &&& i == 0 ==> !fills[i].joined
            &&& i > 0 ==> (fills[i].joined <==> ordered(pieces)[i].0.same_as(
                ordered(pieces)[i - 1].0,
            ))
            &&& fills[i].color.same_as(ordered(pieces)[i].0)
            &&& fills[i].piece == ordered(pieces)[i].1
        }),
{
    let s = ordered(pieces);
    crate::laws::border::law_pieces_are_ordered_by_color(pieces);
    crate::laws::border::lemma_run_color(s, i as nat);
    if i > 0 {
        crate::laws::border::lemma_run_color(s, (i - 1) as nat);
        let start = run_start(s, (i - 1) as nat);
        let (a, b, c) = (s[start as int].0, s[i - 1].0, s[i].0);
        assert(crate::laws::border::is_number(s[start as int].0));
        assert(crate::laws::border::is_number(s[i - 1].0));
        assert(crate::laws::border::is_number(s[i].0));
        crate::laws::border::lemma_order(a, b, c);
        crate::laws::border::lemma_order(c, b, a);
        crate::laws::border::lemma_order(c, a, b);
        crate::laws::border::lemma_order(b, a, c);
    }
}

} // verus!
