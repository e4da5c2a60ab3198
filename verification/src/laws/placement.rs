//! Where `background-position` and `background-size` put a layer, in CSS pixels.

use crate::background::BoxModelBox;
use crate::element::ElementCx;
use crate::geometry::Rect;
use crate::ieee::facts::lemma_rounded_exact;
use crate::ieee::model::{lemma_mag_order, Format};
use crate::ieee::Binary64;
use crate::laws::culling::{is_held, is_moved_exactly, AxisView};
use crate::layers::{LayerGeometry, LayerPlacement, SvgImage};
use crate::tiling::AxisTiling;
use vstd::prelude::*;

verus! {

/// The box of an element that a keyword names.
pub open spec fn named_box(cx: ElementCx, named: BoxModelBox) -> Rect {
    match named {
        BoxModelBox::BorderBox => cx.frame.border_box,
        BoxModelBox::PaddingBox => cx.frame.padding_box,
        BoxModelBox::ContentBox => cx.frame.content_box,
    }
}

/// The box that a layer is placed against: that of the element which a keyword names, or the
/// viewport, for a fixed layer of an element that is not transformed, nor in one that is.
pub open spec fn layer_box(cx: ElementCx, layer: LayerPlacement, named: BoxModelBox) -> Rect {
    if layer.attachment is Fixed && forall|k: nat|
        !crate::element::is_transformed_at(cx.nodes@, cx.node, k) {
        Rect {
            x0: Binary64::zero(),
            y0: Binary64::zero(),
            x1: Binary64::from_unsigned(cx.surface.width as u64),
            y1: Binary64::from_unsigned(cx.surface.height as u64),
        }
    } else {
        named_box(cx, named)
    }
}

pub proof fn lemma_layer_box(cx: ElementCx, layer: LayerPlacement)
    ensures
        cx.spec_positioning_area(layer).origin == layer_box(cx, layer, layer.origin),
        cx.spec_positioning_area(layer).clip == layer_box(cx, layer, layer.clip),
{
    if exists|k: nat| crate::element::is_transformed_at(cx.nodes@, cx.node, k) {
        let k = choose|k: nat| crate::element::is_transformed_at(cx.nodes@, cx.node, k);
        assert(crate::element::is_transformed_at(cx.nodes@, cx.node, k));
    }
}

/// Whether a tiling is one tile, at a distance in CSS pixels from where a box starts.
pub open spec fn is_one_tile_at(
    tiling: AxisTiling,
    start: Binary64,
    position: Binary64,
    scale: Binary64,
) -> bool {
    &&& tiling.count == 1
    &&& tiling.translate == start.plus(position.times(scale))
}

/// A layer that does not repeat has one tile, which is as far from the left and from the top of
/// its origin box, or of the viewport if it is fixed, as `background-position` says, horizontally
/// and vertically, and as large as its size says. A layer that has a size along both axes is
/// painted.
pub proof fn law_a_layer_that_does_not_repeat_is_at_its_position(
    cx: ElementCx,
    svg: SvgImage,
    layer: LayerPlacement,
    geometry: LayerGeometry,
    surface: Rect,
)
    ensures
        ({
            let origin = layer_box(cx, layer, layer.origin);
            let painted = cx.visible_tiles(layer, geometry, surface);
            let drawn = cx.svg_tiles(svg, layer, geometry, surface);
            &&& painted matches Some(tiles) ==> {
                &&& layer.repeat_x is NoRepeat ==> is_one_tile_at(
                    tiles.x,
                    origin.x0,
                    geometry.position.x,
                    cx.scale,
                ) && tiles.x.rect_len == geometry.size.width.times(cx.scale)
                &&& layer.repeat_y is NoRepeat ==> is_one_tile_at(
                    tiles.y,
                    origin.y0,
                    geometry.position.y,
                    cx.scale,
                ) && tiles.y.rect_len == geometry.size.height.times(cx.scale)
            }
            &&& drawn matches Some(scaled) ==> painted == Some(scaled.tiles)
            &&& !svg.degenerate_view_box ==> (drawn is Some <==> painted is Some)
            &&& layer.repeat_x is NoRepeat && layer.repeat_y is NoRepeat ==> (painted is Some
                <==> !geometry.size.width.times(cx.scale).at_most(Binary64::zero())
                && !geometry.size.height.times(cx.scale).at_most(Binary64::zero()))
        }),
{
    lemma_layer_box(cx, layer);
}

/// The same of a raster image, which is scaled to that size.
pub proof fn law_a_raster_layer_that_does_not_repeat_is_at_its_position(
    cx: ElementCx,
    image_width: u32,
    image_height: u32,
    layer: LayerPlacement,
    geometry: LayerGeometry,
)
    ensures
        ({
            let origin = layer_box(cx, layer, layer.origin);
            let drawn = cx.raster_tiles(image_width, image_height, layer, geometry);
            let (w, h) = (
                Binary64::from_unsigned(image_width as u64),
                Binary64::from_unsigned(image_height as u64),
            );
            &&& layer.repeat_x is NoRepeat ==> {
                &&& is_one_tile_at(drawn.tiles.x, origin.x0, geometry.position.x, cx.scale)
                &&& drawn.tiles.x.rect_len == w
                &&& drawn.scale_x == geometry.size.width.times(cx.scale).over(w)
            }
            &&& layer.repeat_y is NoRepeat ==> {
                &&& is_one_tile_at(drawn.tiles.y, origin.y0, geometry.position.y, cx.scale)
                &&& drawn.tiles.y.rect_len == h
                &&& drawn.scale_y == geometry.size.height.times(cx.scale).over(h)
            }
        }),
{
    lemma_layer_box(cx, layer);
}

/// A fixed layer of an element without a transform is placed from the corner of the viewport, in
/// the same way.
pub proof fn law_a_fixed_layer_is_placed_in_the_viewport(
    cx: ElementCx,
    layer: LayerPlacement,
    geometry: LayerGeometry,
    surface: Rect,
)
    requires
        layer.attachment is Fixed,
        forall|k: nat| !crate::element::is_transformed_at(cx.nodes@, cx.node, k),
    ensures
        ({
            let zero = Binary64::zero();
            let painted = cx.visible_tiles(layer, geometry, surface);
            painted matches Some(tiles) ==> {
                &&& layer.repeat_x is NoRepeat ==> is_one_tile_at(
                    tiles.x,
                    zero,
                    geometry.position.x,
                    cx.scale,
                )
                &&& layer.repeat_y is NoRepeat ==> is_one_tile_at(
                    tiles.y,
                    zero,
                    geometry.position.y,
                    cx.scale,
                )
            }
        }),
{
}

/// How far ahead of an area that starts `d` before a boundary tiles have to start, in units.
pub open spec fn way_ahead(d: int, length: int) -> int {
    (-d) % length
}

/// Whether nothing is rounded where tiles of a length are laid ahead of an area, so that a tile
/// starts at a distance from where a box starts.
pub open spec fn is_laid_exactly(
    start: Binary64,
    area: Binary64,
    position: Binary64,
    length: Binary64,
) -> bool {
    let d = start.value() - area.value();
    let h = way_ahead(d + position.value(), length.value());
    &&& start.finite() && area.finite() && position.finite() && length.finite()
    &&& length.value() > 0
    &&& is_held(d)
    &&& is_held(d + position.value())
    &&& is_held(h)
    &&& is_held(area.value() - h)
}

/// A difference that can be held is exact.
pub proof fn lemma_held_difference(a: Binary64, b: Binary64)
    requires
        a.finite(),
        b.finite(),
        is_held(a.value() - b.value()),
    ensures
        a.minus(b).finite(),
        a.minus(b).value() == a.value() - b.value(),
{
    let n = a.value() - b.value();
    let x = choose|x: Binary64| x.finite() && #[trigger] x.value() == n;
    a.lemma_minus(b);
    lemma_held(a.minus(b), x, n);
}

/// A sum that can be held is exact.
pub proof fn lemma_held_sum(a: Binary64, b: Binary64)
    requires
        a.finite(),
        b.finite(),
        is_held(a.value() + b.value()),
    ensures
        a.plus(b).finite(),
        a.plus(b).value() == a.value() + b.value(),
{
    let n = a.value() + b.value();
    let x = choose|x: Binary64| x.finite() && #[trigger] x.value() == n;
    a.lemma_plus(b);
    lemma_held(a.plus(b), x, n);
}

/// What is rounded from a number that can be held is that number.
proof fn lemma_held(r: Binary64, x: Binary64, n: int)
    requires
        !r.nan(),
        r.value() == Binary64::rounded(n, 1),
        x.finite(),
        x.value() == n,
    ensures
        r.finite(),
        r.value() == n,
{
    let f = Format::Double;
    Binary64::lemma_constants(x);
    Binary64::lemma_constants(r);
    lemma_rounded_exact(f, x.bits as nat, 1);
    assert(n * 1 == n) by (nonlinear_arith);
    lemma_mag_order(f, f.body(x.bits as nat), f.inf());
    lemma_mag_order(f, f.body(r.bits as nat), f.inf());
}

/// How far ahead tiles start is the way ahead, where that can be held.
pub proof fn lemma_extend(offset: Binary64, length: Binary64)
    requires
        offset.finite(),
        length.finite(),
        length.value() > 0,
        is_held(way_ahead(offset.value(), length.value())),
    ensures
        crate::tiling::extend(offset, length).finite(),
        crate::tiling::extend(offset, length).value() == way_ahead(
            offset.value(),
            length.value(),
        ),
{
    let f = Format::Double;
    let over = offset.modulo(length);
    let b = length.value();
    let d = offset.value();
    Binary64::lemma_constants(offset);
    Binary64::lemma_constants(length);
    offset.lemma_modulo(length);
    reveal(Binary64::spec_modulo);
    crate::ieee::facts::lemma_remainder_exact(f, offset.bits as nat, length.bits as nat);
    crate::ieee::facts::lemma_remainder_value(f, offset.bits as nat, length.bits as nat);
    length.lemma_sign();
    offset.lemma_sign();
    over.lemma_sign();
    over.lemma_negated();
    crate::ieee::facts::lemma_value_zero(f, over.bits as nat);
    let a = f.size(offset.bits as nat) as int;
    let r = a % b;
    vstd::arithmetic::div_mod::lemma_fundamental_div_mod(a, b);
    vstd::arithmetic::div_mod::lemma_mod_bound(a, b);
    let q = a / b;
    Binary64::lemma_constants(over);
    lemma_mag_order(f, f.body(over.bits as nat), f.inf());
    lemma_mag_order(f, f.body(length.bits as nat), f.inf());
    assert(f.size(over.bits as nat) == r);
    assert(over.finite());
    if d >= 0 && r > 0 {
        assert(-d == (-q - 1) * b + (b - r)) by (nonlinear_arith)
            requires
                d == b * q + r,
        ;
        vstd::arithmetic::div_mod::lemma_fundamental_div_mod_converse(-d, b, -q - 1, b - r);
        lemma_held_difference(length, over);
    } else if d >= 0 {
        assert(-d == (-q) * b + 0) by (nonlinear_arith)
            requires
                d == b * q + r,
                r == 0,
        ;
        vstd::arithmetic::div_mod::lemma_fundamental_div_mod_converse(-d, b, -q, 0);
    }
}

/// Tiles that are laid exactly have a boundary where they are to.
proof fn lemma_boundary(
    tiling: AxisTiling,
    start: Binary64,
    area: Binary64,
    position: Binary64,
    length: Binary64,
)
    requires
        is_laid_exactly(start, area, position, length),
        tiling.translate == area.minus(
            crate::tiling::extend(start.minus(area).plus(position), length),
        ),
    ensures
        tiling.translate.finite(),
        (start.value() + position.value() - tiling.translate.value()) % length.value() == 0,
{
    lemma_held_difference(start, area);
    lemma_held_sum(start.minus(area), position);
    let offset = start.minus(area).plus(position);
    lemma_extend(offset, length);
    lemma_held_difference(area, crate::tiling::extend(offset, length));
    let (d, b) = (offset.value(), length.value());
    let h = way_ahead(d, b);
    vstd::arithmetic::div_mod::lemma_fundamental_div_mod(-d, b);
    let q = (-d) / b;
    assert(d + h == (-q) * b + 0) by (nonlinear_arith)
        requires
            -d == b * q + h,
    ;
    vstd::arithmetic::div_mod::lemma_fundamental_div_mod_converse(d + h, b, -q, 0);
}

/// Moving by whole tiles keeps the boundaries.
proof fn lemma_kept_boundary(tiling: AxisTiling, view: AxisView, at: int)
    requires
        tiling.stride.value() > 0,
        is_moved_exactly(tiling, view),
        crate::laws::culling::kept(tiling, view).count > 0,
        (at - tiling.translate.value()) % tiling.stride.value() == 0,
    ensures
        ({
            let kept = crate::laws::culling::kept(tiling, view);
            &&& kept.stride == tiling.stride
            &&& (at - kept.translate.value()) % tiling.stride.value() == 0
        }),
{
    crate::laws::culling::law_kept_tiles_stay_in_place(tiling, view, 0);
    let kept = crate::laws::culling::kept(tiling, view);
    let k = crate::laws::culling::first_index(tiling, view);
    let b = tiling.stride.value();
    let n = at - tiling.translate.value();
    let m = at - kept.translate.value();
    assert(0 * b == 0) by (nonlinear_arith);
    vstd::arithmetic::div_mod::lemma_fundamental_div_mod(n, b);
    let q = n / b;
    assert(m == (q - k) * b + 0) by (nonlinear_arith)
        requires
            m == n - k * b,
            n == b * q + 0,
    ;
    vstd::arithmetic::div_mod::lemma_fundamental_div_mod_converse(m, b, q - k, 0);
}

/// A layer that repeats has a tile boundary where `background-position` puts it, from the left and
/// from the top of its origin box: in exact arithmetic, the point is a whole number of tiles from
/// where the painted tiles start.
pub proof fn law_a_repeated_layer_has_a_boundary_at_its_position(
    cx: ElementCx,
    layer: LayerPlacement,
    geometry: LayerGeometry,
    surface: Rect,
)
    requires
        cx.visible_tiles(layer, geometry, surface) is Some,
    ensures
        ({
            let tiles = cx.visible_tiles(layer, geometry, surface)->0;
            let all = cx.lattice(layer, geometry);
            let origin = layer_box(cx, layer, layer.origin);
            let clip = layer_box(cx, layer, layer.clip);
            let x = geometry.position.x.times(cx.scale);
            let y = geometry.position.y.times(cx.scale);
            &&& (layer.repeat_x is Repeat || layer.repeat_x is Round) && tiles.x.count > 0
                && is_laid_exactly(origin.x0, origin.x0, x, tiles.x.stride) && is_laid_exactly(
                origin.x0,
                clip.x0,
                x,
                tiles.x.stride,
            ) && is_moved_exactly(all.x, crate::laws::culling::columns(all, surface)) ==> (
            origin.x0.value() + x.value() - tiles.x.translate.value()) % tiles.x.stride.value()
                == 0
            &&& (layer.repeat_y is Repeat || layer.repeat_y is Round) && tiles.y.count > 0
                && is_laid_exactly(origin.y0, origin.y0, y, tiles.y.stride) && is_laid_exactly(
                origin.y0,
                clip.y0,
                y,
                tiles.y.stride,
            ) && is_moved_exactly(all.y, crate::laws::culling::rows(all, surface)) ==> (
            origin.y0.value() + y.value() - tiles.y.translate.value()) % tiles.y.stride.value()
                == 0
        }),
{
    lemma_layer_box(cx, layer);
    let tiles = cx.visible_tiles(layer, geometry, surface)->0;
    let all = cx.lattice(layer, geometry);
    let rect = all.tile_rect();
    let (origin, clip) = (layer_box(cx, layer, layer.origin), layer_box(cx, layer, layer.clip));
    let x = geometry.position.x.times(cx.scale);
    let y = geometry.position.y.times(cx.scale);
    let across = crate::laws::culling::columns(all, surface);
    let down = crate::laws::culling::rows(all, surface);
    crate::laws::tiling::law_culling_only_narrows(
        all.x,
        rect.x0,
        rect.x1,
        surface.x0,
        surface.x1,
    );
    crate::laws::tiling::law_culling_only_narrows(
        all.y,
        rect.y0,
        rect.y1,
        surface.y0,
        surface.y1,
    );
    if (layer.repeat_x is Repeat || layer.repeat_x is Round) && tiles.x.count > 0
        && is_laid_exactly(origin.x0, origin.x0, x, tiles.x.stride) && is_laid_exactly(
        origin.x0,
        clip.x0,
        x,
        tiles.x.stride,
    ) && is_moved_exactly(all.x, across) {
        let start = if crate::tiling::clip_is_outer(
            origin.x0,
            origin.width(),
            clip.x0,
            clip.width(),
        ) {
            clip.x0
        } else {
            origin.x0
        };
        lemma_boundary(all.x, origin.x0, start, x, all.x.stride);
        lemma_kept_boundary(all.x, across, origin.x0.value() + x.value());
    }
    if (layer.repeat_y is Repeat || layer.repeat_y is Round) && tiles.y.count > 0
        && is_laid_exactly(origin.y0, origin.y0, y, tiles.y.stride) && is_laid_exactly(
        origin.y0,
        clip.y0,
        y,
        tiles.y.stride,
    ) && is_moved_exactly(all.y, down) {
        let start = if crate::tiling::clip_is_outer(
            origin.y0,
            origin.height(),
            clip.y0,
            clip.height(),
        ) {
            clip.y0
        } else {
            origin.y0
        };
        lemma_boundary(all.y, origin.y0, start, y, all.y.stride);
        lemma_kept_boundary(all.y, down, origin.y0.value() + y.value());
    }
}

/// A raster image that repeats has a tile boundary where `background-position` puts it: in exact
/// arithmetic, the point is a whole number of tiles of the layer's size from where the fill starts,
/// which is not behind the origin box.
pub proof fn law_a_repeated_raster_layer_has_a_boundary_at_its_position(
    cx: ElementCx,
    image_width: u32,
    image_height: u32,
    layer: LayerPlacement,
    geometry: LayerGeometry,
)
    ensures
        ({
            let tiles = cx.raster_tiles(image_width, image_height, layer, geometry).tiles;
            let origin = layer_box(cx, layer, layer.origin);
            let (x, w) = (
                geometry.position.x.times(cx.scale),
                geometry.size.width.times(cx.scale),
            );
            let (y, h) = (
                geometry.position.y.times(cx.scale),
                geometry.size.height.times(cx.scale),
            );
            &&& layer.repeat_x is Repeat && is_laid_exactly(origin.x0, origin.x0, x, w) ==> {
                &&& (origin.x0.value() + x.value() - tiles.x.translate.value()) % w.value() == 0
                &&& tiles.x.translate.value() <= origin.x0.value()
                &&& tiles.x.count == 1
            }
            &&& layer.repeat_y is Repeat && is_laid_exactly(origin.y0, origin.y0, y, h) ==> {
                &&& (origin.y0.value() + y.value() - tiles.y.translate.value()) % h.value() == 0
                &&& tiles.y.translate.value() <= origin.y0.value()
                &&& tiles.y.count == 1
            }
        }),
{
    lemma_layer_box(cx, layer);
    let tiles = cx.raster_tiles(image_width, image_height, layer, geometry).tiles;
    let origin = layer_box(cx, layer, layer.origin);
    let (x, w) = (geometry.position.x.times(cx.scale), geometry.size.width.times(cx.scale));
    let (y, h) = (geometry.position.y.times(cx.scale), geometry.size.height.times(cx.scale));
    if layer.repeat_x is Repeat && is_laid_exactly(origin.x0, origin.x0, x, w) {
        lemma_raster_boundary(tiles.x, origin.x0, x, w);
    }
    if layer.repeat_y is Repeat && is_laid_exactly(origin.y0, origin.y0, y, h) {
        lemma_raster_boundary(tiles.y, origin.y0, y, h);
    }
}

proof fn lemma_raster_boundary(
    tiling: AxisTiling,
    start: Binary64,
    position: Binary64,
    length: Binary64,
)
    requires
        is_laid_exactly(start, start, position, length),
        tiling.translate == start.minus(crate::tiling::extend(position, length)),
    ensures
        (start.value() + position.value() - tiling.translate.value()) % length.value() == 0,
        tiling.translate.value() <= start.value(),
{
    lemma_extend(position, length);
    lemma_held_difference(start, crate::tiling::extend(position, length));
    let (d, b) = (position.value(), length.value());
    let h = way_ahead(d, b);
    vstd::arithmetic::div_mod::lemma_fundamental_div_mod(-d, b);
    vstd::arithmetic::div_mod::lemma_mod_bound(-d, b);
    let q = (-d) / b;
    assert(d + h == (-q) * b + 0) by (nonlinear_arith)
        requires
            -d == b * q + h,
    ;
    vstd::arithmetic::div_mod::lemma_fundamental_div_mod_converse(d + h, b, -q, 0);
}

/// Whether two elements agree on everything that is horizontal, and on what has no direction.
pub open spec fn agree_across(a: ElementCx, b: ElementCx) -> bool {
    &&& a.nodes@ == b.nodes@
    &&& a.node == b.node
    &&& a.scale == b.scale
    &&& a.surface.width == b.surface.width
    &&& agree_on_sides(a.frame.border_box, b.frame.border_box)
    &&& agree_on_sides(a.frame.padding_box, b.frame.padding_box)
    &&& agree_on_sides(a.frame.content_box, b.frame.content_box)
}

/// Whether two rectangles have their left and their right side in common.
pub open spec fn agree_on_sides(a: Rect, b: Rect) -> bool {
    a.x0 == b.x0 && a.x1 == b.x1
}

/// What is vertical does not move a tile sideways, nor make it wider: layers that agree on what is
/// horizontal have the same columns, whatever their heights, tops and vertical positions. (With the
/// axes exchanged, the same holds of rows.)
pub proof fn law_columns_depend_on_what_is_horizontal(
    a: ElementCx,
    b: ElementCx,
    svg: SvgImage,
    layer: LayerPlacement,
    other: LayerPlacement,
    geometry: LayerGeometry,
    changed: LayerGeometry,
    surface: Rect,
    moved: Rect,
    image: (u32, u32, u32),
)
    requires
        agree_across(a, b),
        other == (LayerPlacement { repeat_y: other.repeat_y, ..layer }),
        changed.position.x == geometry.position.x,
        changed.size.width == geometry.size.width,
        agree_on_sides(surface, moved),
    ensures
        a.visible_tiles(layer, geometry, surface) matches Some(s) ==> b.visible_tiles(
            other,
            changed,
            moved,
        ) matches Some(t) ==> s.x == t.x,
        ({
            let s = a.raster_tiles(image.0, image.1, layer, geometry);
            let t = b.raster_tiles(image.0, image.2, other, changed);
            s.tiles.x == t.tiles.x && s.scale_x == t.scale_x
        }),
{
    lemma_as_fixed(a, b, layer);
}

proof fn lemma_as_fixed(a: ElementCx, b: ElementCx, layer: LayerPlacement)
    requires
        a.nodes@ == b.nodes@,
        a.node == b.node,
    ensures
        a.is_fixed(layer.attachment) == b.is_fixed(layer.attachment),
{
    if exists|k: nat| crate::element::is_transformed_at(a.nodes@, a.node, k) {
        let k = choose|k: nat| crate::element::is_transformed_at(a.nodes@, a.node, k);
        assert(crate::element::is_transformed_at(b.nodes@, b.node, k));
    }
    if exists|k: nat| crate::element::is_transformed_at(b.nodes@, b.node, k) {
        let k = choose|k: nat| crate::element::is_transformed_at(b.nodes@, b.node, k);
        assert(crate::element::is_transformed_at(a.nodes@, a.node, k));
    }
}

/// Whether nothing is rounded where tiles are counted out over an area, and they can be counted.
pub open spec fn is_counted_exactly(
    start: Binary64,
    lo: Binary64,
    hi: Binary64,
    position: Binary64,
    length: Binary64,
) -> bool {
    let h = way_ahead(start.value() - lo.value() + position.value(), length.value());
    let covered = hi.value() - lo.value() + h;
    &&& is_laid_exactly(start, lo, position, length)
    &&& hi.finite()
    &&& lo.value() < hi.value()
    &&& is_held(hi.value() - lo.value())
    &&& is_held(covered)
    &&& length.value() <= covered * Binary64::unit()
    &&& covered <= u32::MAX * length.value()
}

proof fn lemma_counted(
    tiling: AxisTiling,
    start: Binary64,
    lo: Binary64,
    hi: Binary64,
    position: Binary64,
)
    requires
        is_counted_exactly(start, lo, hi, position, tiling.stride),
        tiling.translate == lo.minus(
            crate::tiling::extend(start.minus(lo).plus(position), tiling.stride),
        ),
        tiling.count == hi.minus(lo).plus(
            crate::tiling::extend(start.minus(lo).plus(position), tiling.stride),
        ).over(tiling.stride).ceil().to_unsigned(u32::MAX as u64) as u32,
    ensures
        tiling.translate.value() <= lo.value(),
        tiling.count * tiling.stride.value() * 0x20_0000_0000_0001 >= (hi.value()
            - tiling.translate.value()) * 0x20_0000_0000_0000,
{
    let f = Format::Double;
    let one = Binary64::unit() as int;
    let tile = tiling.stride;
    lemma_held_difference(start, lo);
    lemma_held_sum(start.minus(lo), position);
    let offset = start.minus(lo).plus(position);
    lemma_extend(offset, tile);
    let ahead = crate::tiling::extend(offset, tile);
    lemma_held_difference(lo, ahead);
    lemma_held_difference(hi, lo);
    lemma_held_sum(hi.minus(lo), ahead);
    let covered = hi.minus(lo).plus(ahead);
    vstd::arithmetic::div_mod::lemma_mod_bound(-offset.value(), tile.value());
    Binary64::lemma_constants(covered);
    Binary64::lemma_constants(tile);
    let q = covered.over(tile);
    covered.lemma_over(tile);
    let (l, t) = (covered.value(), tile.value());
    let n = l * one;
    // The quotient is at least a unit, and no more than can be counted.
    let most = Binary64::from_unsigned(u32::MAX as u64);
    Binary64::lemma_from_unsigned(u32::MAX as u64);
    let m = u32::MAX * one;
    assert(n <= m * t && n * t <= (m * t) * t) by (nonlinear_arith)
        requires
            n == l * one,
            m == u32::MAX * one,
            l <= u32::MAX * t,
            one > 0,
            t > 0,
    {
        assert(l * one <= (u32::MAX * t) * one);
        assert((u32::MAX * t) * one == m * t);
    }
    lemma_rounded_exact(f, most.bits as nat, t as nat);
    crate::ieee::facts::lemma_rounded_monotone(f, n, t as nat, m * t, t as nat);
    assert(q.value() <= m);
    let first = Binary64::from_bits(1);
    assert(first.finite() && first.value() == 1) by {
        reveal(Format::mag);
        crate::ieee::model::lemma_format_constants(f);
    }
    lemma_rounded_exact(f, first.bits as nat, t as nat);
    assert(1 * t == t && t * t <= n * t) by (nonlinear_arith)
        requires
            t <= n,
            t > 0,
    ;
    crate::ieee::facts::lemma_rounded_monotone(f, t, t as nat, n, t as nat);
    assert(q.value() >= 1);
    lemma_mag_order(f, f.body(q.bits as nat), f.inf());
    lemma_mag_order(f, f.body(most.bits as nat), f.inf());
    assert(q.finite());
    q.lemma_ceil();
    let k = -((-q.value()) / one);
    vstd::arithmetic::div_mod::lemma_fundamental_div_mod(-q.value(), one);
    vstd::arithmetic::div_mod::lemma_mod_bound(-q.value(), one);
    assert(k * one >= q.value()) by (nonlinear_arith)
        requires
            -q.value() == one * (-k) + (-q.value()) % one,
            0 <= (-q.value()) % one,
    ;
    assert(0 < k <= u32::MAX) by (nonlinear_arith)
        requires
            -q.value() == one * (-k) + (-q.value()) % one,
            0 <= (-q.value()) % one < one,
            1 <= q.value() <= u32::MAX * one,
    ;
    let c = q.ceil();
    assert(c.value() == k * one);
    Binary64::lemma_constants(c);
    assert(k * one <= m && k * one > 0) by (nonlinear_arith)
        requires
            k <= u32::MAX,
            k > 0,
            m == u32::MAX * one,
            one > 0,
    ;
    lemma_mag_order(f, f.body(c.bits as nat), f.inf());
    c.lemma_sign();
    crate::ieee::facts::lemma_value_zero(f, c.bits as nat);
    vstd::arithmetic::div_mod::lemma_div_by_multiple(k, one);
    assert(c.to_unsigned(u32::MAX as u64) == k);
    // What rounding the quotient can have taken away.
    crate::ieee::model::lemma_format_constants(f);
    assert(f.hidden() == 0x10_0000_0000_0000);
    crate::laws::culling::lemma_bounds(q);
    lemma_unit_stride(q, n, t, k, one);
    let (x, y) = (k * t * 0x20_0000_0000_0001, l * 0x20_0000_0000_0000);
    assert(n * 0x20_0000_0000_0000 == y * one) by (nonlinear_arith)
        requires
            n == l * one,
            y == l * 0x20_0000_0000_0000,
    ;
    assert(x >= y) by (nonlinear_arith)
        requires
            x * one >= y * one,
            one > 0,
    ;
}

/// One is many units.
proof fn lemma_unit_is_larger()
    ensures
        Binary64::unit() >= 0x20_0000_0000_0000,
{
    vstd::arithmetic::power2::lemma_pow2_adds(53, 1021);
    vstd::arithmetic::power2::lemma_pow2_pos(1021);
    vstd::arithmetic::power2::lemma2_to64();
    vstd::arithmetic::power2::lemma2_to64_rest();
    let p = vstd::arithmetic::power2::pow2(1021) as int;
    assert(0x20_0000_0000_0000 * p >= 0x20_0000_0000_0000) by (nonlinear_arith)
        requires
            p >= 1,
    ;
}

/// What is counted is not short by more than a rounding.
proof fn lemma_unit_stride(q: Binary64, n: int, t: int, k: int, one: int)
    requires
        q.finite(),
        t > 0,
        n > 0,
        one == Binary64::unit(),
        q.value() == Binary64::rounded(n, t as nat),
        q.value() >= 1,
        k * one >= q.value(),
        k >= 1,
    ensures
        k * t * 0x20_0000_0000_0001 * one >= n * 0x20_0000_0000_0000,
{
    let f = Format::Double;
    Binary64::lemma_constants(q);
    crate::ieee::model::lemma_format_constants(f);
    assert(f.hidden() == 0x10_0000_0000_0000);
    crate::laws::culling::lemma_bounds(q);
    let b = f.round(n as nat, t as nat);
    let m = f.mag(b) as int;
    assert(m == q.value());
    if m >= f.hidden() {
        crate::ieee::error::lemma_relative_error(f, n as nat, t as nat);
        lemma_mag_order(f, b, f.inf());
        crate::ieee::facts::lemma_round_bound(f, n as nat, t as nat);
        assert(n * 0x20_0000_0000_0000 <= m * t * 0x20_0000_0000_0001);
        assert(m * t <= (k * one) * t) by (nonlinear_arith)
            requires
                m <= k * one,
                t > 0,
        ;
        assert((k * one) * t == k * t * one) by (nonlinear_arith);
        let (x, y) = (m * t, k * t * one);
        assert(k * t * 0x20_0000_0000_0001 * one == y * 0x20_0000_0000_0001) by (nonlinear_arith)
            requires
                y == k * t * one,
        ;
    } else {
        crate::ieee::error::lemma_rounding_error(f, n, t as nat);
        lemma_unit_is_larger();
        let e = q.value() * t - n;
        let slack = if t == 1 {
            0
        } else {
            t * 0x10_0000_0000_0000
        };
        assert(-(n + slack) <= e * 0x1f_ffff_ffff_ffff);
        let z = k * t * one;
        assert(z >= one * t && z >= q.value() * t) by (nonlinear_arith)
            requires
                z == k * t * one,
                k >= 1,
                k * one >= q.value(),
                t > 0,
                one > 0,
        {
            assert(k * t * one == (k * one) * t);
            assert(k * t * one >= 1 * t * one);
        }
        assert(one * t >= 0x10_0000_0000_0000 * t) by (nonlinear_arith)
            requires
                one >= 0x10_0000_0000_0000,
                t > 0,
        ;
        assert(q.value() * t < 0x10_0000_0000_0000 * t) by (nonlinear_arith)
            requires
                q.value() < 0x10_0000_0000_0000,
                t > 0,
        ;
        let w = q.value() * t;
        let v = 0x10_0000_0000_0000 * t;
        assert(t * 0x10_0000_0000_0000 == v);
        assert(w < v && (n - w) * 0x1f_ffff_ffff_ffff <= n + v);
        assert(n <= 2 * v);
        assert(one * t >= 2 * v) by (nonlinear_arith)
            requires
                v == 0x10_0000_0000_0000 * t,
                one >= 0x20_0000_0000_0000,
                t > 0,
        ;
        assert(z >= n);
        assert(k * t * 0x20_0000_0000_0001 * one == z * 0x20_0000_0000_0001) by (nonlinear_arith)
            requires
                z == k * t * one,
        ;
    }
}

/// The tiles of a layer that repeats cover its clip box, and its origin box: along each axis on
/// which it repeats, the first tile starts at or before where the clip box does, and the last ends
/// at or behind where it does, up to what rounding the number of tiles takes away.
pub proof fn law_a_repeated_layer_covers_its_clip_box(
    cx: ElementCx,
    layer: LayerPlacement,
    geometry: LayerGeometry,
)
    ensures
        ({
            let all = cx.lattice(layer, geometry);
            let origin = layer_box(cx, layer, layer.origin);
            let clip = layer_box(cx, layer, layer.clip);
            let x = geometry.position.x.times(cx.scale);
            let y = geometry.position.y.times(cx.scale);
            &&& (layer.repeat_x is Repeat || layer.repeat_x is Round) && is_counted_exactly(
                origin.x0,
                origin.x0,
                origin.x1,
                x,
                all.x.stride,
            ) && is_counted_exactly(origin.x0, clip.x0, clip.x1, x, all.x.stride) ==> reaches(
                all.x,
                clip.x0,
                clip.x1,
            )
            &&& (layer.repeat_y is Repeat || layer.repeat_y is Round) && is_counted_exactly(
                origin.y0,
                origin.y0,
                origin.y1,
                y,
                all.y.stride,
            ) && is_counted_exactly(origin.y0, clip.y0, clip.y1, y, all.y.stride) ==> reaches(
                all.y,
                clip.y0,
                clip.y1,
            )
        }),
{
    lemma_layer_box(cx, layer);
    let all = cx.lattice(layer, geometry);
    let (origin, clip) = (layer_box(cx, layer, layer.origin), layer_box(cx, layer, layer.clip));
    let x = geometry.position.x.times(cx.scale);
    let y = geometry.position.y.times(cx.scale);
    if (layer.repeat_x is Repeat || layer.repeat_x is Round) && is_counted_exactly(
        origin.x0,
        origin.x0,
        origin.x1,
        x,
        all.x.stride,
    ) && is_counted_exactly(origin.x0, clip.x0, clip.x1, x, all.x.stride) {
        lemma_reaches(all.x, origin.x0, origin.x1, clip.x0, clip.x1, x);
    }
    if (layer.repeat_y is Repeat || layer.repeat_y is Round) && is_counted_exactly(
        origin.y0,
        origin.y0,
        origin.y1,
        y,
        all.y.stride,
    ) && is_counted_exactly(origin.y0, clip.y0, clip.y1, y, all.y.stride) {
        lemma_reaches(all.y, origin.y0, origin.y1, clip.y0, clip.y1, y);
    }
}

/// Whether tiles laid edge to edge reach from one place to another, up to what rounding their
/// number takes away.
pub open spec fn reaches(tiling: AxisTiling, lo: Binary64, hi: Binary64) -> bool {
    &&& tiling.translate.value() <= lo.value()
    &&& tiling.count * tiling.stride.value() * 0x20_0000_0000_0001 >= (hi.value()
        - tiling.translate.value()) * 0x20_0000_0000_0000
}

proof fn lemma_reaches(
    tiling: AxisTiling,
    o0: Binary64,
    o1: Binary64,
    c0: Binary64,
    c1: Binary64,
    position: Binary64,
)
    requires
        is_counted_exactly(o0, o0, o1, position, tiling.stride),
        is_counted_exactly(o0, c0, c1, position, tiling.stride),
        ({
            let outer = crate::tiling::clip_is_outer(o0, o1.minus(o0), c0, c1.minus(c0));
            let (lo, hi) = if outer {
                (c0, c1)
            } else {
                (o0, o1)
            };
            let ahead = crate::tiling::extend(o0.minus(lo).plus(position), tiling.stride);
            &&& tiling.translate == lo.minus(ahead)
            &&& tiling.count == hi.minus(lo).plus(ahead).over(tiling.stride).ceil().to_unsigned(
                u32::MAX as u64,
            ) as u32
        }),
    ensures
        reaches(tiling, c0, c1),
{
    lemma_held_difference(o1, o0);
    lemma_held_difference(c1, c0);
    assert(is_held(o0.value() + o1.minus(o0).value())) by {
        assert(o1.finite() && o1.value() == o0.value() + o1.minus(o0).value());
    }
    assert(is_held(c0.value() + c1.minus(c0).value())) by {
        assert(c1.finite() && c1.value() == c0.value() + c1.minus(c0).value());
    }
    lemma_held_sum(o0, o1.minus(o0));
    lemma_held_sum(c0, c1.minus(c0));
    Binary64::lemma_constants(o0);
    if crate::tiling::clip_is_outer(o0, o1.minus(o0), c0, c1.minus(c0)) {
        lemma_counted(tiling, o0, c0, c1, position);
    } else {
        lemma_counted(tiling, o0, o0, o1, position);
    }
}

/// Whether nothing is rounded where whole tiles of a length are spaced out over an area, and they
/// can be counted.
pub open spec fn is_spaced_exactly(area: Binary64, length: Binary64) -> bool {
    let (n, t) = (area.value(), length.value());
    let (k, r) = (n / t, n % t);
    &&& area.finite() && length.finite()
    &&& t > 0
    &&& 1 <= k <= u32::MAX
    &&& is_held(n - r)
    &&& k > 1 ==> r % (k - 1) == 0 && is_held(r / (k - 1)) && is_held(r / (k - 1) + t)
}

/// Whether a tiling spaces as many whole tiles as fit over an area: one of them at a position, or
/// several from where the area starts to where it ends.
pub open spec fn is_spread_out(
    tiling: AxisTiling,
    start: Binary64,
    area: Binary64,
    position: Binary64,
    length: Binary64,
) -> bool {
    let k = area.value() / length.value();
    &&& tiling.count == k
    &&& k == 1 ==> tiling.translate == start.plus(position)
    &&& k > 1 ==> tiling.translate.value() == start.value() && (k - 1) * tiling.stride.value()
        + length.value() == area.value()
}

proof fn lemma_spread_out(
    tiling: AxisTiling,
    start: Binary64,
    area: Binary64,
    position: Binary64,
    length: Binary64,
)
    requires
        is_spaced_exactly(area, length),
        start.finite(),
        tiling.count == crate::tiling::space_count(area, length),
        tiling.stride == crate::tiling::space_stride(area, length),
        tiling.translate == start.plus(crate::tiling::space_offset(tiling.count, position)),
    ensures
        is_spread_out(tiling, start, area, position, length),
{
    let f = Format::Double;
    let one = Binary64::unit() as int;
    let (n, t) = (area.value(), length.value());
    let (k, r) = (n / t, n % t);
    Binary64::lemma_constants(area);
    Binary64::lemma_constants(length);
    Binary64::lemma_constants(start);
    let left = area.modulo(length);
    area.lemma_modulo(length);
    reveal(Binary64::spec_modulo);
    crate::ieee::facts::lemma_remainder_exact(f, area.bits as nat, length.bits as nat);
    crate::ieee::facts::lemma_remainder_value(f, area.bits as nat, length.bits as nat);
    vstd::arithmetic::div_mod::lemma_fundamental_div_mod(n, t);
    vstd::arithmetic::div_mod::lemma_mod_bound(n, t);
    assert(t * k >= t) by (nonlinear_arith)
        requires
            k >= 1,
            t > 0,
    ;
    area.lemma_sign();
    length.lemma_sign();
    left.lemma_sign();
    crate::ieee::facts::lemma_value_zero(f, left.bits as nat);
    crate::ieee::facts::lemma_value_zero(f, area.bits as nat);
    Binary64::lemma_constants(left);
    lemma_mag_order(f, f.body(left.bits as nat), f.inf());
    lemma_mag_order(f, f.body(length.bits as nat), f.inf());
    assert(left.finite() && left.value() == r);
    lemma_held_difference(area, left);
    let whole = area.minus(left);
    assert(whole.value() == k * t) by (nonlinear_arith)
        requires
            whole.value() == n - r,
            n == t * k + r,
    ;
    whole.lemma_over(length);
    let count = Binary64::from_unsigned(k as u64);
    Binary64::lemma_from_unsigned(k as u64);
    Binary64::lemma_constants(count);
    lemma_rounded_exact(f, count.bits as nat, t as nat);
    assert((k * t) * one == (k * one) * t) by (nonlinear_arith);
    let q = whole.over(length);
    assert(q.value() == k * one);
    assert(k * one > 0) by (nonlinear_arith)
        requires
            k >= 1,
            one > 0,
    ;
    Binary64::lemma_constants(q);
    lemma_mag_order(f, f.body(q.bits as nat), f.inf());
    lemma_mag_order(f, f.body(count.bits as nat), f.inf());
    q.lemma_sign();
    crate::ieee::facts::lemma_value_zero(f, q.bits as nat);
    vstd::arithmetic::div_mod::lemma_div_by_multiple(k, one);
    assert(q.to_unsigned(u32::MAX as u64) == k);
    assert(tiling.count == k);
    if k > 1 {
        let parts = Binary64::from_unsigned((k - 1) as u64);
        Binary64::lemma_from_unsigned((k - 1) as u64);
        assert((k - 1) * one > 0) by (nonlinear_arith)
            requires
                k > 1,
                one > 0,
        ;
        left.lemma_over(parts);
        let g = r / (k - 1);
        vstd::arithmetic::div_mod::lemma_fundamental_div_mod(r, k - 1);
        let held = choose|x: Binary64| x.finite() && #[trigger] x.value() == g;
        Binary64::lemma_constants(held);
        let d = ((k - 1) * one) as nat;
        lemma_rounded_exact(f, held.bits as nat, d);
        assert(r * one == g * ((k - 1) * one)) by (nonlinear_arith)
            requires
                r == (k - 1) * g + 0,
        ;
        let gap = left.over(parts);
        assert(gap.value() == g);
        Binary64::lemma_constants(gap);
        lemma_mag_order(f, f.body(gap.bits as nat), f.inf());
        lemma_mag_order(f, f.body(held.bits as nat), f.inf());
        lemma_held_sum(gap, length);
        assert((k - 1) * (g + t) + t == n) by (nonlinear_arith)
            requires
                r == (k - 1) * g + 0,
                n == t * k + r,
        ;
        let zero = Binary64::zero();
        start.lemma_plus(zero);
        lemma_rounded_exact(f, start.bits as nat, 1);
        assert(start.value() * 1 == start.value()) by (nonlinear_arith);
    }
}

/// A layer that is spaced out has as many whole tiles as fit its origin box, the first at one end
/// of the box and the last at the other, with equal gaps between; or one tile at its position,
/// where two do not fit.
pub proof fn law_a_spaced_layer_fills_its_origin_box(
    cx: ElementCx,
    image_width: u32,
    image_height: u32,
    layer: LayerPlacement,
    geometry: LayerGeometry,
)
    ensures
        ({
            let all = cx.lattice(layer, geometry);
            let raster = cx.raster_tiles(image_width, image_height, layer, geometry).tiles;
            let origin = layer_box(cx, layer, layer.origin);
            let (x, w) = (
                geometry.position.x.times(cx.scale),
                geometry.size.width.times(cx.scale),
            );
            let (y, h) = (
                geometry.position.y.times(cx.scale),
                geometry.size.height.times(cx.scale),
            );
            let (across, down) = (origin.x1.minus(origin.x0), origin.y1.minus(origin.y0));
            &&& layer.repeat_x is Space && origin.x0.finite() && is_spaced_exactly(
                across,
                all.x.rect_len,
            ) ==> is_spread_out(all.x, origin.x0, across, x, all.x.rect_len)
            &&& layer.repeat_y is Space && origin.y0.finite() && is_spaced_exactly(
                down,
                all.y.rect_len,
            ) ==> is_spread_out(all.y, origin.y0, down, y, all.y.rect_len)
            &&& layer.repeat_x is Space && origin.x0.finite() && is_spaced_exactly(across, w)
                ==> is_spread_out(raster.x, origin.x0, across, x, w)
            &&& layer.repeat_y is Space && origin.y0.finite() && is_spaced_exactly(down, h)
                ==> is_spread_out(raster.y, origin.y0, down, y, h)
        }),
{
    lemma_layer_box(cx, layer);
    let all = cx.lattice(layer, geometry);
    let raster = cx.raster_tiles(image_width, image_height, layer, geometry).tiles;
    let origin = layer_box(cx, layer, layer.origin);
    let (x, w) = (geometry.position.x.times(cx.scale), geometry.size.width.times(cx.scale));
    let (y, h) = (geometry.position.y.times(cx.scale), geometry.size.height.times(cx.scale));
    let (across, down) = (origin.x1.minus(origin.x0), origin.y1.minus(origin.y0));
    if layer.repeat_x is Space && origin.x0.finite() && is_spaced_exactly(across, all.x.rect_len) {
        lemma_spread_out(all.x, origin.x0, across, x, all.x.rect_len);
    }
    if layer.repeat_y is Space && origin.y0.finite() && is_spaced_exactly(down, all.y.rect_len) {
        lemma_spread_out(all.y, origin.y0, down, y, all.y.rect_len);
    }
    if layer.repeat_x is Space && origin.x0.finite() && is_spaced_exactly(across, w) {
        lemma_spread_out(raster.x, origin.x0, across, x, w);
    }
    if layer.repeat_y is Space && origin.y0.finite() && is_spaced_exactly(down, h) {
        lemma_spread_out(raster.y, origin.y0, down, y, h);
    }
}

/// A tile that is repeated or spaced out is as large as the layer's size says, and never less
/// than a device pixel; repeated tiles are laid edge to edge, and an SVG is scaled to its tile
/// along each axis.
pub proof fn law_tiles_are_as_large_as_their_layer(
    cx: ElementCx,
    svg: SvgImage,
    layer: LayerPlacement,
    geometry: LayerGeometry,
    surface: Rect,
)
    requires
        cx.svg_tiles(svg, layer, geometry, surface) is Some,
    ensures
        ({
            let scaled = cx.svg_tiles(svg, layer, geometry, surface)->0;
            let tiles = scaled.tiles;
            let (w, h) = (
                geometry.size.width.times(cx.scale),
                geometry.size.height.times(cx.scale),
            );
            let one = Binary64::one();
            &&& layer.repeat_x is Repeat || layer.repeat_x is Space ==> tiles.x.rect_len == w.max(
                one,
            )
            &&& layer.repeat_y is Repeat || layer.repeat_y is Space ==> tiles.y.rect_len == h.max(
                one,
            )
            &&& layer.repeat_x is Repeat || layer.repeat_x is Round ==> tiles.x.stride
                == tiles.x.rect_len
            &&& layer.repeat_y is Repeat || layer.repeat_y is Round ==> tiles.y.stride
                == tiles.y.rect_len
            &&& scaled.scale_x == tiles.tile_rect().width().over(svg.tree_width.to_binary64())
            &&& scaled.scale_y == tiles.tile_rect().height().over(svg.tree_height.to_binary64())
        }),
{
    let all = cx.lattice(layer, geometry);
    let rect = all.tile_rect();
    crate::laws::tiling::law_culling_only_narrows(
        all.x,
        rect.x0,
        rect.x1,
        surface.x0,
        surface.x1,
    );
    crate::laws::tiling::law_culling_only_narrows(
        all.y,
        rect.y0,
        rect.y1,
        surface.y0,
        surface.y1,
    );
}

} // verus!
