//! Placement of a repeated background image along one axis.

use crate::ieee::Binary64;
use vstd::prelude::*;

verus! {

/// `background-repeat` along one axis.
#[derive(Clone, Copy, Debug, PartialEq, Eq, Structural)]
pub enum RepeatKeyword {
    Repeat,
    Space,
    Round,
    NoRepeat,
}

/// The placement and tiling of a background layer along one axis: a translation applied
/// to the layer as a whole, the length of each filled rect, and the number of explicit
/// tiles with the stride between them.
#[derive(Clone, Copy, Debug, PartialEq, Eq, Structural)]
pub struct AxisTiling {
    /// Translation positioning the first tile.
    pub translate: Binary64,
    /// Length of each filled rect, in the coordinate space of the fill's transform.
    pub rect_len: Binary64,
    /// Number of explicitly drawn tiles.
    pub count: u32,
    /// Distance between the starts of consecutive tiles.
    pub stride: Binary64,
}

/// The distance from a tile boundary before `offset` up to `offset`'s next boundary: how
/// far tiling has to start ahead of an area so that a tile boundary falls at `offset`.
pub open spec fn spec_extend(offset: Binary64, length: Binary64) -> Binary64 {
    let over = offset.modulo(length);
    if Binary64::zero().below(over) {
        length.minus(over)
    } else {
        over.negated()
    }
}

/// How far ahead of an area tiling starts so that a tile boundary falls `offset` into it.
#[verifier::when_used_as_spec(spec_extend)]
pub fn extend(offset: Binary64, length: Binary64) -> (r: Binary64)
    ensures
        r == spec_extend(offset, length),
{
    let over = offset.modulo(length);
    if Binary64::zero().below(over) {
        length.minus(over)
    } else {
        over.negated()
    }
}

/// The number of whole tiles of length `size` in `area`, at least one.
pub open spec fn space_count(area: Binary64, size: Binary64) -> u32 {
    let whole = area.minus(area.modulo(size)).over(size).to_unsigned(u32::MAX as u64);
    if whole < 1 {
        1
    } else {
        whole as u32
    }
}

/// The distance between the starts of `space` tiles: the leftover of the area is shared
/// out between them.
pub open spec fn space_stride(area: Binary64, size: Binary64) -> Binary64 {
    let count = space_count(area, size);
    let gap = if count > 1 {
        area.modulo(size).over(Binary64::from_unsigned((count - 1) as u64))
    } else {
        Binary64::zero()
    };
    gap.plus(size)
}

/// Number of tiles and stride for `background-repeat: space`.
pub fn compute_space_count_and_stride(area: Binary64, size: Binary64) -> (r: (u32, Binary64))
    ensures
        r.0 == space_count(area, size),
        r.1 == space_stride(area, size),
        r.0 >= 1,
{
    let leftover = area.modulo(size);
    let whole: u64 = area.minus(leftover).over(size).to_unsigned(u32::MAX as u64);
    let count: u32 = if whole < 1 {
        1
    } else {
        whole as u32
    };
    let gap = if count > 1 {
        leftover.over(Binary64::from_unsigned((count - 1) as u64))
    } else {
        Binary64::zero()
    };
    (count, gap.plus(size))
}

/// What `space` puts a lone tile at; several tiles start at the edge of the area.
pub open spec fn space_offset(count: u32, bg_pos: Binary64) -> Binary64 {
    if count == 1 {
        bg_pos
    } else {
        Binary64::zero()
    }
}

/// The tiling of a raster layer.
pub open spec fn spec_raster_axis_tiling(
    repeat: RepeatKeyword,
    origin_start: Binary64,
    origin_len: Binary64,
    bg_pos: Binary64,
    tile_len: Binary64,
    image_len: Binary64,
    ratio: Binary64,
) -> AxisTiling {
    match repeat {
        RepeatKeyword::Repeat | RepeatKeyword::Round => {
            let ahead = extend(bg_pos, tile_len);
            AxisTiling {
                translate: origin_start.minus(ahead),
                rect_len: origin_len.plus(ahead).over(ratio),
                count: 1,
                stride: Binary64::zero(),
            }
        },
        RepeatKeyword::Space => {
            let count = space_count(origin_len, tile_len);
            AxisTiling {
                translate: origin_start.plus(space_offset(count, bg_pos)),
                rect_len: image_len,
                count,
                stride: space_stride(origin_len, tile_len),
            }
        },
        RepeatKeyword::NoRepeat => AxisTiling {
            translate: origin_start.plus(bg_pos),
            rect_len: image_len,
            count: 1,
            stride: Binary64::zero(),
        },
    }
}

/// Per-axis placement and tiling for a raster image layer.
///
/// `Repeat` and `Round` produce a single fill covering the whole positioning area (the
/// image brush repeats itself), while `Space` produces explicit tiles. The fill rect is in
/// image pixels (the drawing transform is scaled by `ratio`), while translations are in
/// device pixels.
pub fn raster_axis_tiling(
    repeat: RepeatKeyword,
    origin_start: Binary64,
    origin_len: Binary64,
    bg_pos: Binary64,
    tile_len: Binary64,
    image_len: Binary64,
    ratio: Binary64,
) -> (r: AxisTiling)
    ensures
        r == spec_raster_axis_tiling(
            repeat,
            origin_start,
            origin_len,
            bg_pos,
            tile_len,
            image_len,
            ratio,
        ),
{
    match repeat {
        RepeatKeyword::Repeat | RepeatKeyword::Round => {
            let ahead = extend(bg_pos, tile_len);
            AxisTiling {
                translate: origin_start.minus(ahead),
                rect_len: origin_len.plus(ahead).over(ratio),
                count: 1,
                stride: Binary64::zero(),
            }
        },
        RepeatKeyword::Space => {
            let (count, stride) = compute_space_count_and_stride(origin_len, tile_len);
            let offset = if count == 1 {
                bg_pos
            } else {
                Binary64::zero()
            };
            AxisTiling { translate: origin_start.plus(offset), rect_len: image_len, count, stride }
        },
        RepeatKeyword::NoRepeat => AxisTiling {
            translate: origin_start.plus(bg_pos),
            rect_len: image_len,
            count: 1,
            stride: Binary64::zero(),
        },
    }
}

/// Whether the clip box reaches beyond the origin box at either end.
pub open spec fn clip_is_outer(
    origin_start: Binary64,
    origin_len: Binary64,
    clip_start: Binary64,
    clip_len: Binary64,
) -> bool {
    ||| clip_start.below(origin_start)
    ||| origin_start.plus(origin_len).below(clip_start.plus(clip_len))
}

/// The start and the length of the area that repeated tiles cover: the origin box, or the
/// clip box where that reaches beyond it.
pub open spec fn tiled_area(
    origin_start: Binary64,
    origin_len: Binary64,
    clip_start: Binary64,
    clip_len: Binary64,
) -> (Binary64, Binary64) {
    if clip_is_outer(origin_start, origin_len, clip_start, clip_len) {
        (clip_start, clip_len)
    } else {
        (origin_start, origin_len)
    }
}

/// How far ahead of its area a layer's repeated tiles start.
pub open spec fn tiles_ahead(
    origin_start: Binary64,
    area_start: Binary64,
    bg_pos: Binary64,
    tile_len: Binary64,
) -> Binary64 {
    extend(origin_start.minus(area_start).plus(bg_pos), tile_len)
}

/// The tiling of a layer that has no brush to repeat for it.
pub open spec fn spec_gradient_axis_tiling(
    repeat: RepeatKeyword,
    origin_start: Binary64,
    origin_len: Binary64,
    clip_start: Binary64,
    clip_len: Binary64,
    bg_pos: Binary64,
    tile_len: Binary64,
) -> AxisTiling {
    let repeated = tile_len.max(Binary64::one());
    match repeat {
        RepeatKeyword::Repeat | RepeatKeyword::Round => {
            let (area_start, area_len) = tiled_area(
                origin_start,
                origin_len,
                clip_start,
                clip_len,
            );
            let ahead = tiles_ahead(origin_start, area_start, bg_pos, repeated);
            AxisTiling {
                translate: area_start.minus(ahead),
                rect_len: repeated,
                count: area_len.plus(ahead).over(repeated).ceil().to_unsigned(
                    u32::MAX as u64,
                ) as u32,
                stride: repeated,
            }
        },
        RepeatKeyword::Space => {
            let count = space_count(origin_len, repeated);
            AxisTiling {
                translate: origin_start.plus(space_offset(count, bg_pos)),
                rect_len: repeated,
                count,
                stride: space_stride(origin_len, repeated),
            }
        },
        RepeatKeyword::NoRepeat => AxisTiling {
            translate: origin_start.plus(bg_pos),
            rect_len: tile_len,
            count: 1,
            stride: Binary64::zero(),
        },
    }
}

/// Per-axis placement and tiling for a gradient or SVG layer.
///
/// Unlike raster images these cannot rely on brush repetition, so `Repeat` and `Round`
/// also produce explicit tiles. When the clip box extends beyond the origin box, tiling
/// starts from the clip box edge so the pattern covers the whole clipped area. A repeated
/// tile narrower than one device pixel is widened to one, which bounds the tile count by
/// the device pixels of the area.
pub fn gradient_axis_tiling(
    repeat: RepeatKeyword,
    origin_start: Binary64,
    origin_len: Binary64,
    clip_start: Binary64,
    clip_len: Binary64,
    bg_pos: Binary64,
    tile_len: Binary64,
) -> (r: AxisTiling)
    ensures
        r == spec_gradient_axis_tiling(
            repeat,
            origin_start,
            origin_len,
            clip_start,
            clip_len,
            bg_pos,
            tile_len,
        ),
{
    let repeated = tile_len.max(Binary64::one());
    match repeat {
        RepeatKeyword::Repeat | RepeatKeyword::Round => {
            let outer: bool = clip_start.below(origin_start) || origin_start.plus(
                origin_len,
            ).below(clip_start.plus(clip_len));
            let (area_start, area_len) = if outer {
                (clip_start, clip_len)
            } else {
                (origin_start, origin_len)
            };
            let ahead = extend(origin_start.minus(area_start).plus(bg_pos), repeated);
            let count: u64 = area_len.plus(ahead).over(repeated).ceil().to_unsigned(
                u32::MAX as u64,
            );
            AxisTiling {
                translate: area_start.minus(ahead),
                rect_len: repeated,
                count: count as u32,
                stride: repeated,
            }
        },
        RepeatKeyword::Space => {
            let (count, stride) = compute_space_count_and_stride(origin_len, repeated);
            let offset = if count == 1 {
                bg_pos
            } else {
                Binary64::zero()
            };
            AxisTiling { translate: origin_start.plus(offset), rect_len: repeated, count, stride }
        },
        RepeatKeyword::NoRepeat => AxisTiling {
            translate: origin_start.plus(bg_pos),
            rect_len: tile_len,
            count: 1,
            stride: Binary64::zero(),
        },
    }
}

/// Whether culling applies: more than one tile, a positive stride, and every bound a
/// finite number.
pub open spec fn is_cullable(
    tiling: AxisTiling,
    tile_lo: Binary64,
    tile_hi: Binary64,
    surface_lo: Binary64,
    surface_hi: Binary64,
) -> bool {
    &&& tiling.count > 1
    &&& !tiling.stride.at_most(Binary64::zero())
    &&& tile_lo.finite()
    &&& tile_hi.finite()
    &&& surface_lo.finite()
    &&& surface_hi.finite()
    &&& tiling.translate.finite()
    &&& tiling.stride.finite()
}

/// One before the first tile that reaches past the low end of the surface.
pub open spec fn first_visible(
    tiling: AxisTiling,
    tile_hi: Binary64,
    surface_lo: Binary64,
) -> Binary64 {
    surface_lo.minus(tile_hi).minus(tiling.translate).over(tiling.stride).floor().minus(
        Binary64::one(),
    )
}

/// One past the last tile that starts before the high end of the surface.
pub open spec fn last_visible(
    tiling: AxisTiling,
    tile_lo: Binary64,
    surface_hi: Binary64,
) -> Binary64 {
    surface_hi.minus(tile_lo).minus(tiling.translate).over(tiling.stride).ceil().plus(
        Binary64::one(),
    )
}

/// The tiling narrowed to the tiles that can reach the surface.
pub open spec fn spec_culled(
    tiling: AxisTiling,
    tile_lo: Binary64,
    tile_hi: Binary64,
    surface_lo: Binary64,
    surface_hi: Binary64,
) -> AxisTiling {
    if !is_cullable(tiling, tile_lo, tile_hi, surface_lo, surface_hi) {
        tiling
    } else {
        let zero = Binary64::zero();
        let first = first_visible(tiling, tile_hi, surface_lo);
        let last = last_visible(tiling, tile_lo, surface_hi);
        let max_index = Binary64::from_unsigned((tiling.count - 1) as u64);
        if last.below(zero) || max_index.below(first) {
            AxisTiling { count: 0, ..tiling }
        } else {
            let from = first.clamp(zero, max_index);
            let to = last.clamp(from, max_index);
            AxisTiling {
                translate: tiling.translate.plus(from.times(tiling.stride)),
                count: (to.minus(from).to_unsigned(u32::MAX as u64) + 1) as u32,
                ..tiling
            }
        }
    }
}

/// A distance in strides is a number: possibly an infinite one, never a NaN.
pub proof fn lemma_distance_is_number(a: Binary64, b: Binary64, c: Binary64, stride: Binary64)
    requires
        a.finite(),
        b.finite(),
        c.finite(),
        stride.finite(),
        !stride.at_most(Binary64::zero()),
    ensures
        stride.value() > 0,
        !a.minus(b).minus(c).over(stride).nan(),
{
    Binary64::lemma_constants(a);
    a.lemma_minus(b);
    let d = a.minus(b);
    if d.finite() {
        d.lemma_minus(c);
    } else {
        d.lemma_infinite(c);
    }
    let e = d.minus(c);
    if e.finite() {
        e.lemma_over(stride);
    } else {
        e.lemma_infinite(stride);
    }
}

/// The tile before a floor, and the tile after a ceiling, are numbers.
proof fn lemma_step_is_number(q: Binary64)
    requires
        !q.nan(),
    ensures
        !q.floor().minus(Binary64::one()).nan(),
        !q.ceil().plus(Binary64::one()).nan(),
{
    Binary64::lemma_constants(q);
    if q.finite() {
        q.lemma_floor();
        q.lemma_ceil();
    } else {
        q.lemma_floor_infinite();
    }
    let k = q.floor();
    if k.finite() {
        k.lemma_minus(Binary64::one());
    } else {
        k.lemma_infinite(Binary64::one());
    }
    let k = q.ceil();
    if k.finite() {
        k.lemma_plus(Binary64::one());
    } else {
        k.lemma_infinite(Binary64::one());
    }
}

/// The span between two indices of a tiling is an index of it.
pub proof fn lemma_span(from: Binary64, to: Binary64, max_index: Binary64, most: u64)
    requires
        !from.nan(),
        !to.nan(),
        max_index == Binary64::from_unsigned(most),
        most <= u32::MAX as u64,
        0 <= from.value() <= to.value() <= max_index.value(),
    ensures
        from.finite(),
        to.finite(),
        to.minus(from).to_unsigned(u32::MAX as u64) <= most,
{
    Binary64::lemma_from_unsigned(most);
    Binary64::lemma_constants(from);
    Binary64::lemma_constants(to);
    let f = crate::ieee::model::Format::Double;
    let one = Binary64::unit();
    let body = f.body(max_index.bits as nat);
    crate::ieee::model::lemma_mag_order(f, body, f.body(from.bits as nat));
    crate::ieee::model::lemma_mag_order(f, body, f.body(to.bits as nat));
    crate::ieee::facts::lemma_value_zero(f, from.bits as nat);
    crate::ieee::facts::lemma_value_zero(f, to.bits as nat);
    to.lemma_minus(from);
    crate::ieee::facts::lemma_rounded_exact(f, max_index.bits as nat, 1);
    let d = to.value() - from.value();
    assert(max_index.value() * 1 == max_index.value() && d * 1 == d) by (nonlinear_arith);
    crate::ieee::facts::lemma_rounded_monotone(f, d, 1, max_index.value(), 1);
    crate::ieee::facts::lemma_rounded_sign(f, d, 1);
    let r = to.minus(from);
    r.lemma_sign();
    assert(most * one == one * most) by (nonlinear_arith);
    if !r.negative() {
        vstd::arithmetic::div_mod::lemma_multiply_divide_le(
            r.value(),
            one as int,
            most as int,
        );
        crate::ieee::model::lemma_mag_order(f, body, f.body(r.bits as nat));
    }
}

/// Narrow one axis of a tiling to the tiles that can reach the render surface.
///
/// `tile_lo`/`tile_hi` are the axis extent of one tile and `surface_lo`/`surface_hi` the
/// surface, both in the space that the per-tile offset is applied in, so tile `i` is
/// visible iff `tile_lo + translate + i * stride < surface_hi` and
/// `tile_hi + translate + i * stride > surface_lo`. Solving for `i` and keeping one extra
/// tile at each end makes this conservative. Anything that is not finite disables culling.
pub fn cull_axis_to_surface(
    tiling: &mut AxisTiling,
    tile_lo: Binary64,
    tile_hi: Binary64,
    surface_lo: Binary64,
    surface_hi: Binary64,
)
    ensures
        *final(tiling) == spec_culled(*old(tiling), tile_lo, tile_hi, surface_lo, surface_hi),
        final(tiling).count <= old(tiling).count,
{
    let zero = Binary64::zero();
    if tiling.count <= 1 || tiling.stride.at_most(zero) {
        return;
    }
    if !tile_lo.is_finite() || !tile_hi.is_finite() || !surface_lo.is_finite()
        || !surface_hi.is_finite() || !tiling.translate.is_finite() || !tiling.stride.is_finite() {
        return;
    }
    let low = surface_lo.minus(tile_hi).minus(tiling.translate).over(tiling.stride);
    let high = surface_hi.minus(tile_lo).minus(tiling.translate).over(tiling.stride);
    let first = low.floor().minus(Binary64::one());
    let last = high.ceil().plus(Binary64::one());
    let most: u64 = (tiling.count - 1) as u64;
    let max_index = Binary64::from_unsigned(most);
    proof {
        lemma_distance_is_number(surface_lo, tile_hi, tiling.translate, tiling.stride);
        lemma_distance_is_number(surface_hi, tile_lo, tiling.translate, tiling.stride);
        lemma_step_is_number(low);
        lemma_step_is_number(high);
        Binary64::lemma_from_unsigned(most);
        Binary64::lemma_constants(first);
        max_index.lemma_sign();
    }
    if last.below(zero) || max_index.below(first) {
        tiling.count = 0;
        return;
    }
    let from = first.clamp(zero, max_index);
    let to = last.clamp(from, max_index);
    proof {
        lemma_span(from, to, max_index, most);
    }
    tiling.translate = tiling.translate.plus(from.times(tiling.stride));
    let kept: u64 = to.minus(from).to_unsigned(u32::MAX as u64);
    tiling.count = kept as u32 + 1;
}

} // verus!
