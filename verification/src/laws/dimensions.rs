//! How large a layer is, and what its position is measured against.

use crate::geometry::Size;
use crate::ieee::error::lemma_relative_error;
use crate::ieee::model::{lemma_format_constants, lemma_mag_order, Format};
use crate::ieee::Binary32;
use crate::laws::sizing::{covers, fits, is_length, is_normal, keeps_proportions, meets};
use crate::layers::SvgImage;
use crate::sizing::{
    room_left, round_layer_size, spec_layer_position, spec_layer_size, BackgroundSize,
    BackgroundSizeComputeMode,
};
use crate::tiling::RepeatKeyword;
use vstd::prelude::*;

verus! {

/// Whether a size has a width and a height, widened.
pub open spec fn is_widened(s: Size, width: Binary32, height: Binary32) -> bool {
    s.width == width.to_binary64() && s.height == height.to_binary64()
}

/// Lengths that are given are the lengths of the layer; where one is missing, an image without a
/// ratio has its own there, and where it has none, or where there is no image, the layer is as long
/// as the area.
pub proof fn law_given_lengths_are_the_lengths_of_the_layer(
    width: Binary32,
    height: Binary32,
    own_width: Option<Binary32>,
    own_height: Option<Binary32>,
    container_w: Binary32,
    container_h: Binary32,
    mode: BackgroundSizeComputeMode,
)
    ensures
        ({
            let (w, h) = (Some(width), Some(height));
            let plain = BackgroundSizeComputeMode::Intrinsic {
                width: own_width,
                height: own_height,
                ratio: None,
            };
            let auto = BackgroundSizeComputeMode::Auto;
            let sized = |width: Option<Binary32>, height: Option<Binary32>, mode: BackgroundSizeComputeMode|
                spec_layer_size(
                    BackgroundSize::ExplicitSize { width, height },
                    container_w,
                    container_h,
                    mode,
                );
            let (across, down) = (
                match own_width {
                    Some(x) => x,
                    None => container_w,
                },
                match own_height {
                    Some(x) => x,
                    None => container_h,
                },
            );
            &&& is_widened(sized(w, h, mode), width, height)
            &&& sized(w, None, mode).width == width.to_binary64()
            &&& sized(None, h, mode).height == height.to_binary64()
            &&& is_widened(sized(w, None, plain), width, down)
            &&& is_widened(sized(None, h, plain), across, height)
            &&& is_widened(sized(None, None, plain), across, down)
            &&& is_widened(sized(w, None, auto), width, container_h)
            &&& is_widened(sized(None, h, auto), container_w, height)
            &&& is_widened(sized(None, None, auto), container_w, container_h)
            &&& is_widened(
                sized(None, None, BackgroundSizeComputeMode::Size(width, height)),
                width,
                height,
            )
        }),
{
}

/// Whether two lengths are in the proportion of two others, up to two roundings: one part in `2^24`
/// each.
pub open spec fn is_in_proportion(w: Binary32, h: Binary32, bw: Binary32, bh: Binary32) -> bool {
    let (x, y) = (h.value() * bw.value(), w.value() * bh.value());
    &&& x * 0xff_ffff * 0xff_ffff <= y * 0x100_0000 * 0x100_0000
    &&& y * 0x100_0000 * 0x100_0000 <= x * 0x100_0001 * 0x100_0001
}

/// A length completed from another in the proportion of two more.
proof fn lemma_completed(w: Binary32, bw: Binary32, bh: Binary32)
    requires
        is_length(w) && is_length(bw) && is_length(bh),
        is_normal(bh.over(bw)) && bh.over(bw).finite(),
        is_normal(bh.over(bw).times(w)) && bh.over(bw).times(w).finite(),
    ensures
        is_in_proportion(w, bh.over(bw).times(w), bw, bh),
{
    let f = Format::Single;
    let one = Binary32::unit() as int;
    let q = bh.over(bw);
    let h = q.times(w);
    Binary32::lemma_constants(q);
    Binary32::lemma_constants(h);
    lemma_format_constants(f);
    assert(f.hidden() == 0x80_0000);
    bh.lemma_over(bw);
    q.lemma_times(w);
    let (x, a, b, m, t) = (w.value(), bw.value(), bh.value(), q.value(), h.value());
    assert(b * one > 0 && m * x > 0) by (nonlinear_arith)
        requires
            b > 0,
            one > 0,
            m > 0,
            x > 0,
    ;
    let (n1, n2) = ((b * one) as nat, (m * x) as nat);
    lemma_relative_error(f, n1, a as nat);
    lemma_relative_error(f, n2, one as nat);
    lemma_mag_order(f, f.round(n1, a as nat), f.inf());
    lemma_mag_order(f, f.round(n2, one as nat), f.inf());
    lemma_mag_order(f, f.body(q.bits as nat), f.inf());
    lemma_mag_order(f, f.body(h.bits as nat), f.inf());
    assert(m * a * 0xff_ffff <= (b * one) * 0x100_0000);
    assert((b * one) * 0x100_0000 <= m * a * 0x100_0001);
    assert(t * one * 0xff_ffff <= (m * x) * 0x100_0000);
    assert((m * x) * 0x100_0000 <= t * one * 0x100_0001);
    lemma_two_steps(t, a, x, b, m, one);
}

proof fn lemma_two_steps(t: int, a: int, x: int, b: int, m: int, one: int)
    requires
        one > 0,
        a > 0,
        x > 0,
        m * a * 0xff_ffff <= (b * one) * 0x100_0000,
        (b * one) * 0x100_0000 <= m * a * 0x100_0001,
        t * one * 0xff_ffff <= (m * x) * 0x100_0000,
        (m * x) * 0x100_0000 <= t * one * 0x100_0001,
    ensures
        (t * a) * 0xff_ffff * 0xff_ffff <= (x * b) * 0x100_0000 * 0x100_0000,
        (x * b) * 0x100_0000 * 0x100_0000 <= (t * a) * 0x100_0001 * 0x100_0001,
{
    let (p, q) = (t * a, x * b);
    let (ma, bo, mx, to) = (m * a, b * one, m * x, t * one);
    let c = m * a * x;
    assert(ma * x == c && mx * a == c && to * a == p * one && bo * x == q * one)
        by (nonlinear_arith)
        requires
            ma == m * a,
            mx == m * x,
            to == t * one,
            bo == b * one,
            p == t * a,
            q == x * b,
            c == m * a * x,
    ;
    assert(ma * x * 0xff_ffff <= bo * x * 0x100_0000) by (nonlinear_arith)
        requires
            ma * 0xff_ffff <= bo * 0x100_0000,
            x > 0,
    ;
    assert(bo * x * 0x100_0000 <= ma * x * 0x100_0001) by (nonlinear_arith)
        requires
            bo * 0x100_0000 <= ma * 0x100_0001,
            x > 0,
    ;
    assert(to * a * 0xff_ffff <= mx * a * 0x100_0000) by (nonlinear_arith)
        requires
            to * 0xff_ffff <= mx * 0x100_0000,
            a > 0,
    ;
    assert(mx * a * 0x100_0000 <= to * a * 0x100_0001) by (nonlinear_arith)
        requires
            mx * 0x100_0000 <= to * 0x100_0001,
            a > 0,
    ;
    let (po, qo) = (p * one, q * one);
    assert(po * 0xff_ffff * 0xff_ffff <= qo * 0x100_0000 * 0x100_0000);
    assert(qo * 0x100_0000 * 0x100_0000 <= po * 0x100_0001 * 0x100_0001);
    assert(p * 0xff_ffff * 0xff_ffff <= q * 0x100_0000 * 0x100_0000) by (nonlinear_arith)
        requires
            (p * one) * 0xff_ffff * 0xff_ffff <= (q * one) * 0x100_0000 * 0x100_0000,
            one > 0,
    {
        let (u, v) = (p * 0xff_ffff * 0xff_ffff, q * 0x100_0000 * 0x100_0000);
        assert(u * one <= v * one);
    }
    assert(q * 0x100_0000 * 0x100_0000 <= p * 0x100_0001 * 0x100_0001) by (nonlinear_arith)
        requires
            (q * one) * 0x100_0000 * 0x100_0000 <= (p * one) * 0x100_0001 * 0x100_0001,
            one > 0,
    {
        let (u, v) = (q * 0x100_0000 * 0x100_0000, p * 0x100_0001 * 0x100_0001);
        assert(u * one <= v * one);
    }
}

/// Where one length is given and the image has a size, the other length keeps the image's
/// proportions, whichever of the two is given.
pub proof fn law_a_missing_length_keeps_proportions(
    length: Binary32,
    bg_w: Binary32,
    bg_h: Binary32,
    container_w: Binary32,
    container_h: Binary32,
)
    requires
        is_length(length) && is_length(bg_w) && is_length(bg_h),
        is_normal(bg_h.over(bg_w)) && bg_h.over(bg_w).finite(),
        is_normal(bg_w.over(bg_h)) && bg_w.over(bg_h).finite(),
    ensures
        ({
            let mode = BackgroundSizeComputeMode::Size(bg_w, bg_h);
            let by_width = spec_layer_size(
                BackgroundSize::ExplicitSize { width: Some(length), height: None },
                container_w,
                container_h,
                mode,
            );
            let by_height = spec_layer_size(
                BackgroundSize::ExplicitSize { width: None, height: Some(length) },
                container_w,
                container_h,
                mode,
            );
            &&& exists|h: Binary32|
                (#[trigger] is_widened(by_width, length, h)) && (is_normal(h) && h.finite()
                    ==> is_in_proportion(length, h, bg_w, bg_h))
            &&& exists|w: Binary32|
                (#[trigger] is_widened(by_height, w, length)) && (is_normal(w) && w.finite()
                    ==> is_in_proportion(length, w, bg_h, bg_w))
        }),
{
    let h = bg_h.over(bg_w).times(length);
    let w = bg_w.over(bg_h).times(length);
    if is_normal(h) && h.finite() {
        lemma_completed(length, bg_w, bg_h);
    }
    if is_normal(w) && w.finite() {
        lemma_completed(length, bg_h, bg_w);
    }
    let mode = BackgroundSizeComputeMode::Size(bg_w, bg_h);
    assert(is_widened(
        spec_layer_size(
            BackgroundSize::ExplicitSize { width: Some(length), height: None },
            container_w,
            container_h,
            mode,
        ),
        length,
        h,
    ));
    assert(is_widened(
        spec_layer_size(
            BackgroundSize::ExplicitSize { width: None, height: Some(length) },
            container_w,
            container_h,
            mode,
        ),
        w,
        length,
    ));
}

/// `cover` gives a layer a size that covers the area, and `contain` one that the area holds, both
/// in the image's proportions and as long as the area along one axis.
pub proof fn law_covering_and_contained_layers_have_the_sizes_they_are_named_for(
    container_w: Binary32,
    container_h: Binary32,
    bg_w: Binary32,
    bg_h: Binary32,
)
    requires
        is_length(container_w) && is_length(container_h) && is_length(bg_w) && is_length(bg_h),
        is_normal(container_w.over(bg_w)) && is_normal(container_h.over(bg_h)),
        container_w.over(bg_w).finite() && container_h.over(bg_h).finite(),
    ensures
        ({
            let mode = BackgroundSizeComputeMode::Size(bg_w, bg_h);
            let cover = spec_layer_size(BackgroundSize::Cover, container_w, container_h, mode);
            let contain = spec_layer_size(BackgroundSize::Contain, container_w, container_h, mode);
            &&& exists|w: Binary32, h: Binary32|
                (#[trigger] is_widened(cover, w, h)) && (is_normal(w) && is_normal(h) && w.finite()
                    && h.finite() ==> covers(w, container_w) && covers(h, container_h)
                    && keeps_proportions(w, h, bg_w, bg_h) && (meets(w, container_w)
                    || meets(h, container_h)))
            &&& exists|w: Binary32, h: Binary32|
                (#[trigger] is_widened(contain, w, h)) && (is_normal(w) && is_normal(h) && w.finite()
                    && h.finite() ==> fits(w, container_w) && fits(h, container_h)
                    && keeps_proportions(w, h, bg_w, bg_h) && (meets(w, container_w) || meets(
                    h,
                    container_h,
                )))
        }),
{
    let mode = BackgroundSizeComputeMode::Size(bg_w, bg_h);
    let (w, h) = crate::sizing::cover_size(container_w, container_h, mode);
    if is_normal(w) && is_normal(h) && w.finite() && h.finite() {
        crate::laws::sizing::law_cover_covers_the_area(container_w, container_h, bg_w, bg_h);
        crate::laws::sizing::law_cover_keeps_proportions_and_meets_one_axis(
            container_w,
            container_h,
            bg_w,
            bg_h,
        );
    }
    assert(is_widened(
        spec_layer_size(BackgroundSize::Cover, container_w, container_h, mode),
        w,
        h,
    ));
    let (w, h) = crate::sizing::contain_size(container_w, container_h, mode);
    if is_normal(w) && is_normal(h) && w.finite() && h.finite() {
        crate::laws::sizing::law_contain_fits_the_area(container_w, container_h, bg_w, bg_h);
        crate::laws::sizing::law_contain_keeps_proportions_and_meets_one_axis(
            container_w,
            container_h,
            bg_w,
            bg_h,
        );
    }
    assert(is_widened(
        spec_layer_size(BackgroundSize::Contain, container_w, container_h, mode),
        w,
        h,
    ));
}

/// `round` changes a length only along its own axis, and there to one that goes into the area a
/// whole number of times; it does so from that axis alone.
pub proof fn law_round_applies_to_its_own_axis(
    repeat_x: RepeatKeyword,
    repeat_y: RepeatKeyword,
    container: Size,
    other: Size,
    layer: Size,
    changed: Size,
)
    ensures
        ({
            let made = round_layer_size(repeat_x, repeat_y, container, layer);
            let turned = round_layer_size(
                repeat_y,
                repeat_x,
                Size { width: container.height, height: container.width },
                Size { width: layer.height, height: layer.width },
            );
            let moved = round_layer_size(repeat_x, repeat_x, other, changed);
            &&& !(repeat_x is Round) ==> made.width == layer.width
            &&& !(repeat_y is Round) ==> made.height == layer.height
            &&& turned == (Size { width: made.height, height: made.width })
            &&& other.width == container.width && changed.width == layer.width ==> moved.width
                == made.width
            &&& repeat_x is Round ==> made.width == container.width.over(
                container.width.over(layer.width).round(),
            )
        }),
{
}

/// What a position is a share of, along each axis, is the room that the layer leaves along that
/// axis; and a position is at its own distance along each axis.
pub proof fn law_positions_are_measured_along_their_own_axis(
    container: Size,
    layer: Size,
    other: Size,
    changed: Size,
    x: Binary32,
    y: Binary32,
)
    ensures
        ({
            let room = room_left(container, layer);
            let moved = room_left(other, changed);
            &&& container.width == other.width && layer.width == changed.width ==> room.0
                == moved.0
            &&& container.height == other.height && layer.height == changed.height ==> room.1
                == moved.1
            &&& room_left(
                Size { width: container.height, height: container.width },
                Size { width: layer.height, height: layer.width },
            ) == (room.1, room.0)
            &&& room.0 == container.width.minus(layer.width).to_binary32()
            &&& spec_layer_position(x, y).x == x.to_binary64()
            &&& spec_layer_position(x, y).y == y.to_binary64()
        }),
{
}

/// Whether a dimension can be used: it is finite and positive.
pub open spec fn is_usable(length: Option<Binary32>) -> bool {
    length matches Some(x) && x.finite() && x.value() > 0
}

/// An SVG has the intrinsic dimensions that are finite and positive, and no others; its ratio is
/// that of its dimensions where it has both, and otherwise that of its `viewBox`, if it is one that
/// can be used.
pub proof fn law_an_svg_has_the_dimensions_that_can_be_used(svg: SvgImage)
    ensures
        svg.spec_size_mode() is Intrinsic,
        ({
            let mode = svg.spec_size_mode();
            let (w, h) = (svg.intrinsic_width, svg.intrinsic_height);
            let both = is_usable(w) && is_usable(h);
            &&& mode->Intrinsic_width == (if is_usable(w) {
                w
            } else {
                None
            })
            &&& mode->Intrinsic_height == (if is_usable(h) {
                h
            } else {
                None
            })
            &&& mode->ratio is Some ==> is_usable(mode->ratio)
            &&& both && is_usable(Some(w->0.over(h->0))) ==> mode->ratio == Some(w->0.over(h->0))
            &&& !both && is_usable(svg.viewbox_ratio) ==> mode->ratio == svg.viewbox_ratio
            &&& !both && !is_usable(svg.viewbox_ratio) ==> mode->ratio is None
        }),
{
    Binary32::lemma_constants(Binary32::zero());
}

} // verus!
