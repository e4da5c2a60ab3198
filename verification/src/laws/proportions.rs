//! What keeps its proportions: an image of a known ratio, a pixel with its alpha multiplied in,
//! and a raster image that is repeated.

use crate::color::Color;
use crate::color_matrix::ColorMatrixChain;
use crate::element::ElementCx;
use crate::ieee::error::lemma_relative_error;
use crate::ieee::model::{lemma_format_constants, lemma_mag_order, Format};
use crate::ieee::{Binary32, Binary64};
use crate::image::Pixel;
use crate::laws::chains::{lemma_byte, lemma_to_byte};
use crate::laws::culling::is_held;
use crate::laws::dashes::{is_quotient_held, lemma_exact_quotient};
use crate::laws::dimensions::is_widened;
use crate::laws::exact::{lemma_number, number};
use crate::laws::placement::{
    is_laid_exactly, layer_box, lemma_extend, lemma_held_difference, lemma_held_sum,
    lemma_layer_box, way_ahead,
};
use crate::laws::reals::{
    lemma_bounded_product, lemma_commutes, lemma_common_factor, lemma_distributes_difference,
    lemma_ordered_products, lemma_product_of_one, lemma_size_of_product, size,
};
use crate::laws::rounding::{
    is_unit, lemma_associates, lemma_product_error, lemma_quotient_error, lemma_tiny, lemma_unit,
    tiny,
};
use crate::laws::sizing::{is_length, is_normal, keeps_proportions};
use crate::layers::{LayerGeometry, LayerPlacement};
use crate::sizing::{spec_layer_size, BackgroundSize, BackgroundSizeComputeMode};
use crate::svg_tile::{is_replayed, CommandKind};
use vstd::prelude::*;

verus! {

/// A length over a ratio keeps the ratio.
proof fn lemma_over_ratio(w: Binary32, ratio: Binary32)
    requires
        is_length(w) && is_length(ratio),
        is_normal(w.over(ratio)) && w.over(ratio).finite(),
    ensures
        keeps_proportions(w, w.over(ratio), ratio, Binary32::one()),
{
    let f = Format::Single;
    let one = Binary32::unit() as int;
    let h = w.over(ratio);
    Binary32::lemma_constants(h);
    lemma_format_constants(f);
    w.lemma_over(ratio);
    let (x, r, t) = (w.value(), ratio.value(), h.value());
    assert(x * one > 0) by (nonlinear_arith)
        requires
            x > 0,
            one > 0,
    ;
    let n = (x * one) as nat;
    lemma_relative_error(f, n, r as nat);
    lemma_mag_order(f, f.round(n, r as nat), f.inf());
    lemma_mag_order(f, f.body(h.bits as nat), f.inf());
    assert(t * r * 0xff_ffff <= (x * one) * 0x100_0000);
    assert((x * one) * 0x100_0000 <= t * r * 0x100_0001);
    assert(t * r > 0) by (nonlinear_arith)
        requires
            t > 0,
            r > 0,
    ;
}

/// A length times a ratio keeps the ratio.
proof fn lemma_times_ratio(h: Binary32, ratio: Binary32)
    requires
        is_length(h) && is_length(ratio),
        is_normal(h.times(ratio)) && h.times(ratio).finite(),
    ensures
        keeps_proportions(h.times(ratio), h, ratio, Binary32::one()),
{
    let f = Format::Single;
    let one = Binary32::unit() as int;
    let w = h.times(ratio);
    Binary32::lemma_constants(w);
    lemma_format_constants(f);
    h.lemma_times(ratio);
    let (x, r, t) = (h.value(), ratio.value(), w.value());
    assert(x * r > 0) by (nonlinear_arith)
        requires
            x > 0,
            r > 0,
    ;
    let n = (x * r) as nat;
    lemma_relative_error(f, n, one as nat);
    lemma_mag_order(f, f.round(n, one as nat), f.inf());
    lemma_mag_order(f, f.body(w.bits as nat), f.inf());
    assert(t * one * 0xff_ffff <= (x * r) * 0x100_0000);
    assert((x * r) * 0x100_0000 <= t * one * 0x100_0001);
    assert(t * one > 0) by (nonlinear_arith)
        requires
            t > 0,
            one > 0,
    ;
}

/// Whether a size has a width and a height in a ratio, up to rounding, unless it is out of range.
pub open spec fn has_ratio(width: Binary32, height: Binary32, ratio: Binary32) -> bool {
    is_normal(width) && width.finite() && is_normal(height) && height.finite()
        ==> keeps_proportions(width, height, ratio, Binary32::one())
}

/// Where one length is known, given with the layer or the image's own, the ratio of the image
/// gives the other. An image of which only the ratio is known is as large as fits the area, and
/// one of which both lengths are known is that large, whatever its ratio.
pub proof fn law_a_ratio_completes_a_size(
    length: Binary32,
    ratio: Binary32,
    container_w: Binary32,
    container_h: Binary32,
    own_width: Option<Binary32>,
    own_height: Option<Binary32>,
)
    requires
        is_length(length) && is_length(ratio),
    ensures
        ({
            let of = |size: BackgroundSize, width: Option<Binary32>, height: Option<Binary32>|
                spec_layer_size(
                    size,
                    container_w,
                    container_h,
                    BackgroundSizeComputeMode::Intrinsic { width, height, ratio: Some(ratio) },
                );
            let l = Some(length);
            let wide = BackgroundSize::ExplicitSize { width: l, height: None };
            let high = BackgroundSize::ExplicitSize { width: None, height: l };
            let auto = BackgroundSize::ExplicitSize { width: None, height: None };
            &&& exists|h: Binary32|
                (#[trigger] is_widened(of(wide, own_width, own_height), length, h)) && has_ratio(
                    length,
                    h,
                    ratio,
                )
            &&& exists|w: Binary32|
                (#[trigger] is_widened(of(high, own_width, own_height), w, length)) && has_ratio(
                    w,
                    length,
                    ratio,
                )
            &&& exists|h: Binary32|
                (#[trigger] is_widened(of(auto, l, None), length, h)) && has_ratio(
                    length,
                    h,
                    ratio,
                )
            &&& exists|w: Binary32|
                (#[trigger] is_widened(of(auto, None, l), w, length)) && has_ratio(
                    w,
                    length,
                    ratio,
                )
            &&& of(auto, None, None) == of(BackgroundSize::Contain, None, None)
            &&& own_height matches Some(h) ==> is_widened(of(auto, l, own_height), length, h)
        }),
{
    let (h, w) = (length.over(ratio), length.times(ratio));
    if is_normal(h) && h.finite() {
        lemma_over_ratio(length, ratio);
    }
    if is_normal(w) && w.finite() {
        lemma_times_ratio(length, ratio);
    }
    let of = |size: BackgroundSize, width: Option<Binary32>, height: Option<Binary32>|
        spec_layer_size(
            size,
            container_w,
            container_h,
            BackgroundSizeComputeMode::Intrinsic { width, height, ratio: Some(ratio) },
        );
    let l = Some(length);
    let wide = BackgroundSize::ExplicitSize { width: l, height: None };
    let high = BackgroundSize::ExplicitSize { width: None, height: l };
    let auto = BackgroundSize::ExplicitSize { width: None, height: None };
    assert(is_widened(of(wide, own_width, own_height), length, h) && has_ratio(length, h, ratio));
    assert(is_widened(of(high, own_width, own_height), w, length) && has_ratio(w, length, ratio));
    assert(is_widened(of(auto, l, None), length, h) && has_ratio(length, h, ratio));
    assert(is_widened(of(auto, None, l), w, length) && has_ratio(w, length, ratio));
}

/// Whether a channel of a colour, times an alpha, is a byte, up to rounding.
pub open spec fn is_multiplied_out(channel: Binary32, alpha: u8, byte: u8) -> bool {
    size(number(channel) * alpha as real - byte as real) <= 1real / 100real
}

/// Whether a byte is a channel of a colour times an alpha, up to rounding.
pub open spec fn is_multiplied_in(byte: u8, channel: Binary32, alpha: u8) -> bool {
    is_unit(channel) ==> size(byte as real - number(channel) * alpha as real) <= 1real / 2real
        + 1real / 500real
}

/// A byte over an alpha.
proof fn lemma_multiplied_out(byte: u8, alpha: u8)
    requires
        alpha > 0,
    ensures
        is_multiplied_out(
            crate::image::from_byte(byte).times(
                Binary32::one().over(crate::image::from_byte(alpha)),
            ),
            alpha,
            byte,
        ),
{
    let one = Binary32::one();
    let (x, a) = (crate::image::from_byte(byte), crate::image::from_byte(alpha));
    let u = one.over(a);
    Binary32::lemma_constants(a);
    lemma_number(one);
    lemma_number(a);
    lemma_byte(byte);
    lemma_byte(alpha);
    lemma_unit(x);
    lemma_unit(a);
    lemma_tiny();
    let (xr, ar, ur) = (number(x), number(a), number(u));
    let e = 1real / 1000000real;
    assert(ar >= 1real / 256real);
    lemma_quotient_error(one, a);
    lemma_bounded_product(tiny(), ar, 1real);
    assert(tiny() * size(ar) <= tiny());
    assert(size(ur * ar - 1real) <= e);
    // The inverse is no more than 257.
    if ur > 257real {
        lemma_ordered_products(ar, 257real, ur);
        lemma_commutes(ar, 257real);
        lemma_commutes(ar, ur);
        assert(false);
    }
    if ur < -257real {
        lemma_ordered_products(ar, ur, -257real);
        lemma_commutes(ar, -257real);
        lemma_commutes(ar, ur);
        assert(false);
    }
    let y = xr * ur;
    lemma_bounded_product(xr, ur, 257real);
    assert(size(y) <= 257real);
    lemma_product_error(x, u);
    let p = x.times(u);
    let pr = number(p);
    assert(size(pr - y) <= 20real * e);
    // Times the alpha, and again times 255.
    lemma_common_factor(pr, y, ar);
    lemma_size_of_product(pr - y, ar);
    lemma_bounded_product(pr - y, ar, 1real);
    lemma_product_of_one(size(pr - y));
    assert(size(pr * ar - y * ar) <= 20real * e);
    lemma_associates(xr, ur, ar);
    lemma_distributes_difference(xr, ur * ar, 1real);
    lemma_product_of_one(xr);
    lemma_bounded_product(xr, ur * ar - 1real, e);
    assert(size(xr) * e <= e);
    assert(xr * 1real == xr);
    assert(size(y * ar - xr) <= e);
    assert(size(pr * ar - xr) <= 21real * e);
    let big = alpha as real;
    assert(size(pr) <= 258real);
    lemma_distributes_difference(pr, 255real * ar, big);
    lemma_commutes(pr, 255real * ar - big);
    lemma_bounded_product(255real * ar - big, pr, 258real);
    assert(size(255real * ar - big) <= 256real / 16777215real);
    assert(pr * (255real * ar) == 255real * (pr * ar)) by {
        crate::laws::reals::lemma_regrouped(255real, pr, ar);
    }
    assert(size(pr * big - 255real * (pr * ar)) <= 258real * (256real / 16777215real));
}

/// A channel times an alpha.
proof fn lemma_multiplied_in(channel: Binary32, alpha: u8)
    ensures
        is_multiplied_in(
            crate::image::to_byte(channel, crate::image::from_byte(alpha)),
            channel,
            alpha,
        ),
{
    if is_unit(channel) {
        let a = crate::image::from_byte(alpha);
        lemma_byte(alpha);
        lemma_unit(channel);
        lemma_unit(a);
        lemma_to_byte(channel, a);
        let (c, ar, big) = (number(channel), number(a), alpha as real);
        lemma_distributes_difference(c, 255real * ar, big);
        lemma_commutes(c, 255real * ar - big);
        lemma_bounded_product(255real * ar - big, c, 1real);
        crate::laws::reals::lemma_regrouped(255real, c, ar);
    }
}

/// A pixel with its alpha multiplied in is filtered as the colour that its bytes are, over its
/// alpha, and has its alpha multiplied in again: every byte comes out within about half a step of
/// the filtered channel times the alpha.
pub proof fn law_alpha_is_divided_out_and_multiplied_in_again(
    chain: ColorMatrixChain,
    pixel: Pixel,
)
    requires
        pixel.a > 0,
    ensures
        ({
            let made = chain.apply_to_pixel(pixel, true);
            &&& made.a == pixel.a
            &&& exists|color: Color|
                {
                    let after = #[trigger] chain.apply(color);
                    &&& is_multiplied_out(color.r, pixel.a, pixel.r)
                    &&& is_multiplied_out(color.g, pixel.a, pixel.g)
                    &&& is_multiplied_out(color.b, pixel.a, pixel.b)
                    &&& color.a == crate::image::from_byte(pixel.a)
                    &&& is_multiplied_in(made.r, after.r, pixel.a)
                    &&& is_multiplied_in(made.g, after.g, pixel.a)
                    &&& is_multiplied_in(made.b, after.b, pixel.a)
                }
        }),
{
    let color = chain.pixel_color(pixel, true);
    let a = crate::image::from_byte(pixel.a);
    let after = chain.apply(color);
    lemma_byte(pixel.a);
    lemma_number(a);
    Binary32::lemma_constants(a);
    assert(!a.equals(Binary32::zero()));
    lemma_multiplied_out(pixel.r, pixel.a);
    lemma_multiplied_out(pixel.g, pixel.a);
    lemma_multiplied_out(pixel.b, pixel.a);
    lemma_multiplied_in(after.r, pixel.a);
    lemma_multiplied_in(after.g, pixel.a);
    lemma_multiplied_in(after.b, pixel.a);
    assert(chain.apply(color) == after);
}

/// Whether nothing is rounded where the pattern of a repeated image is laid from ahead of a box to
/// the end of the box.
pub open spec fn is_filled_exactly(
    start: Binary64,
    end: Binary64,
    position: Binary64,
    length: Binary64,
    scale: Binary64,
) -> bool {
    let ahead = way_ahead(position.value(), length.value());
    let whole = end.value() - start.value() + ahead;
    &&& is_laid_exactly(start, start, position, length)
    &&& end.finite() && scale.finite()
    &&& scale.value() > 0
    &&& is_held(end.value() - start.value())
    &&& is_held(whole)
    &&& is_quotient_held(whole, scale.value())
}

/// The pattern of a repeated raster image, scaled, ends exactly where the box does that it is
/// placed in, along each axis.
pub proof fn law_a_repeated_raster_layer_ends_with_its_box(
    cx: ElementCx,
    image_width: u32,
    image_height: u32,
    layer: LayerPlacement,
    geometry: LayerGeometry,
)
    ensures
        ({
            let made = cx.raster_tiles(image_width, image_height, layer, geometry);
            let origin = layer_box(cx, layer, layer.origin);
            let unit = Binary64::unit() as int;
            let (x, w) = (
                geometry.position.x.times(cx.scale),
                geometry.size.width.times(cx.scale),
            );
            let (y, h) = (
                geometry.position.y.times(cx.scale),
                geometry.size.height.times(cx.scale),
            );
            &&& layer.repeat_x is Repeat && is_filled_exactly(
                origin.x0,
                origin.x1,
                x,
                w,
                made.scale_x,
            ) ==> made.tiles.x.rect_len.value() * made.scale_x.value() == (origin.x1.value()
                - made.tiles.x.translate.value()) * unit
            &&& layer.repeat_y is Repeat && is_filled_exactly(
                origin.y0,
                origin.y1,
                y,
                h,
                made.scale_y,
            ) ==> made.tiles.y.rect_len.value() * made.scale_y.value() == (origin.y1.value()
                - made.tiles.y.translate.value()) * unit
        }),
{
    lemma_layer_box(cx, layer);
    let made = cx.raster_tiles(image_width, image_height, layer, geometry);
    let origin = layer_box(cx, layer, layer.origin);
    let (x, w) = (geometry.position.x.times(cx.scale), geometry.size.width.times(cx.scale));
    let (y, h) = (geometry.position.y.times(cx.scale), geometry.size.height.times(cx.scale));
    if layer.repeat_x is Repeat && is_filled_exactly(origin.x0, origin.x1, x, w, made.scale_x) {
        lemma_filled(origin.x0, origin.x1, x, w, made.scale_x);
    }
    if layer.repeat_y is Repeat && is_filled_exactly(origin.y0, origin.y1, y, h, made.scale_y) {
        lemma_filled(origin.y0, origin.y1, y, h, made.scale_y);
    }
}

proof fn lemma_filled(
    start: Binary64,
    end: Binary64,
    position: Binary64,
    length: Binary64,
    scale: Binary64,
)
    requires
        is_filled_exactly(start, end, position, length, scale),
    ensures
        ({
            let ahead = crate::tiling::extend(position, length);
            let rect_len = end.minus(start).plus(ahead).over(scale);
            rect_len.value() * scale.value() == (end.value() - start.minus(ahead).value())
                * Binary64::unit()
        }),
{
    let ahead = crate::tiling::extend(position, length);
    lemma_extend(position, length);
    lemma_held_difference(start, ahead);
    lemma_held_difference(end, start);
    lemma_held_sum(end.minus(start), ahead);
    lemma_exact_quotient(end.minus(start).plus(ahead), scale);
}

/// Replaying a recorded tile re-issues what draws shapes and what opens and closes layers, and
/// leaves text and box shadows out.
pub proof fn law_a_replay_leaves_out_text_and_shadows(kind: CommandKind)
    ensures
        kind is Fill || kind is Stroke ==> is_replayed(kind),
        kind is PushLayer || kind is PushClipLayer || kind is PopLayer ==> is_replayed(kind),
        kind is GlyphRun || kind is BoxShadow ==> !is_replayed(kind),
{
}

/// Where alpha was multiplied in and there is none, no colour is left: what it stands for is
/// transparent black. Where alpha was not multiplied in, a vector is the colour.
pub proof fn law_without_alpha_no_color_is_left(vector: Color)
    ensures
        vector.a.finite() && vector.a.value() <= 0 ==> {
            let color = crate::ramp::from_vector(vector, true);
            &&& color.r.value() == 0 && color.g.value() == 0 && color.b.value() == 0
            &&& color.a.value() == 0
        },
        crate::ramp::from_vector(vector, false) == vector,
        crate::ramp::to_vector(vector, false) == vector,
{
    Binary32::lemma_constants(vector.a);
}

} // verus!
