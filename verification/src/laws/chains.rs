//! What a chain of filters makes of colours, of the pixels of an image and of the commands of a
//! scene, in terms of what its matrices make of them one by one.

use crate::color::Color;
use crate::color_matrix::{filtered, ColorMatrix, ColorMatrixChain};
use crate::ieee::Binary32;
use crate::image::{ImageBrush, ImageFormat, Pixel};
use crate::laws::color::law_chains_apply_in_order;
use crate::laws::exact::{
    clamped_to, filtered_by_all, lemma_channel_clamp, lemma_number, lemma_number_order, number,
    row_sum, vector, Vector,
};
use crate::laws::fidelity::{are_weighed, lemma_close_filtered_by_all, steepness};
use crate::laws::gradients::{
    color_error, law_filtered_colors_are_near_their_exact_filter, leaves_alpha,
};
use crate::laws::reals::{
    lemma_bounded_product, lemma_cancels, lemma_commutes, lemma_product_of_one, lemma_product_sign,
    size,
};
use crate::laws::rounding::{
    is_unit, is_unit_color, lemma_product_error, lemma_quotient_error, lemma_row_error,
    lemma_sum_error, lemma_tiny, lemma_unit, tiny,
};
use crate::laws::stability::{is_close, is_row_within, lemma_close_chain, lemma_close_clamps};
use crate::scene::{Paint, SceneCommand};
use vstd::prelude::*;

verus! {

/// A chain without a matrix changes nothing, a chain of one does what the matrix does, and a chain
/// in two parts does what the second part makes of what the first makes.
pub proof fn law_a_chain_is_its_matrices_one_after_the_other(
    empty: ColorMatrixChain,
    single: ColorMatrixChain,
    first: ColorMatrixChain,
    second: ColorMatrixChain,
    both: ColorMatrixChain,
    matrix: ColorMatrix,
    color: Color,
)
    requires
        empty.matrices().len() == 0,
        single.matrices() == seq![matrix],
        both.matrices() == first.matrices() + second.matrices(),
    ensures
        empty.apply(color) == color,
        single.apply(color) == matrix.apply(color),
        both.apply(color) == second.apply(first.apply(color)),
{
    law_chains_apply_in_order(
        first.matrices(),
        second.matrices(),
        color,
        second.matrices().len(),
    );
    assert(filtered(single.matrices(), color, 0) == color);
    assert(filtered(single.matrices(), color, 1) == matrix.apply(
        filtered(single.matrices(), color, 0),
    ));
}

/// Whether a component is what a row makes of a colour, clamped to `[0, 1]`, up to rounding.
pub open spec fn is_component(
    made: Binary32,
    row: crate::color_matrix::Row,
    v: Vector,
    k: real,
) -> bool {
    16777215real * size(number(made) - clamped_to(row_sum(row, v, false), 1real)) <= 8real * k
}

proof fn lemma_component(row: crate::color_matrix::Row, color: Color, k: real)
    requires
        is_row_within(row, k),
        1real <= k <= 4194304real,
        is_unit_color(color),
    ensures
        is_component(
            crate::color_matrix::clamp_unit(row.combine(color)),
            row,
            vector(color),
            k,
        ),
{
    let one = Binary32::one();
    Binary32::lemma_constants(one);
    lemma_number(one);
    lemma_row_error(row, color, false, k);
    assert(row.combine_vector(color, false) == row.combine(color));
    lemma_channel_clamp(row.combine(color), one);
    lemma_close_clamps(
        number(row.combine(color)),
        row_sum(row, vector(color), false),
        1real,
        1real,
        8real * k / 16777215real,
    );
}

/// A matrix makes of a colour what its rows make of it, each component from its own row: the sum of
/// the components of the colour times the row's coefficients, and the row's offset, clamped to
/// `[0, 1]`, up to eight parts in `2^24` of what the coefficients come to.
pub proof fn law_a_matrix_makes_each_component_from_its_row(
    matrix: ColorMatrix,
    color: Color,
    k: real,
)
    requires
        is_row_within(matrix.red, k),
        is_row_within(matrix.green, k),
        is_row_within(matrix.blue, k),
        is_row_within(matrix.alpha, k),
        1real <= k <= 4194304real,
        is_unit_color(color),
    ensures
        is_component(matrix.apply(color).r, matrix.red, vector(color), k),
        is_component(matrix.apply(color).g, matrix.green, vector(color), k),
        is_component(matrix.apply(color).b, matrix.blue, vector(color), k),
        is_component(matrix.apply(color).a, matrix.alpha, vector(color), k),
{
    lemma_component(matrix.red, color, k);
    lemma_component(matrix.green, color, k);
    lemma_component(matrix.blue, color, k);
    lemma_component(matrix.alpha, color, k);
}

/// Every colour of a command is what the chain makes of it, and a command stays the kind of
/// command it is: fills, strokes and runs of glyphs of one colour, and shadows. What carries no
/// colour stays, and so does a paint that cannot be seen.
pub proof fn law_commands_have_their_colors_filtered(
    chain: ColorMatrixChain,
    color: Color,
    before: SceneCommand,
    after: SceneCommand,
)
    requires
        chain.is_filtered_command(before, after),
    ensures
        before == SceneCommand::Fill(Paint::Solid(color)) ==> after == SceneCommand::Fill(
            Paint::Solid(chain.apply(color)),
        ),
        before == SceneCommand::Stroke(Paint::Solid(color)) ==> after == SceneCommand::Stroke(
            Paint::Solid(chain.apply(color)),
        ),
        before == SceneCommand::GlyphRun(Paint::Solid(color)) ==> after == SceneCommand::GlyphRun(
            Paint::Solid(chain.apply(color)),
        ),
        before == SceneCommand::BoxShadow(color) ==> after == SceneCommand::BoxShadow(
            chain.apply(color),
        ),
        before is PushLayer || before is PushClipLayer || before is PopLayer ==> after == before,
        before == SceneCommand::Fill(Paint::Other) || before == SceneCommand::Stroke(Paint::Other)
            || before == SceneCommand::GlyphRun(Paint::Other) ==> after == before,
        before is Fill <==> after is Fill,
        before is Stroke <==> after is Stroke,
        before is GlyphRun <==> after is GlyphRun,
        before is BoxShadow <==> after is BoxShadow,
{
}

/// The paint of a command.
pub open spec fn paint_of(command: SceneCommand) -> Option<Paint> {
    match command {
        SceneCommand::Fill(paint) => Some(paint),
        SceneCommand::Stroke(paint) => Some(paint),
        SceneCommand::GlyphRun(paint) => Some(paint),
        _ => None,
    }
}

/// A gradient or an image that a command paints with is what the chain makes of it, and keeps how
/// it is to be read.
pub proof fn law_commands_have_their_paints_filtered(
    chain: ColorMatrixChain,
    before: SceneCommand,
    after: SceneCommand,
)
    requires
        chain.is_filtered_command(before, after),
    ensures
        paint_of(before) matches Some(Paint::Gradient(g)) ==> paint_of(after) matches Some(
            Paint::Gradient(h),
        ) && h.ramp() == chain.filtered_ramp(g) && h.premultiplied == g.premultiplied && h.srgb
            == g.srgb,
        paint_of(before) matches Some(Paint::Image(p)) ==> paint_of(after) matches Some(
            Paint::Image(q),
        ) && q.data@ == chain.filtered_image(p) && q.format == p.format && q.premultiplied
            == p.premultiplied,
{
}

/// Where the red byte of a pixel is, and where the blue one.
pub open spec fn red_at(format: ImageFormat) -> int {
    if format is Bgra8 {
        2
    } else {
        0
    }
}

/// Where the blue byte of a pixel is.
pub open spec fn blue_at(format: ImageFormat) -> int {
    2 - red_at(format)
}

/// The pixel whose bytes start at an index, red first or blue first.
pub open spec fn pixel_from(data: Seq<u8>, format: ImageFormat, at: int) -> Pixel {
    Pixel {
        r: data[at + red_at(format)],
        g: data[at + 1],
        b: data[at + blue_at(format)],
        a: data[at + 3],
    }
}

proof fn lemma_pixels(
    chain: ColorMatrixChain,
    data: Seq<u8>,
    bgra: bool,
    premultiplied: bool,
    n: nat,
    i: int,
)
    requires
        0 <= i < n,
        4 * n <= data.len(),
    ensures
        ({
            let format = if bgra {
                ImageFormat::Bgra8
            } else {
                ImageFormat::Rgba8
            };
            let made = chain.filtered_pixels(data, bgra, premultiplied, n);
            &&& made.len() == 4 * n
            &&& pixel_from(made, format, 4 * i) == chain.apply_to_pixel(
                pixel_from(data, format, 4 * i),
                premultiplied,
            )
        }),
    decreases n,
{
    let m = (n - 1) as nat;
    let before = chain.filtered_pixels(data, bgra, premultiplied, m);
    let made = chain.filtered_pixels(data, bgra, premultiplied, n);
    if m > 0 {
        lemma_pixels(
            chain,
            data,
            bgra,
            premultiplied,
            m,
            if i < m {
                i
            } else {
                0
            },
        );
    }
    if i < m {
        assert(made[4 * i] == before[4 * i]);
        assert(made[4 * i + 1] == before[4 * i + 1]);
        assert(made[4 * i + 2] == before[4 * i + 2]);
        assert(made[4 * i + 3] == before[4 * i + 3]);
    }
}

/// Every pixel of an image whose layout is known is filtered on its own and stays in its place:
/// its red, green, blue and alpha bytes, wherever the layout has them, are those that the chain
/// makes of that pixel. An image whose layout is not known stays as it is.
pub proof fn law_each_pixel_is_filtered_in_its_place(
    chain: ColorMatrixChain,
    brush: ImageBrush,
    i: int,
)
    requires
        0 <= i < brush.data@.len() / 4,
    ensures
        ({
            let made = chain.filtered_image(brush);
            &&& brush.format is Other ==> made == brush.data@
            &&& !(brush.format is Other) ==> made.len() == 4 * (brush.data@.len() / 4)
                && pixel_from(made, brush.format, 4 * i) == chain.apply_to_pixel(
                pixel_from(brush.data@, brush.format, 4 * i),
                brush.premultiplied,
            )
        }),
{
    if !(brush.format is Other) {
        lemma_pixels(
            chain,
            brush.data@,
            brush.format is Bgra8,
            brush.premultiplied,
            brush.data@.len() / 4,
            i,
        );
    }
}

/// Bytes are fractions of 255.
pub proof fn lemma_byte(x: u8)
    ensures
        is_unit(crate::image::from_byte(x)),
        16777215real * size(255real * number(crate::image::from_byte(x)) - x as real) <= 256real,
        x > 0 ==> number(crate::image::from_byte(x)) > 0real,
        x == 0 ==> crate::image::from_byte(x).value() == 0,
{
    let f = crate::ieee::model::Format::Single;
    let (n, d) = (Binary32::from_unsigned(x as u64), Binary32::from_unsigned(255));
    let u = Binary32::unit() as int;
    Binary32::lemma_from_unsigned(x as u64);
    Binary32::lemma_from_unsigned(255);
    Binary32::lemma_constants(n);
    Binary32::lemma_constants(d);
    lemma_whole_number(x as u64);
    lemma_whole_number(255);
    lemma_tiny();
    lemma_quotient_error(n, d);
    let q = n.over(d);
    let y = number(q);
    assert(y * 255real == 255real * y);
    assert(tiny() * 255real <= 1real);
    // The quotient does not leave `[0, 1]`.
    n.lemma_over(d);
    let (a, b) = (n.value() * u, d.value());
    let xi = x as int;
    assert(0 <= xi * u <= 255 * u && (xi == 0 ==> xi * u == 0)) by (nonlinear_arith)
        requires
            0 <= xi <= 255,
            u > 0,
    ;
    assert(0 <= a <= u * b && a * b <= (u * b) * b) by (nonlinear_arith)
        requires
            a == n.value() * u,
            b == d.value(),
            0 <= n.value() <= d.value(),
            u > 0,
            b > 0,
    ;
    crate::ieee::facts::lemma_rounded_exact(f, Binary32::one().bits as nat, b as nat);
    crate::ieee::facts::lemma_rounded_monotone(f, a, b as nat, u * b, b as nat);
    crate::ieee::facts::lemma_rounded_sign(f, a, b as nat);
    lemma_number(q);
    if x == 0 {
        assert(a == 0) by (nonlinear_arith)
            requires
                a == n.value() * u,
                n.value() == 0,
        ;
        crate::ieee::facts::lemma_rounded_zero(f, b as nat);
    }
}

/// A whole number is what it counts.
proof fn lemma_whole_number(k: u64)
    requires
        k <= 0x100_0000,
    ensures
        number(Binary32::from_unsigned(k)) == k as real,
{
    let x = Binary32::from_unsigned(k);
    Binary32::lemma_from_unsigned(k);
    lemma_number(x);
    let u = Binary32::unit() as real;
    crate::laws::reals::lemma_integer_product(k as int, Binary32::unit() as int);
    lemma_cancels(number(x), k as real, u);
}

/// A fraction, times another, is made the byte nearest to 255 times their product.
pub proof fn lemma_to_byte(x: Binary32, m: Binary32)
    requires
        is_unit(x),
        is_unit(m),
    ensures
        size(crate::image::to_byte(x, m) as real - 255real * (number(x) * number(m))) <= 1real
            / 2real + 1real / 1000real,
{
    let full = Binary32::from_unsigned(255);
    let half = Binary32::half();
    let zero = Binary32::zero();
    Binary32::lemma_from_unsigned(255);
    lemma_whole_number(255);
    lemma_number(zero);
    Binary32::lemma_constants(zero);
    crate::laws::functions::lemma_half_and_two();
    lemma_unit(x);
    lemma_unit(m);
    lemma_tiny();
    let (p, q) = (number(x), number(m));
    lemma_bounded_product(p, q, 1real);
    lemma_product_of_one(size(p));
    lemma_product_sign(p, q);
    let y = p * q;
    lemma_product_error(x, m);
    let a = x.times(m);
    let s = number(a);
    assert(s * 255real == 255real * s);
    lemma_product_error(a, full);
    let b = a.times(full);
    lemma_sum_error(b, half);
    let c = b.plus(half);
    let z = number(c);
    let e = 1real / 1000real;
    assert(size(z - (255real * y + 1real / 2real)) <= e);
    lemma_channel_clamp_to(c, full);
    let d = c.clamp(zero, full);
    lemma_floor_of(d);
}

/// Clamping to `[0, 255]`.
proof fn lemma_channel_clamp_to(c: Binary32, full: Binary32)
    requires
        c.finite(),
        full == Binary32::from_unsigned(255),
    ensures
        c.clamp(Binary32::zero(), full).finite(),
        number(c.clamp(Binary32::zero(), full)) == clamped_to(number(c), 255real),
{
    Binary32::lemma_from_unsigned(255);
    Binary32::lemma_constants(c);
    lemma_whole_number(255);
    lemma_channel_clamp(c, full);
}

/// The whole part of a number from `[0, 255]`.
proof fn lemma_floor_of(d: Binary32)
    requires
        d.finite(),
        0real <= number(d) <= 255real,
    ensures
        ({
            let w = d.to_unsigned(255);
            &&& w <= 255
            &&& w as real <= number(d) < w as real + 1real
        }),
{
    let u = Binary32::unit() as int;
    let ur = u as real;
    Binary32::lemma_constants(d);
    lemma_number(d);
    d.lemma_sign();
    let k = d.value() / u;
    vstd::arithmetic::div_mod::lemma_fundamental_div_mod(d.value(), u);
    vstd::arithmetic::div_mod::lemma_mod_bound(d.value(), u);
    let full = Binary32::from_unsigned(255);
    Binary32::lemma_from_unsigned(255);
    lemma_whole_number(255);
    lemma_number_order(d, full);
    crate::ieee::facts::lemma_value_zero(crate::ieee::model::Format::Single, d.bits as nat);
    assert(0 <= k <= 255) by (nonlinear_arith)
        requires
            d.value() == u * k + d.value() % u,
            0 <= d.value() % u < u,
            0 <= d.value() <= 255 * u,
    ;
    crate::laws::reals::lemma_integer_product(u, k);
    lemma_commutes(ur, k as real);
    let r = d.value() % u;
    assert(d.value() as real == (k as real) * ur + r as real);
    lemma_cancels(number(d), k as real, ur);
    lemma_cancels(number(d), k as real + 1real, ur);
    crate::laws::reals::lemma_common_factor(k as real, 1real, ur);
    lemma_product_of_one(ur);
    assert(d.to_unsigned(255) == k);
}

/// The colour of a pixel that is not premultiplied, in exact numbers.
pub open spec fn exact_pixel(pixel: Pixel) -> Vector {
    Vector {
        r: pixel.r as real / 255real,
        g: pixel.g as real / 255real,
        b: pixel.b as real / 255real,
        a: pixel.a as real / 255real,
    }
}

/// How far a filtered byte can be from its exact filter: half a step of rounding, and what is lost
/// on the way.
pub open spec fn byte_error(weights: Seq<real>, n: nat) -> real {
    1real / 2real + 1real / 1000real + 255real * (color_error(weights, n) + steepness(weights, n)
        * (2real / 16777215real))
}

/// A pixel that is not premultiplied and not transparent is filtered as its colour is: every byte
/// of it comes out within half a step, and what rounding adds up to, of 255 times the exact filter
/// of the colour that the bytes stand for, and the alpha byte stays.
pub proof fn law_a_pixel_is_filtered_as_its_color(
    chain: ColorMatrixChain,
    weights: Seq<real>,
    pixel: Pixel,
)
    requires
        are_weighed(chain.matrices(), weights, chain.matrices().len()),
        forall|i: int|
            0 <= i < chain.matrices().len() ==> leaves_alpha(#[trigger] chain.matrices()[i]),
        pixel.a > 0,
    ensures
        ({
            let n = chain.matrices().len();
            let made = chain.apply_to_pixel(pixel, false);
            let want = filtered_by_all(chain.matrices(), exact_pixel(pixel), false, n);
            let e = byte_error(weights, n);
            &&& size(made.r as real - 255real * want.r) <= e
            &&& size(made.g as real - 255real * want.g) <= e
            &&& size(made.b as real - 255real * want.b) <= e
            &&& made.a == pixel.a
        }),
{
    let ms = chain.matrices();
    let n = ms.len();
    let one = Binary32::one();
    let color = chain.pixel_color(pixel, false);
    Binary32::lemma_constants(one);
    lemma_number(one);
    lemma_byte(pixel.r);
    lemma_byte(pixel.g);
    lemma_byte(pixel.b);
    lemma_byte(pixel.a);
    lemma_unchanged(crate::image::from_byte(pixel.r));
    lemma_unchanged(crate::image::from_byte(pixel.g));
    lemma_unchanged(crate::image::from_byte(pixel.b));
    let a = crate::image::from_byte(pixel.a);
    lemma_number(a);
    assert(!a.equals(Binary32::zero()));
    let h = 2real / 16777215real;
    assert(is_close(vector(color), exact_pixel(pixel), h));
    law_filtered_colors_are_near_their_exact_filter(ms, weights, color, n);
    lemma_unit(color.a);
    lemma_close_filtered_by_all(
        ms,
        weights,
        vector(color),
        exact_pixel(pixel),
        false,
        n,
        h,
    );
    let after = chain.apply(color);
    let want = filtered_by_all(ms, exact_pixel(pixel), false, n);
    let c = color_error(weights, n);
    let s = steepness(weights, n) * h;
    lemma_close_chain(
        vector(after),
        filtered_by_all(ms, vector(color), false, n),
        want,
        c,
        s,
    );
    lemma_to_byte(after.r, one);
    lemma_to_byte(after.g, one);
    lemma_to_byte(after.b, one);
    lemma_product_of_one(number(after.r));
    lemma_product_of_one(number(after.g));
    lemma_product_of_one(number(after.b));
    lemma_scaled_gap(number(after.r), want.r, c + s);
    lemma_scaled_gap(number(after.g), want.g, c + s);
    lemma_scaled_gap(number(after.b), want.b, c + s);
}

proof fn lemma_scaled_gap(x: real, y: real, e: real)
    requires
        size(x - y) <= e,
    ensures
        size(255real * x - 255real * y) <= 255real * e,
{
}

/// A number from `[0, 1]` times one.
proof fn lemma_unchanged(x: Binary32)
    requires
        is_unit(x),
    ensures
        is_unit(x.times(Binary32::one())),
        number(x.times(Binary32::one())) == number(x),
{
    let f = crate::ieee::model::Format::Single;
    let one = Binary32::one();
    let u = Binary32::unit() as int;
    Binary32::lemma_constants(x);
    x.lemma_times(one);
    crate::ieee::facts::lemma_rounded_exact(f, x.bits as nat, u as nat);
    crate::laws::rounding::lemma_unit_product(x, one);
    lemma_number_order(x, x.times(one));
    lemma_number_order(x.times(one), x);
}

} // verus!
