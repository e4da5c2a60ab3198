//! How the edges of a bevelled border are shaded, and when two colours or two matrices are the
//! same.

use crate::border::{beveled_edge_color, brightest, darken, lighten, shade, Edge};
use crate::color::Color;
use crate::color_matrix::{ColorMatrix, Row};
use crate::ieee::Binary32;
use crate::laws::chains::lemma_byte;
use crate::laws::exact::{lemma_number, lemma_number_order, number};
use crate::laws::functions::lemma_literal;
use crate::laws::reals::{
    lemma_cancels, lemma_common_factor, lemma_commutes,
    lemma_distributes_difference, lemma_ordered_products, lemma_product_of_one,
    lemma_product_of_zero, lemma_product_sign, lemma_size_of_product, size,
};
use crate::laws::rounding::{
    is_unit, is_unit_color, lemma_associates, lemma_difference_error, lemma_product_error,
    lemma_quotient_error, lemma_sum_error, lemma_tiny, lemma_unit, tiny,
};
use vstd::prelude::*;

verus! {

/// The larger of two numbers.
pub open spec fn larger(a: real, b: real) -> real {
    if a < b {
        b
    } else {
        a
    }
}

/// The largest channel of a colour.
pub open spec fn largest_channel(c: Color) -> real {
    larger(larger(number(c.r), number(c.g)), number(c.b))
}

proof fn lemma_brightest(c: Color)
    requires
        is_unit_color(c),
    ensures
        is_unit(brightest(c)),
        number(brightest(c)) == largest_channel(c),
{
    lemma_number_order(c.r, c.g);
    lemma_number_order(c.g, c.r);
    let m = c.r.max(c.g);
    lemma_number_order(m, c.b);
    lemma_number_order(c.b, m);
}

/// The amount of shading is 0.33.
proof fn lemma_shade()
    ensures
        shade().finite(),
        16777215real * size(number(shade()) - 33real / 100real) <= 1real,
        33real / 100real <= number(shade()),
        shade().value() > 0,
{
    vstd::arithmetic::power2::lemma2_to64();
    lemma_literal(0x3ea8_f5c3, 0xa8_f5c3, 124, 25);
    assert(vstd::arithmetic::power2::pow2(25) == 0x200_0000);
    assert(number(Binary32::from_bits(0x3ea8_f5c3)) * 33554432real == 11072963real);
}

/// Whether a channel was scaled as the brightest channel was, from `v` to `u`.
pub open spec fn is_scaled(made: Binary32, channel: Binary32, v: real, u: real) -> bool {
    16777215real * size(number(made) * v - number(channel) * u) <= 12real
}

/// A channel times a quotient, held against the exact one.
proof fn lemma_scaled_channel(c: Binary32, q: Binary32, v: real, x: real, u: real)
    requires
        is_unit(c),
        q.finite(),
        0real < v <= 1real,
        number(c) <= v,
        0real <= x <= 2real,
        16777215real * size(number(q) * v - x) <= 2real,
        16777215real * size(x - u) <= 3real,
        size(number(q)) <= 4000000real,
    ensures
        c.times(q).finite(),
        is_scaled(c.times(q), c, v, u),
{
    let (r, y) = (number(c), number(q));
    lemma_unit(c);
    lemma_tiny();
    lemma_size_of_product(r, y);
    lemma_ordered_products(size(y), r, 1real);
    lemma_commutes(size(y), r);
    lemma_product_of_one(size(y));
    lemma_product_error(c, q);
    let m = number(c.times(q));
    // m * v - r * u == (m - r * y) * v + r * (y * v - x) + r * (x - u)
    let (s, t, w) = (m - r * y, y * v - x, x - u);
    lemma_common_factor(m, r * y, v);
    lemma_associates(r, y, v);
    lemma_distributes_difference(r, y * v, x);
    lemma_distributes_difference(r, x, u);
    lemma_size_of_product(s, v);
    lemma_size_of_product(r, t);
    lemma_size_of_product(r, w);
    lemma_ordered_products(size(t), r, 1real);
    lemma_commutes(size(t), r);
    lemma_product_of_one(size(t));
    lemma_ordered_products(size(w), r, 1real);
    lemma_commutes(size(w), r);
    lemma_product_of_one(size(w));
    // The rounding of the product, times `v`, is one part of `r * y * v`.
    let n = 16777215real;
    lemma_ordered_products(v, n * size(s), size(r * y) + tiny());
    crate::laws::reals::lemma_regrouped(n, v, size(s));
    lemma_commutes(v, size(s));
    crate::laws::reals::lemma_distributes(v, size(r * y), tiny());
    lemma_size_of_product(r * y, v);
    lemma_commutes(v, size(r * y));
    lemma_size_of_product(r, y * v);
    lemma_ordered_products(size(y * v), r, 1real);
    lemma_commutes(size(y * v), r);
    lemma_product_of_one(size(y * v));
    lemma_ordered_products(tiny(), v, 1real);
    lemma_commutes(tiny(), v);
    lemma_product_of_one(tiny());
}

/// A darkened colour has its brightest channel reduced by 0.33, or to nothing, and the others in
/// proportion; alpha stays. Black stays black.
pub proof fn law_darkening_takes_a_third_from_the_brightest_channel(color: Color)
    requires
        is_unit_color(color),
    ensures
        ({
            let v = largest_channel(color);
            let u = larger(v - 33real / 100real, 0real);
            let made = darken(color);
            &&& is_scaled(made.r, color.r, v, u)
            &&& is_scaled(made.g, color.g, v, u)
            &&& is_scaled(made.b, color.b, v, u)
            &&& made.a == color.a
        }),
{
    let b = brightest(color);
    let v = largest_channel(color);
    let zero = Binary32::zero();
    lemma_brightest(color);
    lemma_shade();
    lemma_unit(color.r);
    lemma_unit(color.g);
    lemma_unit(color.b);
    lemma_number(b);
    lemma_number(zero);
    Binary32::lemma_constants(zero);
    lemma_tiny();
    if b.value() == 0 {
        lemma_product_of_zero(number(color.r));
        lemma_product_of_zero(number(color.g));
        lemma_product_of_zero(number(color.b));
    } else {
        lemma_difference_error(b, shade());
        let less = b.minus(shade());
        let d = number(less);
        lemma_number(less);
        let q = less.over(b);
        let m = q.max(zero);
        if d > 0real {
            lemma_quotient_error(less, b);
            lemma_ordered_products(tiny(), v, 1real);
            lemma_product_of_one(tiny());
            let y = number(q);
            lemma_number(q);
            // The quotient is positive and not above two.
            lemma_size_of_product(y, v);
            if size(y) > 4real {
                lemma_cancels(4real, size(y), v);
            }
            less.lemma_over(b);
            let u0 = Binary32::unit() as int;
            let n = less.value() * u0;
            assert(n >= 0) by (nonlinear_arith)
                requires
                    n == less.value() * u0,
                    less.value() > 0,
                    u0 > 0,
            ;
            crate::ieee::facts::lemma_rounded_sign(
                crate::ieee::model::Format::Single,
                n,
                b.value() as nat,
            );
            assert(m == q);
            let u = larger(v - 33real / 100real, 0real);
            lemma_scaled_channel(color.r, q, v, d, u);
            lemma_scaled_channel(color.g, q, v, d, u);
            lemma_scaled_channel(color.b, q, v, d, u);
        } else {
            lemma_not_positive(less, b);
            lemma_nothing(color.r, m, v);
            lemma_nothing(color.g, m, v);
            lemma_nothing(color.b, m, v);
            let u = larger(v - 33real / 100real, 0real);
            assert(16777215real * u <= 2real);
            lemma_small(number(color.r), u);
            lemma_small(number(color.g), u);
            lemma_small(number(color.b), u);
        }
    }
}

proof fn lemma_small(r: real, u: real)
    requires
        0real <= r <= 1real,
        0real <= u,
        16777215real * u <= 2real,
    ensures
        0real <= r * u,
        16777215real * (r * u) <= 2real,
{
    lemma_product_sign(r, u);
    lemma_ordered_products(u, r, 1real);
    lemma_commutes(u, r);
    lemma_product_of_one(u);
}

/// A quotient of something that is not positive is raised to nothing.
proof fn lemma_not_positive(a: Binary32, b: Binary32)
    requires
        a.finite(),
        a.value() <= 0,
        b.finite(),
        b.value() > 0,
    ensures
        a.over(b).max(Binary32::zero()).finite(),
        a.over(b).max(Binary32::zero()).value() == 0,
{
    let f = crate::ieee::model::Format::Single;
    let zero = Binary32::zero();
    let u = Binary32::unit() as int;
    Binary32::lemma_constants(zero);
    a.lemma_over(b);
    let n = a.value() * u;
    assert(n <= 0) by (nonlinear_arith)
        requires
            n == a.value() * u,
            a.value() <= 0,
            u > 0,
    ;
    crate::ieee::facts::lemma_rounded_sign(f, n, b.value() as nat);
    let q = a.over(b);
    Binary32::lemma_constants(q);
    if q.value() == 0 {
        crate::ieee::facts::lemma_value_zero(f, q.bits as nat);
        crate::ieee::model::lemma_mag_order(f, f.body(q.bits as nat), f.inf());
        crate::ieee::model::lemma_mag_order(f, 0, f.inf());
        crate::ieee::facts::lemma_value_zero(f, 0);
    }
}

/// A channel times nothing.
proof fn lemma_nothing(c: Binary32, m: Binary32, v: real)
    requires
        is_unit(c),
        m.finite(),
        m.value() == 0,
    ensures
        number(c.times(m)) * v == 0real,
{
    let f = crate::ieee::model::Format::Single;
    Binary32::lemma_constants(c);
    c.lemma_times(m);
    assert(c.value() * 0 == 0) by (nonlinear_arith);
    crate::ieee::facts::lemma_rounded_zero(f, Binary32::unit());
    lemma_number(c.times(m));
    lemma_product_of_zero(v);
}

/// A lightened colour has its brightest channel raised by 0.33, or to one, and the others in
/// proportion; alpha stays. Black becomes the grey of that amount.
pub proof fn law_lightening_adds_a_third_to_the_brightest_channel(color: Color)
    requires
        is_unit_color(color),
        largest_channel(color) == 0real || 1000000real * largest_channel(color) >= 1real,
    ensures
        ({
            let v = largest_channel(color);
            let u = if v + 33real / 100real < 1real {
                v + 33real / 100real
            } else {
                1real
            };
            let made = lighten(color);
            &&& v > 0real ==> is_scaled(made.r, color.r, v, u) && is_scaled(
                made.g,
                color.g,
                v,
                u,
            ) && is_scaled(made.b, color.b, v, u)
            &&& v == 0real ==> {
                &&& 16777215real * size(number(made.r) - 33real / 100real) <= 1real
                &&& 16777215real * size(number(made.g) - 33real / 100real) <= 1real
                &&& 16777215real * size(number(made.b) - 33real / 100real) <= 1real
            }
            &&& made.a == color.a
        }),
{
    let b = brightest(color);
    let v = largest_channel(color);
    let (zero, one) = (Binary32::zero(), Binary32::one());
    lemma_brightest(color);
    lemma_shade();
    lemma_unit(color.r);
    lemma_unit(color.g);
    lemma_unit(color.b);
    lemma_unit(b);
    lemma_number(b);
    lemma_number(one);
    Binary32::lemma_constants(zero);
    lemma_tiny();
    if b.value() != 0 {
        lemma_sum_error(b, shade());
        let more = b.plus(shade());
        lemma_number_order(more, one);
        lemma_number_order(one, more);
        let top = more.min(one);
        let x = number(top);
        lemma_number(top);
        lemma_quotient_error(top, b);
        lemma_ordered_products(tiny(), v, 1real);
        lemma_product_of_one(tiny());
        let q = top.over(b);
        let y = number(q);
        lemma_size_of_product(y, v);
        if size(y) > 4000000real {
            lemma_cancels(4000000real, size(y), v);
        }
        let u = if v + 33real / 100real < 1real {
            v + 33real / 100real
        } else {
            1real
        };
        lemma_scaled_channel(color.r, q, v, x, u);
        lemma_scaled_channel(color.g, q, v, x, u);
        lemma_scaled_channel(color.b, q, v, x, u);
    }
}

/// Whether an edge of a border that is lit from the top left faces the light.
pub open spec fn faces_the_light(edge: Edge) -> bool {
    edge is Top || edge is Left
}

/// Of an `inset` border the top and the left edge are darkened, of an `outset` one the bottom and
/// the right; the other two edges keep the colour, if it is bright in red or green (150 or 92 of
/// 255) or contrasts with its darkened version by at least 1.75, and are lightened otherwise.
pub proof fn law_bevels_are_lit_from_the_top_left(
    color: Color,
    contrast: Binary32,
    edge: Edge,
    inset: bool,
)
    requires
        is_unit_color(color),
        contrast.finite(),
    ensures
        ({
            let made = beveled_edge_color(color, contrast, edge, inset);
            let (r, g) = (255real * number(color.r), 255real * number(color.g));
            let e = 1real / 10000real;
            let dark = faces_the_light(edge) == inset;
            &&& dark ==> made == darken(color)
            &&& !dark ==> made == color || made == lighten(color)
            &&& !dark && (r >= 150real + e || g >= 92real + e || number(contrast) >= 7real / 4real)
                ==> made == color
            &&& !dark && r <= 150real - e && g <= 92real - e && number(contrast) < 7real / 4real
                ==> made == lighten(color)
        }),
{
    lemma_byte(150);
    lemma_byte(92);
    let (p, q) = (crate::image::from_byte(150), crate::image::from_byte(92));
    lemma_number_order(p, color.r);
    lemma_number_order(q, color.g);
    vstd::arithmetic::power2::lemma2_to64();
    lemma_literal(0x3fe0_0000, 0xe0_0000, 126, 23);
    assert(vstd::arithmetic::power2::pow2(23) == 0x80_0000);
    let least = crate::border::min_contrast_ratio();
    assert(number(least) * 8388608real == 14680064real);
    lemma_number_order(least, contrast);
}

/// Two colours are the same exactly where each component of the one has the value of that component
/// of the other, numbers given.
pub proof fn law_colors_are_the_same_where_their_components_are(a: Color, b: Color)
    requires
        a.finite(),
        b.finite(),
    ensures
        a.same_as(b) <==> a.r.value() == b.r.value() && a.g.value() == b.g.value() && a.b.value()
            == b.b.value() && a.a.value() == b.a.value(),
{
}

/// Whether two rows have the same values.
pub open spec fn has_values_of(a: Row, b: Row) -> bool {
    &&& !a.r.nan() && !b.r.nan() && a.r.value() == b.r.value()
    &&& !a.g.nan() && !b.g.nan() && a.g.value() == b.g.value()
    &&& !a.b.nan() && !b.b.nan() && a.b.value() == b.b.value()
    &&& !a.a.nan() && !b.a.nan() && a.a.value() == b.a.value()
    &&& !a.offset.nan() && !b.offset.nan() && a.offset.value() == b.offset.value()
}

/// Two matrices are the same exactly where all their coefficients are.
pub proof fn law_matrices_are_the_same_where_their_coefficients_are(a: ColorMatrix, b: ColorMatrix)
    ensures
        a.same_as(b) <==> has_values_of(a.red, b.red) && has_values_of(a.green, b.green)
            && has_values_of(a.blue, b.blue) && has_values_of(a.alpha, b.alpha),
{
}

/// The identity passes each component on and adds nothing.
pub proof fn law_the_identity_passes_each_component_on()
    ensures
        ({
            let m = ColorMatrix::identity();
            let unit = Binary32::unit() as int;
            &&& m.red.r.value() == unit && m.red.g.value() == 0 && m.red.b.value() == 0
                && m.red.a.value() == 0 && m.red.offset.value() == 0
            &&& m.green.r.value() == 0 && m.green.g.value() == unit && m.green.b.value() == 0
                && m.green.a.value() == 0 && m.green.offset.value() == 0
            &&& m.blue.r.value() == 0 && m.blue.g.value() == 0 && m.blue.b.value() == unit
                && m.blue.a.value() == 0 && m.blue.offset.value() == 0
            &&& m.alpha.r.value() == 0 && m.alpha.g.value() == 0 && m.alpha.b.value() == 0
                && m.alpha.a.value() == unit && m.alpha.offset.value() == 0
        }),
{
    Binary32::lemma_constants(Binary32::zero());
}

} // verus!
