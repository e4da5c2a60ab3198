//! What each filter function does to a colour, in the terms that CSS defines it in.

use crate::color::Color;
use crate::color_matrix::{ColorMatrix, Filter, Luma, Row};
use crate::ieee::model::{lemma_format_constants, Format};
use crate::ieee::Binary32;
use crate::laws::exact::{
    clamped_to, lemma_channel_clamp, lemma_number, lemma_number_order, number, row_sum, vector,
    Vector,
};
use crate::laws::reals::{
    lemma_bounded_product, lemma_cancels, lemma_common_factor, lemma_commutes, lemma_distributes,
    lemma_distributes_difference, lemma_integer_product, lemma_ordered_products,
    lemma_product_of_one, lemma_product_of_zero, lemma_regrouped, lemma_size_of_product, size,
};
use crate::laws::rounding::{
    is_unit, is_unit_color, lemma_associates, lemma_difference_error, lemma_opposite_number,
    lemma_product_error, lemma_row_error, lemma_sum_error, lemma_tiny, lemma_unit,
};
use crate::laws::stability::{is_row_within, lemma_close_clamps};
use vstd::prelude::*;

verus! {

/// A pattern of a normal number, from its significand and its exponent.
pub proof fn lemma_literal(bits: u32, q: nat, e: nat, k: nat)
    requires
        bits as nat == (e + 1) * 0x80_0000 + (q - 0x80_0000),
        0x80_0000 <= q < 0x100_0000,
        e + k == 149,
    ensures
        Binary32::from_bits(bits).finite(),
        number(Binary32::from_bits(bits)) * (vstd::arithmetic::power2::pow2(k) as real) == q as real,
        Binary32::from_bits(bits).value() > 0,
{
    let f = Format::Single;
    let x = Binary32::from_bits(bits);
    let b = bits as nat;
    reveal(Format::mag);
    lemma_format_constants(f);
    assert(f.hidden() == 0x80_0000);
    assert(b / 0x80_0000 == e + 1 && b % 0x80_0000 == q - 0x80_0000);
    let p = vstd::arithmetic::power2::pow2(e) as int;
    let w = vstd::arithmetic::power2::pow2(k) as int;
    vstd::arithmetic::power2::lemma_pow2_pos(e);
    vstd::arithmetic::power2::lemma_pow2_adds(e, k);
    assert(f.mag(b) == q * p);
    assert(x.value() == q * p);
    assert(q * p > 0) by (nonlinear_arith)
        requires
            q > 0,
            p > 0,
    ;
    lemma_number(x);
    let n = number(x);
    let (pr, wr) = (p as real, w as real);
    lemma_integer_product(q as int, p);
    lemma_integer_product(p, w);
    lemma_commutes(pr, wr);
    lemma_associates(n, wr, pr);
    lemma_cancels(n * wr, q as real, pr);
}

/// The decimal that a constant of the filter functions stands for.
proof fn lemma_decimal(bits: u32, ideal: real)
    requires
        (bits == 0x3e5a1cac && 1000real * ideal == 213real) || (bits == 0x3f370a3d && 1000real *
            ideal == 715real) || (bits == 0x3d9374bc && 1000real * ideal == 72real) || (bits ==
            0x3e59b3d0 && 10000real * ideal == 2126real) || (bits == 0x3f371759 && 10000real *
            ideal == 7152real) || (bits == 0x3d93dd98 && 10000real * ideal == 722real) || (bits
            == 0x3ec9374c && 1000real * ideal == 393real) || (bits == 0x3f1b645a && 1000real *
            ideal == 607real) || (bits == 0x3f44dd2f && 1000real * ideal == 769real) || (bits ==
            0x3e418937 && 1000real * ideal == 189real) || (bits == 0x3eb2b021 && 1000real *
            ideal == 349real) || (bits == 0x3f2f9db2 && 1000real * ideal == 686real) || (bits ==
            0x3ea0c49c && 1000real * ideal == 314real) || (bits == 0x3e2c0831 && 1000real *
            ideal == 168real) || (bits == 0x3e8b4396 && 1000real * ideal == 272real) || (bits ==
            0x3f08b439 && 1000real * ideal == 534real) || (bits == 0x3e0624dd && 1000real *
            ideal == 131real) || (bits == 0x3f5e76c9 && 1000real * ideal == 869real) || (bits ==
            0x3f4978d5 && 1000real * ideal == 787real) || (bits == 0x3f6d9168 && 1000real *
            ideal == 928real) || (bits == 0x3e126e98 && 1000real * ideal == 143real) || (bits ==
            0x3e91eb85 && 1000real * ideal == 285real) || (bits == 0x3e0f5c29 && 1000real *
            ideal == 140real) || (bits == 0x3e90e560 && 1000real * ideal == 283real),
    ensures
        is_near(Binary32::from_bits(bits), ideal, 1real),
        0real < ideal < 1real,
        Binary32::from_bits(bits).value() > 0,
{
    vstd::arithmetic::power2::lemma2_to64();
    if bits == 0x3e5a1cac {
        lemma_literal(bits, 0xda1cac, 123, 26);
        assert(vstd::arithmetic::power2::pow2(26) == 0x4000000);
        assert(number(Binary32::from_bits(bits)) * 67108864real == 14294188real);
    }
    if bits == 0x3f370a3d {
        lemma_literal(bits, 0xb70a3d, 125, 24);
        assert(vstd::arithmetic::power2::pow2(24) == 0x1000000);
        assert(number(Binary32::from_bits(bits)) * 16777216real == 11995709real);
    }
    if bits == 0x3d9374bc {
        lemma_literal(bits, 0x9374bc, 122, 27);
        assert(vstd::arithmetic::power2::pow2(27) == 0x8000000);
        assert(number(Binary32::from_bits(bits)) * 134217728real == 9663676real);
    }
    if bits == 0x3e59b3d0 {
        lemma_literal(bits, 0xd9b3d0, 123, 26);
        assert(vstd::arithmetic::power2::pow2(26) == 0x4000000);
        assert(number(Binary32::from_bits(bits)) * 67108864real == 14267344real);
    }
    if bits == 0x3f371759 {
        lemma_literal(bits, 0xb71759, 125, 24);
        assert(vstd::arithmetic::power2::pow2(24) == 0x1000000);
        assert(number(Binary32::from_bits(bits)) * 16777216real == 11999065real);
    }
    if bits == 0x3d93dd98 {
        lemma_literal(bits, 0x93dd98, 122, 27);
        assert(vstd::arithmetic::power2::pow2(27) == 0x8000000);
        assert(number(Binary32::from_bits(bits)) * 134217728real == 9690520real);
    }
    if bits == 0x3ec9374c {
        lemma_literal(bits, 0xc9374c, 124, 25);
        assert(vstd::arithmetic::power2::pow2(25) == 0x2000000);
        assert(number(Binary32::from_bits(bits)) * 33554432real == 13186892real);
    }
    if bits == 0x3f1b645a {
        lemma_literal(bits, 0x9b645a, 125, 24);
        assert(vstd::arithmetic::power2::pow2(24) == 0x1000000);
        assert(number(Binary32::from_bits(bits)) * 16777216real == 10183770real);
    }
    if bits == 0x3f44dd2f {
        lemma_literal(bits, 0xc4dd2f, 125, 24);
        assert(vstd::arithmetic::power2::pow2(24) == 0x1000000);
        assert(number(Binary32::from_bits(bits)) * 16777216real == 12901679real);
    }
    if bits == 0x3e418937 {
        lemma_literal(bits, 0xc18937, 123, 26);
        assert(vstd::arithmetic::power2::pow2(26) == 0x4000000);
        assert(number(Binary32::from_bits(bits)) * 67108864real == 12683575real);
    }
    if bits == 0x3eb2b021 {
        lemma_literal(bits, 0xb2b021, 124, 25);
        assert(vstd::arithmetic::power2::pow2(25) == 0x2000000);
        assert(number(Binary32::from_bits(bits)) * 33554432real == 11710497real);
    }
    if bits == 0x3f2f9db2 {
        lemma_literal(bits, 0xaf9db2, 125, 24);
        assert(vstd::arithmetic::power2::pow2(24) == 0x1000000);
        assert(number(Binary32::from_bits(bits)) * 16777216real == 11509170real);
    }
    if bits == 0x3ea0c49c {
        lemma_literal(bits, 0xa0c49c, 124, 25);
        assert(vstd::arithmetic::power2::pow2(25) == 0x2000000);
        assert(number(Binary32::from_bits(bits)) * 33554432real == 10536092real);
    }
    if bits == 0x3e2c0831 {
        lemma_literal(bits, 0xac0831, 123, 26);
        assert(vstd::arithmetic::power2::pow2(26) == 0x4000000);
        assert(number(Binary32::from_bits(bits)) * 67108864real == 11274289real);
    }
    if bits == 0x3e8b4396 {
        lemma_literal(bits, 0x8b4396, 124, 25);
        assert(vstd::arithmetic::power2::pow2(25) == 0x2000000);
        assert(number(Binary32::from_bits(bits)) * 33554432real == 9126806real);
    }
    if bits == 0x3f08b439 {
        lemma_literal(bits, 0x88b439, 125, 24);
        assert(vstd::arithmetic::power2::pow2(24) == 0x1000000);
        assert(number(Binary32::from_bits(bits)) * 16777216real == 8959033real);
    }
    if bits == 0x3e0624dd {
        lemma_literal(bits, 0x8624dd, 123, 26);
        assert(vstd::arithmetic::power2::pow2(26) == 0x4000000);
        assert(number(Binary32::from_bits(bits)) * 67108864real == 8791261real);
    }
    if bits == 0x3f5e76c9 {
        lemma_literal(bits, 0xde76c9, 125, 24);
        assert(vstd::arithmetic::power2::pow2(24) == 0x1000000);
        assert(number(Binary32::from_bits(bits)) * 16777216real == 14579401real);
    }
    if bits == 0x3f4978d5 {
        lemma_literal(bits, 0xc978d5, 125, 24);
        assert(vstd::arithmetic::power2::pow2(24) == 0x1000000);
        assert(number(Binary32::from_bits(bits)) * 16777216real == 13203669real);
    }
    if bits == 0x3f6d9168 {
        lemma_literal(bits, 0xed9168, 125, 24);
        assert(vstd::arithmetic::power2::pow2(24) == 0x1000000);
        assert(number(Binary32::from_bits(bits)) * 16777216real == 15569256real);
    }
    if bits == 0x3e126e98 {
        lemma_literal(bits, 0x926e98, 123, 26);
        assert(vstd::arithmetic::power2::pow2(26) == 0x4000000);
        assert(number(Binary32::from_bits(bits)) * 67108864real == 9596568real);
    }
    if bits == 0x3e91eb85 {
        lemma_literal(bits, 0x91eb85, 124, 25);
        assert(vstd::arithmetic::power2::pow2(25) == 0x2000000);
        assert(number(Binary32::from_bits(bits)) * 33554432real == 9563013real);
    }
    if bits == 0x3e0f5c29 {
        lemma_literal(bits, 0x8f5c29, 123, 26);
        assert(vstd::arithmetic::power2::pow2(26) == 0x4000000);
        assert(number(Binary32::from_bits(bits)) * 67108864real == 9395241real);
    }
    if bits == 0x3e90e560 {
        lemma_literal(bits, 0x90e560, 124, 25);
        assert(vstd::arithmetic::power2::pow2(25) == 0x2000000);
        assert(number(Binary32::from_bits(bits)) * 33554432real == 9495904real);
    }
}

/// Whether a pattern is a number that is no further from another than so many parts in `2^24`.
pub open spec fn is_near(x: Binary32, ideal: real, e: real) -> bool {
    x.finite() && 16777215real * size(number(x) - ideal) <= e
}

proof fn lemma_near_sum(a: Binary32, b: Binary32, x: real, y: real, d: real, e: real)
    requires
        is_near(a, x, d),
        is_near(b, y, e),
        size(x) + size(y) <= 1000000real,
        d + e <= 8000000real,
    ensures
        is_near(a.plus(b), x + y, d + e + size(x) + size(y) + 1real),
{
    lemma_sum_error(a, b);
}

proof fn lemma_near_difference(a: Binary32, b: Binary32, x: real, y: real, d: real, e: real)
    requires
        is_near(a, x, d),
        is_near(b, y, e),
        size(x) + size(y) <= 1000000real,
        d + e <= 8000000real,
    ensures
        is_near(a.minus(b), x - y, d + e + size(x) + size(y) + 1real),
{
    lemma_difference_error(a, b);
}

/// A constant of at most one times a number of at most `k`.
proof fn lemma_near_product(a: Binary32, b: Binary32, x: real, y: real, e: real, k: real)
    requires
        is_near(a, x, 3real),
        is_near(b, y, e),
        size(x) <= 1real,
        size(y) <= k,
        0real <= e <= 8real,
        0real <= k <= 65536real,
    ensures
        is_near(a.times(b), x * y, 5real * k + 2real * e + 3real),
        is_near(b.times(a), x * y, 5real * k + 2real * e + 3real),
        size(x * y) <= k,
{
    let (p, q) = (number(a), number(b));
    lemma_tiny();
    // p * q - x * y == p * (q - y) + (p - x) * y
    lemma_distributes_difference(p, q, y);
    lemma_common_factor(p, x, y);
    let s = p * (q - y);
    let t = (p - x) * y;
    lemma_size_of_product(p, q - y);
    lemma_size_of_product(p - x, y);
    lemma_ordered_products(size(q - y), size(p), 2real);
    lemma_commutes(size(q - y), size(p));
    lemma_commutes(size(q - y), 2real);
    lemma_ordered_products(size(p - x), size(y), k);
    lemma_ordered_products(k, 16777215real * size(p - x), 3real);
    lemma_regrouped(16777215real, k, size(p - x));
    lemma_commutes(k, size(p - x));
    lemma_commutes(k, 3real);
    lemma_bounded_product(y, x, 1real);
    lemma_commutes(x, y);
    lemma_product_of_one(size(y));
    assert(16777215real * size(t) <= 3real * k);
    assert(16777215real * size(s) <= 2real * e);
    lemma_commutes(p, q);
    lemma_product_error(a, b);
    lemma_product_error(b, a);
}

/// A row that is near its ideal coefficients makes of a colour something near the ideal.
proof fn lemma_row_is_near(
    row: Row,
    color: Color,
    xr: real,
    xg: real,
    xb: real,
    xo: real,
    k: real,
)
    requires
        is_unit_color(color),
        0real <= k <= 65536real,
        is_near(row.r, xr, 12real * k + 24real),
        is_near(row.g, xg, 12real * k + 24real),
        is_near(row.b, xb, 12real * k + 24real),
        is_near(row.offset, xo, 12real * k + 24real),
        row.a.finite(),
        row.a.value() == 0,
        size(xr) <= 2real * k + 1real,
        size(xg) <= 2real * k + 1real,
        size(xb) <= 2real * k + 1real,
        size(xo) <= 2real * k + 1real,
    ensures
        ({
            let v = vector(color);
            let ideal = xr * v.r + xg * v.g + xb * v.b + xo;
            &&& row.combine(color).finite()
            &&& 16777215real * size(number(row.combine(color)) - ideal) <= 200real * (k + 1real)
            &&& 16777215real * size(
                number(crate::color_matrix::clamp_unit(row.combine(color))) - clamped_to(
                    ideal,
                    1real,
                ),
            ) <= 200real * (k + 1real)
        }),
{
    let v = vector(color);
    let (r, g, b, a, o) = (
        number(row.r),
        number(row.g),
        number(row.b),
        number(row.a),
        number(row.offset),
    );
    lemma_number(row.a);
    lemma_unit(color.r);
    lemma_unit(color.g);
    lemma_unit(color.b);
    lemma_unit(color.a);
    let w = 8real * k + 8real;
    lemma_size_near(r, xr, k);
    lemma_size_near(g, xg, k);
    lemma_size_near(b, xb, k);
    lemma_size_near(o, xo, k);
    assert(is_row_within(row, w));
    lemma_row_error(row, color, false, w);
    assert(row.combine_vector(color, false) == row.combine(color));
    lemma_product_of_zero(v.a);
    lemma_scaled_error(r, xr, v.r);
    lemma_scaled_error(g, xg, v.g);
    lemma_scaled_error(b, xb, v.b);
    let ideal = xr * v.r + xg * v.g + xb * v.b + xo;
    let sum = row_sum(row, v, false);
    assert(a * v.a == 0real);
    lemma_four_errors(
        r * v.r - xr * v.r,
        g * v.g - xg * v.g,
        b * v.b - xb * v.b,
        o - xo,
        sum - ideal,
        12real * k + 24real,
    );
    lemma_two_errors(number(row.combine(color)), sum, ideal, k);
    let e = 200real * (k + 1real) / 16777215real;
    let one = Binary32::one();
    lemma_number(one);
    Binary32::lemma_constants(one);
    lemma_channel_clamp(row.combine(color), one);
    lemma_close_clamps(number(row.combine(color)), ideal, 1real, 1real, e);
}

proof fn lemma_size_near(a: real, x: real, k: real)
    requires
        16777215real * size(a - x) <= 12real * k + 24real,
        size(x) <= 2real * k + 1real,
        0real <= k <= 65536real,
    ensures
        size(a) <= 2real * k + 2real,
{
}

proof fn lemma_four_errors(a: real, b: real, c: real, d: real, e: real, m: real)
    requires
        e == a + b + c + d,
        16777215real * size(a) <= m,
        16777215real * size(b) <= m,
        16777215real * size(c) <= m,
        16777215real * size(d) <= m,
    ensures
        16777215real * size(e) <= 4real * m,
{
}

proof fn lemma_two_errors(x: real, y: real, z: real, k: real)
    requires
        16777215real * size(x - y) <= 8real * (8real * k + 8real),
        16777215real * size(y - z) <= 4real * (12real * k + 24real),
        k >= 0real,
    ensures
        16777215real * size(x - z) <= 200real * (k + 1real),
{
}

proof fn lemma_scaled_error(a: real, x: real, c: real)
    requires
        0real <= c <= 1real,
    ensures
        size(a * c - x * c) <= size(a - x),
{
    lemma_common_factor(a, x, c);
    lemma_bounded_product(a - x, c, 1real);
    lemma_product_of_one(size(a - x));
}

/// What a filter function that takes an amount from `[0, 1]` makes of any other.
pub open spec fn unit_amount(amount: Binary32) -> real {
    clamped_to(number(amount), 1real)
}

/// A sum of channels in given proportions.
pub open spec fn tone(v: Vector, kr: real, kg: real, kb: real) -> real {
    kr * v.r + kg * v.g + kb * v.b
}

/// The luminance that `saturate()` and `hue-rotate()` are defined with.
pub open spec fn luminance(v: Vector) -> real {
    tone(v, 213real / 1000real, 715real / 1000real, 72real / 1000real)
}

/// The luminance that `grayscale()` is defined with.
pub open spec fn gray(v: Vector) -> real {
    tone(v, 2126real / 10000real, 7152real / 10000real, 722real / 10000real)
}

/// A channel that is kept to so much, the rest of it made up by a tone.
pub open spec fn kept_to(c: real, keep: real, tone: real) -> real {
    tone + keep * (c - tone)
}

/// What a filter function makes of a colour, before it is clamped: `brightness()` scales each
/// channel, `contrast()` scales it about one half, `invert()` turns it round by the amount,
/// `saturate()` scales its distance from the luminance, `grayscale()` and `sepia()` move it
/// towards a tone by the amount, and `hue-rotate()` turns the colour about the luminance.
pub open spec fn ideal(filter: Filter, v: Vector) -> Vector {
    let half = 1real / 2real;
    match filter {
        Filter::Brightness(amount) => {
            let a = number(amount);
            Vector { r: a * v.r, g: a * v.g, b: a * v.b, a: v.a }
        },
        Filter::Contrast(amount) => {
            let a = number(amount);
            Vector {
                r: kept_to(v.r, a, half),
                g: kept_to(v.g, a, half),
                b: kept_to(v.b, a, half),
                a: v.a,
            }
        },
        Filter::Invert(amount) => {
            let a = unit_amount(amount);
            Vector {
                r: v.r + a * (1real - 2real * v.r),
                g: v.g + a * (1real - 2real * v.g),
                b: v.b + a * (1real - 2real * v.b),
                a: v.a,
            }
        },
        Filter::Saturate(amount) => {
            let (a, l) = (number(amount), luminance(v));
            Vector { r: kept_to(v.r, a, l), g: kept_to(v.g, a, l), b: kept_to(v.b, a, l), a: v.a }
        },
        Filter::Grayscale(amount) => {
            let (k, l) = (1real - unit_amount(amount), gray(v));
            Vector { r: kept_to(v.r, k, l), g: kept_to(v.g, k, l), b: kept_to(v.b, k, l), a: v.a }
        },
        Filter::Sepia(amount) => {
            let k = 1real - unit_amount(amount);
            Vector {
                r: kept_to(
                    v.r,
                    k,
                    tone(v, 393real / 1000real, 769real / 1000real, 189real / 1000real),
                ),
                g: kept_to(
                    v.g,
                    k,
                    tone(v, 349real / 1000real, 686real / 1000real, 168real / 1000real),
                ),
                b: kept_to(
                    v.b,
                    k,
                    tone(v, 272real / 1000real, 534real / 1000real, 131real / 1000real),
                ),
                a: v.a,
            }
        },
        Filter::HueRotate(sin, cos) => {
            let (s, c, l) = (number(sin), number(cos), luminance(v));
            Vector {
                r: kept_to(v.r, c, l) + s * (v.b - l),
                g: kept_to(v.g, c, l) + s * tone(
                    v,
                    143real / 1000real,
                    140real / 1000real,
                    -(283real / 1000real),
                ),
                b: kept_to(v.b, c, l) + s * (l - v.r),
                a: v.a,
            }
        },
        _ => v,
    }
}

/// Whether the amount of a filter function is a number of at most `k`; the sine and the cosine of
/// an angle are of at most one.
pub open spec fn has_amount(filter: Filter, k: real) -> bool {
    match filter {
        Filter::Brightness(a) => a.finite() && size(number(a)) <= k,
        Filter::Contrast(a) => a.finite() && size(number(a)) <= k,
        Filter::Invert(a) => a.finite() && 1real <= k,
        Filter::Saturate(a) => a.finite() && size(number(a)) <= k,
        Filter::Grayscale(a) => a.finite() && 1real <= k,
        Filter::Sepia(a) => a.finite() && 1real <= k,
        Filter::HueRotate(s, c) => s.finite() && c.finite() && size(number(s)) <= 1real && size(
            number(c),
        ) <= 1real && 1real <= k,
        _ => false,
    }
}

/// A negative constant.
proof fn lemma_negative(positive: Binary32, negative: Binary32, ideal: real)
    requires
        is_near(positive, ideal, 1real),
        negative == positive.negated(),
    ensures
        is_near(negative, -ideal, 1real),
{
    positive.lemma_negated();
    lemma_opposite_number(positive);
}

/// One half and two.
pub proof fn lemma_half_and_two()
    ensures
        Binary32::half().finite(),
        number(Binary32::half()) == 1real / 2real,
        Binary32::two().finite(),
        number(Binary32::two()) == 2real,
{
    vstd::arithmetic::power2::lemma2_to64();
    lemma_literal(0x3f00_0000, 0x80_0000, 125, 24);
    assert(vstd::arithmetic::power2::pow2(24) == 0x100_0000);
    assert(number(Binary32::from_bits(0x3f00_0000)) * 16777216real == 8388608real);
    lemma_literal(0x4000_0000, 0x80_0000, 127, 22);
    assert(vstd::arithmetic::power2::pow2(22) == 0x40_0000);
    assert(number(Binary32::from_bits(0x4000_0000)) * 4194304real == 8388608real);
}

/// What is kept of a channel and what a tone makes up of it.
proof fn lemma_own(
    c: Binary32,
    d: Binary32,
    kept: Binary32,
    w: real,
    keep: real,
    e: real,
    k: real,
)
    requires
        is_near(c, w, 1real),
        is_near(d, 1real - w, 3real),
        is_near(kept, keep, e),
        0real < w < 1real,
        size(keep) <= k,
        0real <= e <= 8real,
        0real <= k <= 65536real,
    ensures
        is_near(c.plus(d.times(kept)), w + (1real - w) * keep, 12real * k + 24real),
        size(w + (1real - w) * keep) <= 2real * k + 1real,
{
    lemma_near_product(d, kept, 1real - w, keep, e, k);
    lemma_near_sum(
        c,
        d.times(kept),
        w,
        (1real - w) * keep,
        1real,
        5real * k + 2real * e + 3real,
    );
}

/// What a tone makes up of another channel.
proof fn lemma_other(c: Binary32, kept: Binary32, w: real, keep: real, e: real, k: real)
    requires
        is_near(c, w, 1real),
        is_near(kept, keep, e),
        0real < w < 1real,
        size(keep) <= k,
        0real <= e <= 8real,
        0real <= k <= 65536real,
    ensures
        is_near(c.minus(c.times(kept)), w - w * keep, 12real * k + 24real),
        size(w - w * keep) <= 2real * k + 1real,
{
    lemma_near_product(c, kept, w, keep, e, k);
    lemma_near_difference(
        c,
        c.times(kept),
        w,
        w * keep,
        1real,
        5real * k + 2real * e + 3real,
    );
}

/// What is left of one.
proof fn lemma_complement(c: Binary32, w: real)
    requires
        is_near(c, w, 1real),
        0real < w < 1real,
    ensures
        is_near(Binary32::one().minus(c), 1real - w, 3real),
{
    lemma_number(c);
    Binary32::lemma_constants(c);
    lemma_difference_error(Binary32::one(), c);
}

/// The coefficients of a channel that is kept to so much add up to that.
proof fn lemma_kept(x: real, y: real, z: real, p: real, q: real, s: real, keep: real)
    ensures
        (p + (1real - p) * keep) * x + (q - q * keep) * y + (s - s * keep) * z + 0real == kept_to(
            x,
            keep,
            p * x + q * y + s * z,
        ),
{
    let t = p * x + q * y + s * z;
    let (kx, ky, kz) = (keep * x, keep * y, keep * z);
    lemma_common_factor(p, (1real - p) * keep, x);
    lemma_associates(1real - p, keep, x);
    lemma_common_factor(1real, p, kx);
    lemma_product_of_one(kx);
    lemma_common_factor(q, q * keep, y);
    lemma_associates(q, keep, y);
    lemma_common_factor(s, s * keep, z);
    lemma_associates(s, keep, z);
    lemma_distributes_difference(keep, x, t);
    lemma_distributes(keep, p * x + q * y, s * z);
    lemma_distributes(keep, p * x, q * y);
    lemma_regrouped(p, keep, x);
    lemma_regrouped(q, keep, y);
    lemma_regrouped(s, keep, z);
}

/// Whether a channel is what a filter function makes of it, up to rounding, before and after it is
/// clamped.
pub open spec fn is_channel(row: Row, color: Color, want: real, k: real) -> bool {
    &&& is_near(row.combine(color), want, 200real * (k + 1real))
    &&& is_near(
        crate::color_matrix::clamp_unit(row.combine(color)),
        clamped_to(want, 1real),
        200real * (k + 1real),
    )
}

proof fn lemma_clamped_is_finite(x: Binary32)
    requires
        x.finite(),
    ensures
        crate::color_matrix::clamp_unit(x).finite(),
        is_unit(crate::color_matrix::clamp_unit(x)),
        number(crate::color_matrix::clamp_unit(x)) == clamped_to(number(x), 1real),
{
    let one = Binary32::one();
    Binary32::lemma_constants(x);
    lemma_number(one);
    lemma_channel_clamp(x, one);
}

/// The rows of a matrix that keeps so much of each channel and makes up the rest by a tone of its
/// own.
proof fn lemma_toned(
    row: Row,
    color: Color,
    own: int,
    c: (Binary32, Binary32, Binary32),
    d: Binary32,
    kept: Binary32,
    p: real,
    q: real,
    s: real,
    keep: real,
    e: real,
    k: real,
)
    requires
        is_unit_color(color),
        is_near(c.0, p, 1real) && is_near(c.1, q, 1real) && is_near(c.2, s, 1real),
        0real < p < 1real && 0real < q < 1real && 0real < s < 1real,
        is_near(kept, keep, e),
        size(keep) <= k,
        0real <= e <= 8real,
        0real <= k <= 65536real,
        row.a == Binary32::zero(),
        row.offset == Binary32::zero(),
        own == 0 ==> is_near(d, 1real - p, 3real) && row.r == c.0.plus(d.times(kept)) && row.g
            == c.1.minus(c.1.times(kept)) && row.b == c.2.minus(c.2.times(kept)),
        own == 1 ==> is_near(d, 1real - q, 3real) && row.r == c.0.minus(c.0.times(kept)) && row.g
            == c.1.plus(d.times(kept)) && row.b == c.2.minus(c.2.times(kept)),
        own == 2 ==> is_near(d, 1real - s, 3real) && row.r == c.0.minus(c.0.times(kept)) && row.g
            == c.1.minus(c.1.times(kept)) && row.b == c.2.plus(d.times(kept)),
    ensures
        ({
            let v = vector(color);
            &&& own == 0 ==> is_channel(row, color, kept_to(v.r, keep, tone(v, p, q, s)), k)
            &&& own == 1 ==> is_channel(row, color, kept_to(v.g, keep, tone(v, p, q, s)), k)
            &&& own == 2 ==> is_channel(row, color, kept_to(v.b, keep, tone(v, p, q, s)), k)
        }),
{
    let v = vector(color);
    let zero = Binary32::zero();
    lemma_number(zero);
    Binary32::lemma_constants(zero);
    lemma_other(c.0, kept, p, keep, e, k);
    lemma_other(c.1, kept, q, keep, e, k);
    lemma_other(c.2, kept, s, keep, e, k);
    let (xr, xg, xb) = (
        if own == 0 {
            p + (1real - p) * keep
        } else {
            p - p * keep
        },
        if own == 1 {
            q + (1real - q) * keep
        } else {
            q - q * keep
        },
        if own == 2 {
            s + (1real - s) * keep
        } else {
            s - s * keep
        },
    );
    if own == 0 {
        lemma_own(c.0, d, kept, p, keep, e, k);
        lemma_kept(v.r, v.g, v.b, p, q, s, keep);
        lemma_row_is_near(row, color, xr, xg, xb, 0real, k);
        lemma_clamped_is_finite(row.combine(color));
    } else if own == 1 {
        lemma_own(c.1, d, kept, q, keep, e, k);
        lemma_kept(v.g, v.r, v.b, q, p, s, keep);
        lemma_row_is_near(row, color, xr, xg, xb, 0real, k);
        lemma_clamped_is_finite(row.combine(color));
        assert(q * v.g + p * v.r + s * v.b == tone(v, p, q, s));
    } else if own == 2 {
        lemma_own(c.2, d, kept, s, keep, e, k);
        lemma_kept(v.b, v.r, v.g, s, p, q, keep);
        lemma_row_is_near(row, color, xr, xg, xb, 0real, k);
        lemma_clamped_is_finite(row.combine(color));
        assert(s * v.b + p * v.r + q * v.g == tone(v, p, q, s));
    }
}

/// A row that scales one channel and adds an intercept.
proof fn lemma_transfer(
    row: Row,
    color: Color,
    own: int,
    slope: Binary32,
    intercept: Binary32,
    a: real,
    b: real,
    k: real,
)
    requires
        is_unit_color(color),
        is_near(slope, a, 12real * k + 24real),
        is_near(intercept, b, 12real * k + 24real),
        size(a) <= 2real * k + 1real,
        size(b) <= 2real * k + 1real,
        0real <= k <= 65536real,
        row.a == Binary32::zero(),
        row.offset == intercept,
        own == 0 ==> row.r == slope && row.g == Binary32::zero() && row.b == Binary32::zero(),
        own == 1 ==> row.g == slope && row.r == Binary32::zero() && row.b == Binary32::zero(),
        own == 2 ==> row.b == slope && row.r == Binary32::zero() && row.g == Binary32::zero(),
    ensures
        ({
            let v = vector(color);
            &&& own == 0 ==> is_channel(row, color, a * v.r + b, k)
            &&& own == 1 ==> is_channel(row, color, a * v.g + b, k)
            &&& own == 2 ==> is_channel(row, color, a * v.b + b, k)
        }),
{
    let v = vector(color);
    let zero = Binary32::zero();
    lemma_number(zero);
    Binary32::lemma_constants(zero);
    lemma_product_of_zero(v.r);
    lemma_product_of_zero(v.g);
    lemma_product_of_zero(v.b);
    if own == 0 {
        lemma_row_is_near(row, color, a, 0real, 0real, b, k);
        lemma_clamped_is_finite(row.combine(color));
    } else if own == 1 {
        lemma_row_is_near(row, color, 0real, a, 0real, b, k);
        lemma_clamped_is_finite(row.combine(color));
    } else if own == 2 {
        lemma_row_is_near(row, color, 0real, 0real, a, b, k);
        lemma_clamped_is_finite(row.combine(color));
    }
}

/// Whether a colour is what a filter function makes of another, channel by channel.
pub open spec fn is_filtered_ideally(filter: Filter, color: Color, k: real) -> bool {
    let m = filter.matrix()->0;
    let want = ideal(filter, vector(color));
    &&& is_channel(m.red, color, want.r, k)
    &&& is_channel(m.green, color, want.g, k)
    &&& is_channel(m.blue, color, want.b, k)
}

proof fn lemma_brightness(amount: Binary32, color: Color, k: real)
    requires
        has_amount(Filter::Brightness(amount), k),
        0real <= k <= 65536real,
        is_unit_color(color),
    ensures
        is_filtered_ideally(Filter::Brightness(amount), color, k),
{
    let m = ColorMatrix::brightness(amount);
    let zero = Binary32::zero();
    lemma_number(zero);
    Binary32::lemma_constants(zero);
    let a = number(amount);
    lemma_transfer(m.red, color, 0, amount, zero, a, 0real, k);
    lemma_transfer(m.green, color, 1, amount, zero, a, 0real, k);
    lemma_transfer(m.blue, color, 2, amount, zero, a, 0real, k);
}

proof fn lemma_about_half(a: real, x: real)
    ensures
        a * x + (-((1real / 2real) * a) + 1real / 2real) == kept_to(x, a, 1real / 2real),
{
    lemma_distributes_difference(a, x, 1real / 2real);
    lemma_commutes(a, 1real / 2real);
}

proof fn lemma_contrast(amount: Binary32, color: Color, k: real)
    requires
        has_amount(Filter::Contrast(amount), k),
        0real <= k <= 65536real,
        is_unit_color(color),
    ensures
        is_filtered_ideally(Filter::Contrast(amount), color, k),
{
    let m = ColorMatrix::contrast(amount);
    let v = vector(color);
    let half = Binary32::half();
    let a = number(amount);
    lemma_half_and_two();
    lemma_near_product(half, amount, 1real / 2real, a, 0real, k);
    let p = half.times(amount);
    p.lemma_negated();
    lemma_opposite_number(p);
    let y = (1real / 2real) * a;
    lemma_near_sum(p.negated(), half, -y, 1real / 2real, 5real * k + 3real, 0real);
    let b = -y + 1real / 2real;
    let offset = p.negated().plus(half);
    lemma_transfer(m.red, color, 0, amount, offset, a, b, k);
    lemma_transfer(m.green, color, 1, amount, offset, a, b, k);
    lemma_transfer(m.blue, color, 2, amount, offset, a, b, k);
    lemma_about_half(a, v.r);
    lemma_about_half(a, v.g);
    lemma_about_half(a, v.b);
}

proof fn lemma_turned_round(a: real, x: real)
    ensures
        (1real - 2real * a) * x + a == x + a * (1real - 2real * x),
{
    lemma_common_factor(1real, 2real * a, x);
    lemma_associates(2real, a, x);
    lemma_product_of_one(x);
    lemma_distributes_difference(a, 1real, 2real * x);
    lemma_product_of_one(a);
    lemma_regrouped(2real, a, x);
}

proof fn lemma_invert(amount: Binary32, color: Color, k: real)
    requires
        has_amount(Filter::Invert(amount), k),
        0real <= k <= 65536real,
        is_unit_color(color),
    ensures
        is_filtered_ideally(Filter::Invert(amount), color, k),
{
    let m = ColorMatrix::invert(amount);
    let v = vector(color);
    let clamped = crate::color_matrix::clamp_unit(amount);
    let (one, two) = (Binary32::one(), Binary32::two());
    lemma_clamped_is_finite(amount);
    lemma_unit(clamped);
    lemma_half_and_two();
    lemma_number(one);
    Binary32::lemma_constants(one);
    let a = unit_amount(amount);
    lemma_near_product(clamped, two, a, 2real, 0real, 2real);
    lemma_commutes(a, 2real);
    lemma_near_difference(one, two.times(clamped), 1real, 2real * a, 0real, 13real);
    let slope = one.minus(two.times(clamped));
    let x = 1real - 2real * a;
    lemma_transfer(m.red, color, 0, slope, clamped, x, a, k);
    lemma_transfer(m.green, color, 1, slope, clamped, x, a, k);
    lemma_transfer(m.blue, color, 2, slope, clamped, x, a, k);
    lemma_turned_round(a, v.r);
    lemma_turned_round(a, v.g);
    lemma_turned_round(a, v.b);
}

proof fn lemma_desaturated(
    luma: Luma,
    kept: Binary32,
    color: Color,
    p: real,
    q: real,
    s: real,
    keep: real,
    e: real,
    k: real,
)
    requires
        is_unit_color(color),
        is_near(luma.r, p, 1real) && is_near(luma.g, q, 1real) && is_near(luma.b, s, 1real),
        0real < p < 1real && 0real < q < 1real && 0real < s < 1real,
        is_near(kept, keep, e),
        size(keep) <= k,
        0real <= e <= 8real,
        0real <= k <= 65536real,
    ensures
        ({
            let m = ColorMatrix::desaturated(luma, kept);
            let v = vector(color);
            let t = tone(v, p, q, s);
            &&& is_channel(m.red, color, kept_to(v.r, keep, t), k)
            &&& is_channel(m.green, color, kept_to(v.g, keep, t), k)
            &&& is_channel(m.blue, color, kept_to(v.b, keep, t), k)
        }),
{
    let m = ColorMatrix::desaturated(luma, kept);
    let one = Binary32::one();
    let c = (luma.r, luma.g, luma.b);
    lemma_complement(luma.r, p);
    lemma_complement(luma.g, q);
    lemma_complement(luma.b, s);
    lemma_toned(m.red, color, 0, c, one.minus(luma.r), kept, p, q, s, keep, e, k);
    lemma_toned(m.green, color, 1, c, one.minus(luma.g), kept, p, q, s, keep, e, k);
    lemma_toned(m.blue, color, 2, c, one.minus(luma.b), kept, p, q, s, keep, e, k);
}

proof fn lemma_saturate(amount: Binary32, color: Color, k: real)
    requires
        has_amount(Filter::Saturate(amount), k),
        0real <= k <= 65536real,
        is_unit_color(color),
    ensures
        is_filtered_ideally(Filter::Saturate(amount), color, k),
{
    let (p, q, s) = (213real / 1000real, 715real / 1000real, 72real / 1000real);
    lemma_decimal(0x3e5a_1cac, p);
    lemma_decimal(0x3f37_0a3d, q);
    lemma_decimal(0x3d93_74bc, s);
    lemma_desaturated(Luma::saturate(), amount, color, p, q, s, number(amount), 0real, k);
}

/// What is left of one after an amount from `[0, 1]`.
proof fn lemma_keep(amount: Binary32)
    requires
        amount.finite(),
    ensures
        is_near(
            Binary32::one().minus(crate::color_matrix::clamp_unit(amount)),
            1real - unit_amount(amount),
            1real,
        ),
        size(1real - unit_amount(amount)) <= 1real,
{
    let one = Binary32::one();
    lemma_clamped_is_finite(amount);
    lemma_unit(crate::color_matrix::clamp_unit(amount));
    lemma_number(one);
    Binary32::lemma_constants(one);
    lemma_difference_error(one, crate::color_matrix::clamp_unit(amount));
}

proof fn lemma_grayscale(amount: Binary32, color: Color, k: real)
    requires
        has_amount(Filter::Grayscale(amount), k),
        0real <= k <= 65536real,
        is_unit_color(color),
    ensures
        is_filtered_ideally(Filter::Grayscale(amount), color, k),
{
    let (p, q, s) = (2126real / 10000real, 7152real / 10000real, 722real / 10000real);
    lemma_decimal(0x3e59_b3d0, p);
    lemma_decimal(0x3f37_1759, q);
    lemma_decimal(0x3d93_dd98, s);
    lemma_keep(amount);
    lemma_desaturated(
        Luma::grayscale(),
        Binary32::one().minus(crate::color_matrix::clamp_unit(amount)),
        color,
        p,
        q,
        s,
        1real - unit_amount(amount),
        1real,
        k,
    );
}

proof fn lemma_sepia(amount: Binary32, color: Color, k: real)
    requires
        has_amount(Filter::Sepia(amount), k),
        0real <= k <= 65536real,
        is_unit_color(color),
    ensures
        is_filtered_ideally(Filter::Sepia(amount), color, k),
{
    let m = ColorMatrix::sepia(amount);
    let keep = 1real - unit_amount(amount);
    let kept = Binary32::one().minus(crate::color_matrix::clamp_unit(amount));
    lemma_keep(amount);
    lemma_decimal(0x3ec9_374c, 393real / 1000real);
    lemma_decimal(0x3f1b_645a, 607real / 1000real);
    lemma_decimal(0x3f44_dd2f, 769real / 1000real);
    lemma_decimal(0x3e41_8937, 189real / 1000real);
    lemma_decimal(0x3eb2_b021, 349real / 1000real);
    lemma_decimal(0x3f2f_9db2, 686real / 1000real);
    lemma_decimal(0x3ea0_c49c, 314real / 1000real);
    lemma_decimal(0x3e2c_0831, 168real / 1000real);
    lemma_decimal(0x3e8b_4396, 272real / 1000real);
    lemma_decimal(0x3f08_b439, 534real / 1000real);
    lemma_decimal(0x3e06_24dd, 131real / 1000real);
    lemma_decimal(0x3f5e_76c9, 869real / 1000real);
    lemma_toned(
        m.red,
        color,
        0,
        (
            Binary32::from_bits(0x3ec9_374c),
            Binary32::from_bits(0x3f44_dd2f),
            Binary32::from_bits(0x3e41_8937),
        ),
        Binary32::from_bits(0x3f1b_645a),
        kept,
        393real / 1000real,
        769real / 1000real,
        189real / 1000real,
        keep,
        1real,
        k,
    );
    lemma_toned(
        m.green,
        color,
        1,
        (
            Binary32::from_bits(0x3eb2_b021),
            Binary32::from_bits(0x3f2f_9db2),
            Binary32::from_bits(0x3e2c_0831),
        ),
        Binary32::from_bits(0x3ea0_c49c),
        kept,
        349real / 1000real,
        686real / 1000real,
        168real / 1000real,
        keep,
        1real,
        k,
    );
    lemma_toned(
        m.blue,
        color,
        2,
        (
            Binary32::from_bits(0x3e8b_4396),
            Binary32::from_bits(0x3f08_b439),
            Binary32::from_bits(0x3e06_24dd),
        ),
        Binary32::from_bits(0x3f5e_76c9),
        kept,
        272real / 1000real,
        534real / 1000real,
        131real / 1000real,
        keep,
        1real,
        k,
    );
}

/// A coefficient of `hue-rotate()`.
proof fn lemma_turn_coefficient(
    base: Binary32,
    cos: Binary32,
    along: Binary32,
    sin: Binary32,
    across: Binary32,
    w: real,
    c: real,
    p: real,
    s: real,
    q: real,
)
    requires
        is_near(base, w, 1real),
        is_near(along, p, 1real),
        is_near(across, q, 1real),
        is_near(cos, c, 0real),
        is_near(sin, s, 0real),
        size(w) <= 1real && size(p) <= 1real && size(q) <= 1real,
        size(c) <= 1real && size(s) <= 1real,
    ensures
        is_near(base.plus(cos.times(along)).plus(sin.times(across)), w + p * c + q * s, 26real),
        size(w + p * c + q * s) <= 3real,
{
    lemma_near_product(along, cos, p, c, 0real, 1real);
    lemma_near_product(across, sin, q, s, 0real, 1real);
    let a = base.plus(cos.times(along));
    lemma_near_sum(base, cos.times(along), w, p * c, 1real, 8real);
    lemma_near_sum(a, sin.times(across), w + p * c, q * s, 12real, 8real);
}

/// A term of `hue-rotate()`.
proof fn lemma_turned_term(w: real, p: real, q: real, c: real, s: real, x: real)
    ensures
        (w + p * c + q * s) * x == w * x + p * (c * x) + q * (s * x),
{
    lemma_common_factor(w + p * c, q * s, x);
    lemma_common_factor(w, p * c, x);
    lemma_associates(p, c, x);
    lemma_associates(q, s, x);
}

/// A sum of channels, scaled.
proof fn lemma_scaled_tone(a: real, v: Vector, p: real, q: real, s: real)
    ensures
        a * tone(v, p, q, s) == p * (a * v.r) + q * (a * v.g) + s * (a * v.b),
{
    lemma_distributes(a, p * v.r + q * v.g, s * v.b);
    lemma_distributes(a, p * v.r, q * v.g);
    lemma_regrouped(p, a, v.r);
    lemma_regrouped(q, a, v.g);
    lemma_regrouped(s, a, v.b);
}

proof fn lemma_hue_coefficients(sin: Binary32, cos: Binary32)
    requires
        has_amount(Filter::HueRotate(sin, cos), 1real),
    ensures
        ({
            let m = ColorMatrix::hue_rotate(sin, cos);
            let (s, c) = (number(sin), number(cos));
            &&& is_near(
                m.red.r,
                213real / 1000real + (787real / 1000real) * c + (-(213real / 1000real)) * s,
                26real,
            )
            &&& is_near(
                m.red.g,
                715real / 1000real + (-(715real / 1000real)) * c + (-(715real / 1000real)) * s,
                26real,
            )
            &&& is_near(
                m.red.b,
                72real / 1000real + (-(72real / 1000real)) * c + (928real / 1000real) * s,
                26real,
            )
            &&& is_near(
                m.green.r,
                213real / 1000real + (-(213real / 1000real)) * c + (143real / 1000real) * s,
                26real,
            )
            &&& is_near(
                m.green.g,
                715real / 1000real + (285real / 1000real) * c + (140real / 1000real) * s,
                26real,
            )
            &&& is_near(
                m.green.b,
                72real / 1000real + (-(72real / 1000real)) * c + (-(283real / 1000real)) * s,
                26real,
            )
            &&& is_near(
                m.blue.r,
                213real / 1000real + (-(213real / 1000real)) * c + (-(787real / 1000real)) * s,
                26real,
            )
            &&& is_near(
                m.blue.g,
                715real / 1000real + (-(715real / 1000real)) * c + (715real / 1000real) * s,
                26real,
            )
            &&& is_near(
                m.blue.b,
                72real / 1000real + (928real / 1000real) * c + (72real / 1000real) * s,
                26real,
            )
        }),
{
    let (s, c) = (number(sin), number(cos));
    lemma_decimal(0x3d93_74bc, 72real / 1000real);
    lemma_decimal(0x3e0f_5c29, 140real / 1000real);
    lemma_decimal(0x3e12_6e98, 143real / 1000real);
    lemma_decimal(0x3e5a_1cac, 213real / 1000real);
    lemma_decimal(0x3e90_e560, 283real / 1000real);
    lemma_decimal(0x3e91_eb85, 285real / 1000real);
    lemma_decimal(0x3f37_0a3d, 715real / 1000real);
    lemma_decimal(0x3f49_78d5, 787real / 1000real);
    lemma_decimal(0x3f6d_9168, 928real / 1000real);
    lemma_negative(
        Binary32::from_bits(0x3d93_74bc),
        Binary32::from_bits(0xbd93_74bc),
        72real / 1000real,
    );
    lemma_negative(
        Binary32::from_bits(0x3e5a_1cac),
        Binary32::from_bits(0xbe5a_1cac),
        213real / 1000real,
    );
    lemma_negative(
        Binary32::from_bits(0x3e90_e560),
        Binary32::from_bits(0xbe90_e560),
        283real / 1000real,
    );
    lemma_negative(
        Binary32::from_bits(0x3f37_0a3d),
        Binary32::from_bits(0xbf37_0a3d),
        715real / 1000real,
    );
    lemma_negative(
        Binary32::from_bits(0x3f49_78d5),
        Binary32::from_bits(0xbf49_78d5),
        787real / 1000real,
    );
    lemma_turn_coefficient(
        Binary32::from_bits(0x3e5a_1cac),
        cos,
        Binary32::from_bits(0x3f49_78d5),
        sin,
        Binary32::from_bits(0xbe5a_1cac),
        213real / 1000real,
        c,
        787real / 1000real,
        s,
        -(213real / 1000real),
    );
    lemma_turn_coefficient(
        Binary32::from_bits(0x3f37_0a3d),
        cos,
        Binary32::from_bits(0xbf37_0a3d),
        sin,
        Binary32::from_bits(0xbf37_0a3d),
        715real / 1000real,
        c,
        -(715real / 1000real),
        s,
        -(715real / 1000real),
    );
    lemma_turn_coefficient(
        Binary32::from_bits(0x3d93_74bc),
        cos,
        Binary32::from_bits(0xbd93_74bc),
        sin,
        Binary32::from_bits(0x3f6d_9168),
        72real / 1000real,
        c,
        -(72real / 1000real),
        s,
        928real / 1000real,
    );
    lemma_turn_coefficient(
        Binary32::from_bits(0x3e5a_1cac),
        cos,
        Binary32::from_bits(0xbe5a_1cac),
        sin,
        Binary32::from_bits(0x3e12_6e98),
        213real / 1000real,
        c,
        -(213real / 1000real),
        s,
        143real / 1000real,
    );
    lemma_turn_coefficient(
        Binary32::from_bits(0x3f37_0a3d),
        cos,
        Binary32::from_bits(0x3e91_eb85),
        sin,
        Binary32::from_bits(0x3e0f_5c29),
        715real / 1000real,
        c,
        285real / 1000real,
        s,
        140real / 1000real,
    );
    lemma_turn_coefficient(
        Binary32::from_bits(0x3d93_74bc),
        cos,
        Binary32::from_bits(0xbd93_74bc),
        sin,
        Binary32::from_bits(0xbe90_e560),
        72real / 1000real,
        c,
        -(72real / 1000real),
        s,
        -(283real / 1000real),
    );
    lemma_turn_coefficient(
        Binary32::from_bits(0x3e5a_1cac),
        cos,
        Binary32::from_bits(0xbe5a_1cac),
        sin,
        Binary32::from_bits(0xbf49_78d5),
        213real / 1000real,
        c,
        -(213real / 1000real),
        s,
        -(787real / 1000real),
    );
    lemma_turn_coefficient(
        Binary32::from_bits(0x3f37_0a3d),
        cos,
        Binary32::from_bits(0xbf37_0a3d),
        sin,
        Binary32::from_bits(0x3f37_0a3d),
        715real / 1000real,
        c,
        -(715real / 1000real),
        s,
        715real / 1000real,
    );
    lemma_turn_coefficient(
        Binary32::from_bits(0x3d93_74bc),
        cos,
        Binary32::from_bits(0x3f6d_9168),
        sin,
        Binary32::from_bits(0x3d93_74bc),
        72real / 1000real,
        c,
        928real / 1000real,
        s,
        72real / 1000real,
    );
}

proof fn lemma_small_coefficient(w: real, p: real, q: real, c: real, s: real)
    requires
        size(w) <= 1real && size(p) <= 1real && size(q) <= 1real,
        size(c) <= 1real && size(s) <= 1real,
    ensures
        size(w + p * c + q * s) <= 3real,
{
    lemma_bounded_product(p, c, 1real);
    lemma_bounded_product(q, s, 1real);
    lemma_product_of_one(size(p));
    lemma_product_of_one(size(q));
}

proof fn lemma_hue_channel(
    row: Row,
    color: Color,
    w: (real, real, real),
    p: (real, real, real),
    q: (real, real, real),
    c: real,
    s: real,
    want: real,
    k: real,
)
    requires
        is_unit_color(color),
        1real <= k <= 65536real,
        size(c) <= 1real && size(s) <= 1real,
        size(w.0) <= 1real && size(w.1) <= 1real && size(w.2) <= 1real,
        size(p.0) <= 1real && size(p.1) <= 1real && size(p.2) <= 1real,
        size(q.0) <= 1real && size(q.1) <= 1real && size(q.2) <= 1real,
        is_near(row.r, w.0 + p.0 * c + q.0 * s, 26real),
        is_near(row.g, w.1 + p.1 * c + q.1 * s, 26real),
        is_near(row.b, w.2 + p.2 * c + q.2 * s, 26real),
        row.a == Binary32::zero(),
        row.offset == Binary32::zero(),
        ({
            let v = vector(color);
            want == tone(v, w.0, w.1, w.2) + c * tone(v, p.0, p.1, p.2) + s * tone(
                v,
                q.0,
                q.1,
                q.2,
            )
        }),
    ensures
        is_channel(row, color, want, k),
{
    let v = vector(color);
    let zero = Binary32::zero();
    lemma_number(zero);
    Binary32::lemma_constants(zero);
    lemma_small_coefficient(w.0, p.0, q.0, c, s);
    lemma_small_coefficient(w.1, p.1, q.1, c, s);
    lemma_small_coefficient(w.2, p.2, q.2, c, s);
    lemma_row_is_near(
        row,
        color,
        w.0 + p.0 * c + q.0 * s,
        w.1 + p.1 * c + q.1 * s,
        w.2 + p.2 * c + q.2 * s,
        0real,
        k,
    );
    lemma_clamped_is_finite(row.combine(color));
    lemma_turned_term(w.0, p.0, q.0, c, s, v.r);
    lemma_turned_term(w.1, p.1, q.1, c, s, v.g);
    lemma_turned_term(w.2, p.2, q.2, c, s, v.b);
    lemma_scaled_tone(c, v, p.0, p.1, p.2);
    lemma_scaled_tone(s, v, q.0, q.1, q.2);
}

proof fn lemma_less_red(v: Vector)
    ensures
        tone(v, -(787real / 1000real), 715real / 1000real, 72real / 1000real) == luminance(v) - v.r,
{
    let x = v.r;
    lemma_common_factor(213real / 1000real, 1real, x);
    lemma_product_of_one(x);
    assert(213real / 1000real - 1real == -(787real / 1000real));
}

proof fn lemma_hue_rotate(sin: Binary32, cos: Binary32, color: Color, k: real)
    requires
        has_amount(Filter::HueRotate(sin, cos), k),
        1real <= k <= 65536real,
        is_unit_color(color),
    ensures
        is_filtered_ideally(Filter::HueRotate(sin, cos), color, k),
{
    let m = ColorMatrix::hue_rotate(sin, cos);
    let v = vector(color);
    let (s, c) = (number(sin), number(cos));
    let l = luminance(v);
    let want = ideal(Filter::HueRotate(sin, cos), v);
    lemma_hue_coefficients(sin, cos);
    let w = (213real / 1000real, 715real / 1000real, 72real / 1000real);
    let (pr, qr) = (
        (787real / 1000real, -(715real / 1000real), -(72real / 1000real)),
        (-(213real / 1000real), -(715real / 1000real), 928real / 1000real),
    );
    let (pg, qg) = (
        (-(213real / 1000real), 285real / 1000real, -(72real / 1000real)),
        (143real / 1000real, 140real / 1000real, -(283real / 1000real)),
    );
    let (pb, qb) = (
        (-(213real / 1000real), -(715real / 1000real), 928real / 1000real),
        (-(787real / 1000real), 715real / 1000real, 72real / 1000real),
    );
    // Along the axis a channel less the luminance, across it what is turned into it.
    assert(tone(v, pr.0, pr.1, pr.2) == v.r - l);
    assert(tone(v, pg.0, pg.1, pg.2) == v.g - l);
    assert(tone(v, pb.0, pb.1, pb.2) == v.b - l);
    assert(tone(v, qr.0, qr.1, qr.2) == v.b - l);
    lemma_less_red(v);
    lemma_hue_channel(m.red, color, w, pr, qr, c, s, want.r, k);
    lemma_hue_channel(m.green, color, w, pg, qg, c, s, want.g, k);
    lemma_hue_channel(m.blue, color, w, pb, qb, c, s, want.b, k);
}

/// Each of the seven filter functions makes of every colour what CSS defines it to make, whatever
/// its amount: every channel comes out where [`ideal`] puts it, clamped to `[0, 1]`, up to so many
/// parts in `2^24` of the amount, and alpha comes out as it went in.
pub proof fn law_filter_functions_do_what_they_are_defined_to(
    filter: Filter,
    color: Color,
    k: real,
)
    requires
        has_amount(filter, k),
        0real <= k <= 65536real,
        is_unit_color(color),
    ensures
        filter.matrix() is Some,
        ({
            let m = filter.matrix()->0;
            let after = m.apply(color);
            let want = ideal(filter, vector(color));
            &&& is_near(after.r, clamped_to(want.r, 1real), 200real * (k + 1real))
            &&& is_near(after.g, clamped_to(want.g, 1real), 200real * (k + 1real))
            &&& is_near(after.b, clamped_to(want.b, 1real), 200real * (k + 1real))
            &&& after.a.value() == color.a.value()
            &&& is_near(m.red.combine(color), want.r, 200real * (k + 1real))
            &&& is_near(m.green.combine(color), want.g, 200real * (k + 1real))
            &&& is_near(m.blue.combine(color), want.b, 200real * (k + 1real))
        }),
{
    match filter {
        Filter::Brightness(amount) => lemma_brightness(amount, color, k),
        Filter::Contrast(amount) => lemma_contrast(amount, color, k),
        Filter::Invert(amount) => lemma_invert(amount, color, k),
        Filter::Saturate(amount) => lemma_saturate(amount, color, k),
        Filter::Grayscale(amount) => lemma_grayscale(amount, color, k),
        Filter::Sepia(amount) => lemma_sepia(amount, color, k),
        Filter::HueRotate(sin, cos) => lemma_hue_rotate(sin, cos, color, k),
        _ => {},
    }
    let m = filter.matrix()->0;
    let (zero, one) = (Binary32::zero(), Binary32::one());
    Binary32::lemma_constants(zero);
    assert(m.alpha == (Row { r: zero, g: zero, b: zero, a: one, offset: zero }));
    crate::laws::gradients::lemma_alpha_row(m, color);
}

/// `saturate()` scales every difference of two channels by its amount, before anything is clamped,
/// however large the amount is; and a grey keeps its value.
pub proof fn law_saturating_scales_differences(amount: Binary32, color: Color, k: real)
    requires
        amount.finite(),
        size(number(amount)) <= k,
        0real <= k <= 65536real,
        is_unit_color(color),
    ensures
        ({
            let m = ColorMatrix::saturate(amount);
            let v = vector(color);
            let (r, g, b) = (
                number(m.red.combine(color)),
                number(m.green.combine(color)),
                number(m.blue.combine(color)),
            );
            let a = number(amount);
            let e = 400real * (k + 1real);
            &&& 16777215real * size((r - g) - a * (v.r - v.g)) <= e
            &&& 16777215real * size((g - b) - a * (v.g - v.b)) <= e
            &&& 16777215real * size((b - r) - a * (v.b - v.r)) <= e
            &&& v.r == v.g && v.g == v.b ==> {
                &&& 16777215real * size(r - v.r) <= e
                &&& 16777215real * size(g - v.g) <= e
                &&& 16777215real * size(b - v.b) <= e
            }
        }),
{
    let filter = Filter::Saturate(amount);
    let v = vector(color);
    let (a, l) = (number(amount), luminance(v));
    law_filter_functions_do_what_they_are_defined_to(filter, color, k);
    lemma_distributes_difference(a, v.r, l);
    lemma_distributes_difference(a, v.g, l);
    lemma_distributes_difference(a, v.b, l);
    lemma_distributes_difference(a, v.r, v.g);
    lemma_distributes_difference(a, v.g, v.b);
    lemma_distributes_difference(a, v.b, v.r);
    if v.r == v.g && v.g == v.b {
        assert(l == v.r);
        assert(a * (v.r - l) == 0real) by {
            lemma_product_of_zero(a);
        }
    }
}

/// Amounts past the ends of `[0, 1]` are the ends, for the three functions that take a share:
/// `invert()`, `grayscale()` and `sepia()` of more than one are those of one, and of less than zero
/// those of zero.
pub proof fn law_shares_are_clamped(amount: Binary32)
    requires
        amount.finite(),
    ensures
        ({
            let (zero, one) = (Binary32::zero(), Binary32::one());
            &&& number(amount) > 1real ==> {
                &&& ColorMatrix::invert(amount) == ColorMatrix::invert(one)
                &&& ColorMatrix::grayscale(amount) == ColorMatrix::grayscale(one)
                &&& ColorMatrix::sepia(amount) == ColorMatrix::sepia(one)
            }
            &&& number(amount) < 0real ==> {
                &&& ColorMatrix::invert(amount) == ColorMatrix::invert(zero)
                &&& ColorMatrix::grayscale(amount) == ColorMatrix::grayscale(zero)
                &&& ColorMatrix::sepia(amount) == ColorMatrix::sepia(zero)
            }
        }),
{
    let (zero, one) = (Binary32::zero(), Binary32::one());
    Binary32::lemma_constants(amount);
    lemma_number(amount);
    lemma_number_order(amount, one);
    if number(amount) > 1real {
        assert(crate::color_matrix::clamp_unit(amount) == one);
        assert(crate::color_matrix::clamp_unit(one) == one);
    }
    if number(amount) < 0real {
        assert(crate::color_matrix::clamp_unit(amount) == zero);
        assert(crate::color_matrix::clamp_unit(zero) == zero);
    }
}

} // verus!
