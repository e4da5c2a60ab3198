//! Filtering in exact arithmetic: the numbers that the library's patterns stand for, what a
//! matrix makes of them, and laws that hold before anything is rounded.

use crate::color::Color;
use crate::color_matrix::{ColorMatrix, Row};
use crate::ieee::Binary32;
use crate::laws::reals::{
    lemma_cancels, lemma_commutes, lemma_distributes, lemma_distributes_difference,
    lemma_moved_factor, lemma_opposite_factor, lemma_product_of_one, lemma_product_of_zero,
    lemma_product_sign, lemma_quotient, lemma_regrouped,
};
use crate::ramp::clamp_vector;
use vstd::prelude::*;

verus! {

/// The number that a pattern stands for.
pub open spec fn number(x: Binary32) -> real {
    x.value() as real / Binary32::unit() as real
}

/// A colour or a premultiplied vector, in exact numbers.
pub struct Vector {
    pub r: real,
    pub g: real,
    pub b: real,
    pub a: real,
}

/// The numbers of a colour.
pub open spec fn vector(color: Color) -> Vector {
    Vector {
        r: number(color.r),
        g: number(color.g),
        b: number(color.b),
        a: number(color.a),
    }
}

/// The number at `t` of the way between two numbers.
pub open spec fn blend(a: real, b: real, t: real) -> real {
    a + t * (b - a)
}

/// The vector at `t` of the way between two vectors.
pub open spec fn blended(v: Vector, w: Vector, t: real) -> Vector {
    Vector {
        r: blend(v.r, w.r, t),
        g: blend(v.g, w.g, t),
        b: blend(v.b, w.b, t),
        a: blend(v.a, w.a, t),
    }
}

/// The channel that a row gives for a vector.
pub open spec fn row_sum(row: Row, v: Vector, premultiplied: bool) -> real {
    let linear = number(row.r) * v.r + number(row.g) * v.g + number(row.b) * v.b;
    if premultiplied {
        linear + number(row.offset) * v.a
    } else {
        linear + number(row.a) * v.a + number(row.offset)
    }
}

/// What a matrix makes of a vector. Alpha is kept.
pub open spec fn transformed(matrix: ColorMatrix, v: Vector, premultiplied: bool) -> Vector {
    Vector {
        r: row_sum(matrix.red, v, premultiplied),
        g: row_sum(matrix.green, v, premultiplied),
        b: row_sum(matrix.blue, v, premultiplied),
        a: v.a,
    }
}

/// A number moved between zero and a bound.
pub open spec fn clamped_to(x: real, upper: real) -> real {
    if x < 0real {
        0real
    } else if x > upper {
        upper
    } else {
        x
    }
}

/// The bound of a channel: one, or alpha where the vector is premultiplied.
pub open spec fn upper_bound(v: Vector, premultiplied: bool) -> real {
    if premultiplied {
        v.a
    } else {
        1real
    }
}

/// A vector with its channels clamped.
pub open spec fn clamped(v: Vector, premultiplied: bool) -> Vector {
    let upper = upper_bound(v, premultiplied);
    Vector {
        r: clamped_to(v.r, upper),
        g: clamped_to(v.g, upper),
        b: clamped_to(v.b, upper),
        a: v.a,
    }
}

/// What the filter with one matrix makes of the vector of a pixel.
pub open spec fn filtered_by(matrix: ColorMatrix, v: Vector, premultiplied: bool) -> Vector {
    clamped(transformed(matrix, v, premultiplied), premultiplied)
}

/// What the filters with the first `n` matrices make of the vector of a pixel.
pub open spec fn filtered_by_all(
    matrices: Seq<ColorMatrix>,
    v: Vector,
    premultiplied: bool,
    n: nat,
) -> Vector
    decreases n,
{
    if n == 0 {
        v
    } else {
        filtered_by(
            matrices[n - 1],
            filtered_by_all(matrices, v, premultiplied, (n - 1) as nat),
            premultiplied,
        )
    }
}

/// A colour with its channels multiplied by its alpha.
pub open spec fn scaled_by_alpha(v: Vector) -> Vector {
    Vector { r: v.r * v.a, g: v.g * v.a, b: v.b * v.a, a: v.a }
}

/// A row that takes nothing from alpha gives for a premultiplied vector the alpha times what it
/// gives for the colour.
pub proof fn law_premultiplied_sums_are_scaled_sums(row: Row, v: Vector)
    requires
        row.a.equals(Binary32::zero()),
    ensures
        row_sum(row, scaled_by_alpha(v), true) == v.a * row_sum(row, v, false),
{
    Binary32::lemma_constants(row.a);
    lemma_number(row.a);
    let (r, g, b, o) = (number(row.r), number(row.g), number(row.b), number(row.offset));
    let a = v.a;
    assert(number(row.a) == 0real);
    lemma_product_of_zero(a);
    lemma_moved_factor(r, v.r, a);
    lemma_moved_factor(g, v.g, a);
    lemma_moved_factor(b, v.b, a);
    lemma_commutes(o, a);
    lemma_distributes(a, r * v.r, g * v.g);
    lemma_distributes(a, r * v.r + g * v.g, b * v.b);
    lemma_distributes(a, r * v.r + g * v.g + b * v.b, o);
}

/// Filtering premultiplied vectors is filtering colours: a chain of matrices that take nothing
/// from alpha makes of a colour scaled by its alpha the filtered colour, scaled by its alpha.
pub proof fn law_premultiplied_vectors_are_filtered_as_colors(
    matrices: Seq<ColorMatrix>,
    v: Vector,
    n: nat,
)
    requires
        n <= matrices.len(),
        forall|i: int| 0 <= i < n ==> (#[trigger] matrices[i]).has_no_alpha_column(),
        v.a >= 0real,
    ensures
        filtered_by_all(matrices, scaled_by_alpha(v), true, n) == scaled_by_alpha(
            filtered_by_all(matrices, v, false, n),
        ),
        filtered_by_all(matrices, v, false, n).a == v.a,
    decreases n,
{
    if n > 0 {
        let k = (n - 1) as nat;
        law_premultiplied_vectors_are_filtered_as_colors(matrices, v, k);
        let w = filtered_by_all(matrices, v, false, k);
        let m = matrices[k as int];
        assert(m.has_no_alpha_column());
        law_premultiplied_sums_are_scaled_sums(m.red, w);
        law_premultiplied_sums_are_scaled_sums(m.green, w);
        law_premultiplied_sums_are_scaled_sums(m.blue, w);
        lemma_scaled_clamp(row_sum(m.red, w, false), w.a);
        lemma_scaled_clamp(row_sum(m.green, w, false), w.a);
        lemma_scaled_clamp(row_sum(m.blue, w, false), w.a);
    }
}

proof fn lemma_scaled_clamp(x: real, a: real)
    requires
        a >= 0real,
    ensures
        clamped_to(a * x, a) == clamped_to(x, 1real) * a,
{
    lemma_commutes(x, a);
    lemma_product_of_zero(a);
    lemma_product_of_one(a);
    if x < 0real {
        lemma_product_sign(a, -x);
        lemma_opposite_factor(a, x);
    } else if x > 1real {
        lemma_product_sign(a, x - 1real);
        lemma_distributes_difference(a, x, 1real);
        lemma_commutes(a, 1real);
    } else {
        lemma_product_sign(a, x);
        lemma_product_sign(a, 1real - x);
        lemma_distributes_difference(a, 1real, x);
        lemma_commutes(a, 1real);
    }
}

/// What a number is.
pub proof fn lemma_number(x: Binary32)
    ensures
        Binary32::unit() > 0,
        number(x) * (Binary32::unit() as real) == x.value() as real,
        x.value() == 0 <==> number(x) == 0real,
        x.value() > 0 <==> number(x) > 0real,
        x.value() < 0 <==> number(x) < 0real,
        number(Binary32::zero()) == 0real,
        number(Binary32::one()) == 1real,
{
    Binary32::lemma_constants(x);
    let u = Binary32::unit() as real;
    let v = x.value() as real;
    lemma_quotient(v, u);
    lemma_quotient(u, u);
    lemma_quotient(0real, u);
    lemma_product_of_zero(u);
    lemma_product_of_one(u);
    lemma_cancels(v / u, 0real, u);
    lemma_cancels(0real, v / u, u);
    lemma_cancels(u / u, 1real, u);
    lemma_cancels(0real / u, 0real, u);
}

/// Numbers compare as their units do.
pub proof fn lemma_number_order(x: Binary32, y: Binary32)
    ensures
        x.value() <= y.value() <==> number(x) <= number(y),
{
    lemma_number(x);
    lemma_number(y);
    lemma_cancels(number(y), number(x), Binary32::unit() as real);
}

/// Clamping a vector of finite numbers is exact.
pub proof fn lemma_clamp_is_exact(q: Color, premultiplied: bool)
    requires
        q.finite(),
        premultiplied ==> q.a.value() >= 0,
    ensures
        vector(clamp_vector(q, premultiplied)) == clamped(vector(q), premultiplied),
{
    let upper = crate::ramp::channel_bound(q, premultiplied);
    lemma_number(upper);
    lemma_channel_clamp(q.r, upper);
    lemma_channel_clamp(q.g, upper);
    lemma_channel_clamp(q.b, upper);
}

/// Clamping a finite number is exact.
pub proof fn lemma_channel_clamp(x: Binary32, upper: Binary32)
    requires
        x.finite(),
        upper.finite(),
        upper.value() >= 0,
    ensures
        number(x.clamp(Binary32::zero(), upper)) == clamped_to(number(x), number(upper)),
{
    Binary32::lemma_constants(x);
    lemma_number(x);
    lemma_number_order(x, upper);
    lemma_number_order(upper, x);
}

/// Blending twice between the same ends is blending once.
pub proof fn lemma_blend_twice(a: real, b: real, s0: real, s1: real, t: real)
    ensures
        blend(blend(a, b, s0), blend(a, b, s1), t) == blend(a, b, blend(s0, s1, t)),
{
    let d = b - a;
    let e = s1 - s0;
    lemma_commutes(s0, d);
    lemma_commutes(s1, d);
    lemma_distributes_difference(d, s1, s0);
    assert(blend(a, b, s1) - blend(a, b, s0) == d * e);
    lemma_distributes(d, s0, t * e);
    lemma_commutes(s0 + t * e, d);
    lemma_regrouped(d, t, e);
    assert(t * (d * e) == d * (t * e));
}

/// What is blended lies between the ends.
pub proof fn lemma_blend_between(a: real, b: real, t: real)
    requires
        a <= b,
        0real <= t <= 1real,
    ensures
        a <= blend(a, b, t) <= b,
{
    lemma_product_sign(t, b - a);
    lemma_product_sign(1real - t, b - a);
    lemma_commutes(1real - t, b - a);
    lemma_commutes(t, b - a);
    lemma_distributes_difference(b - a, 1real, t);
    lemma_product_of_one(b - a);
}

proof fn lemma_row_blends(row: Row, v: Vector, w: Vector, t: real, premultiplied: bool)
    ensures
        row_sum(row, blended(v, w, t), premultiplied) == blend(
            row_sum(row, v, premultiplied),
            row_sum(row, w, premultiplied),
            t,
        ),
{
    let (r, g, b, a, o) = (
        number(row.r),
        number(row.g),
        number(row.b),
        number(row.a),
        number(row.offset),
    );
    lemma_scaled_blend(r, v.r, w.r, t);
    lemma_scaled_blend(g, v.g, w.g, t);
    lemma_scaled_blend(b, v.b, w.b, t);
    lemma_scaled_blend(a, v.a, w.a, t);
    lemma_scaled_blend(o, v.a, w.a, t);
    lemma_blend_sum(r * v.r, r * w.r, g * v.g, g * w.g, t);
    lemma_blend_sum(r * v.r + g * v.g, r * w.r + g * w.g, b * v.b, b * w.b, t);
    let (x, y) = (r * v.r + g * v.g + b * v.b, r * w.r + g * w.g + b * w.b);
    lemma_blend_sum(x, y, a * v.a, a * w.a, t);
    lemma_blend_sum(x, y, o * v.a, o * w.a, t);
    lemma_blend_sum(x + a * v.a, y + a * w.a, o, o, t);
    lemma_product_of_zero(t);
    assert(o - o == 0real);
}

proof fn lemma_scaled_blend(k: real, a: real, b: real, t: real)
    ensures
        k * blend(a, b, t) == blend(k * a, k * b, t),
{
    lemma_distributes(k, a, t * (b - a));
    lemma_regrouped(t, k, b - a);
    lemma_distributes_difference(k, b, a);
}

/// Blending sums is summing blends.
pub proof fn lemma_blend_sum(a: real, b: real, c: real, d: real, t: real)
    ensures
        blend(a, b, t) + blend(c, d, t) == blend(a + c, b + d, t),
{
    lemma_distributes(t, b - a, d - c);
    assert((b - a) + (d - c) == (b + d) - (a + c));
}

/// A matrix is an affine map: it commutes with interpolation.
pub proof fn law_transforming_commutes_with_interpolation(
    matrix: ColorMatrix,
    v: Vector,
    w: Vector,
    t: real,
    premultiplied: bool,
)
    ensures
        transformed(matrix, blended(v, w, t), premultiplied) == blended(
            transformed(matrix, v, premultiplied),
            transformed(matrix, w, premultiplied),
            t,
        ),
{
    lemma_row_blends(matrix.red, v, w, t, premultiplied);
    lemma_row_blends(matrix.green, v, w, t, premultiplied);
    lemma_row_blends(matrix.blue, v, w, t, premultiplied);
}

/// Whether a value that goes from `a` to `b` passes through zero.
pub open spec fn changes_sign(a: real, b: real) -> bool {
    (a < 0real && 0real < b) || (b < 0real && 0real < a)
}

/// A channel that passes through neither of its bounds can be clamped before or after it is
/// interpolated.
pub proof fn lemma_clamping_blends(q0: real, q1: real, u0: real, u1: real, t: real)
    requires
        0real <= u0,
        0real <= u1,
        0real <= t <= 1real,
        !changes_sign(q0, q1),
        !changes_sign(q0 - u0, q1 - u1),
    ensures
        clamped_to(blend(q0, q1, t), blend(u0, u1, t)) == blend(
            clamped_to(q0, u0),
            clamped_to(q1, u1),
            t,
        ),
{
    lemma_blend_sign(q0, q1, t);
    lemma_blend_sign(u0, u1, t);
    lemma_blend_sign(q0 - u0, q1 - u1, t);
    lemma_blend_sum(q0 - u0, q1 - u1, u0, u1, t);
    lemma_product_of_zero(t);
    assert(0real - 0real == 0real);
}

proof fn lemma_blend_sign(a: real, b: real, t: real)
    requires
        0real <= t <= 1real,
    ensures
        a >= 0real && b >= 0real ==> blend(a, b, t) >= 0real,
        a <= 0real && b <= 0real ==> blend(a, b, t) <= 0real,
{
    let u = 1real - t;
    lemma_distributes_difference(t, b, a);
    lemma_commutes(u, a);
    lemma_commutes(t, a);
    lemma_distributes_difference(a, 1real, t);
    lemma_product_of_one(a);
    assert(blend(a, b, t) == u * a + t * b);
    lemma_opposite_factor(u, a);
    lemma_opposite_factor(t, b);
    if a >= 0real && b >= 0real {
        lemma_product_sign(u, a);
        lemma_product_sign(t, b);
    }
    if a <= 0real && b <= 0real {
        lemma_product_sign(u, -a);
        lemma_product_sign(t, -b);
    }
}

/// What passes through zero on a part of the way does so on the whole way, and at its root.
pub proof fn lemma_root(fa: real, fb: real, s0: real, s1: real, s: real)
    requires
        0real <= s0 <= s1 <= 1real,
        changes_sign(blend(fa, fb, s0), blend(fa, fb, s1)),
    ensures
        changes_sign(fa, fb),
        s * (fa - fb) == fa ==> s0 < s < s1,
{
    let d = fb - fa;
    let (f0, f1) = (blend(fa, fb, s0), blend(fa, fb, s1));
    if f1 > f0 {
        lemma_rising_root(fa, fb, s0, s1, s);
    } else {
        lemma_blend_opposite(fa, fb, s0);
        lemma_blend_opposite(fa, fb, s1);
        lemma_opposite_factor(s, fa - fb);
        assert(-(fa - fb) == (-fa) - (-fb));
        lemma_rising_root(-fa, -fb, s0, s1, s);
    }
}

proof fn lemma_blend_opposite(a: real, b: real, t: real)
    ensures
        blend(-a, -b, t) == -blend(a, b, t),
{
    lemma_opposite_factor(t, b - a);
    assert(-(b - a) == (-b) - (-a));
}

proof fn lemma_rising_root(fa: real, fb: real, s0: real, s1: real, s: real)
    requires
        0real <= s0 <= s1 <= 1real,
        blend(fa, fb, s0) < 0real,
        blend(fa, fb, s1) > 0real,
    ensures
        fa < 0real,
        fb > 0real,
        s * (fa - fb) == fa ==> s0 < s < s1,
{
    let d = fb - fa;
    lemma_commutes(s0, d);
    lemma_commutes(s1, d);
    lemma_distributes_difference(d, s1, s0);
    if d <= 0real {
        lemma_product_sign(-d, s1 - s0);
        lemma_commutes(-d, s1 - s0);
        lemma_opposite_factor(s1 - s0, d);
        lemma_commutes(s1 - s0, d);
    }
    assert(d > 0real);
    lemma_product_sign(d, s0);
    lemma_product_sign(d, 1real - s1);
    lemma_distributes_difference(d, 1real, s1);
    lemma_product_of_one(d);
    if s * (fa - fb) == fa {
        lemma_opposite_factor(s, d);
        assert(-d == fa - fb);
        assert(s * d == -fa);
        lemma_cancels(s0, s, d);
        lemma_cancels(s, s1, d);
    }
}

} // verus!
