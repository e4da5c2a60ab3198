//! How far an error goes: what filtering, clamping and interpolating make of vectors that are
//! close to each other.

use crate::color_matrix::{ColorMatrix, Row};
use crate::laws::exact::{
    blend, blended, changes_sign, clamped, clamped_to, filtered_by, lemma_blend_between, number,
    row_sum, transformed, upper_bound, Vector,
};
use crate::laws::reals::{
    lemma_bounded_product, lemma_common_factor, lemma_commutes, lemma_distributes_difference,
    lemma_ordered_products, lemma_product_of_one, lemma_product_of_zero, lemma_product_sign, size,
};
use vstd::prelude::*;

verus! {

/// Whether no component of a vector is further than `e` from that of another.
pub open spec fn is_close(v: Vector, w: Vector, e: real) -> bool {
    &&& size(v.r - w.r) <= e
    &&& size(v.g - w.g) <= e
    &&& size(v.b - w.b) <= e
    &&& size(v.a - w.a) <= e
}

/// Whether the coefficients of a row are finite and come to no more than `k`.
pub open spec fn is_row_within(row: Row, k: real) -> bool {
    &&& row.r.finite() && row.g.finite() && row.b.finite() && row.a.finite()
    &&& row.offset.finite()
    &&& size(number(row.r)) + size(number(row.g)) + size(number(row.b)) + size(number(row.a))
        + size(number(row.offset)) <= k
}

/// Whether the coefficients of each colour row of a matrix come to no more than `k`.
pub open spec fn is_matrix_within(matrix: ColorMatrix, k: real) -> bool {
    &&& is_row_within(matrix.red, k)
    &&& is_row_within(matrix.green, k)
    &&& is_row_within(matrix.blue, k)
}

/// Close vectors have close row sums.
pub proof fn lemma_close_sums(row: Row, v: Vector, w: Vector, premultiplied: bool, k: real, e: real)
    requires
        is_row_within(row, k),
        is_close(v, w, e),
    ensures
        size(row_sum(row, v, premultiplied) - row_sum(row, w, premultiplied)) <= k * e,
{
    let (r, g, b, a, o) = (
        number(row.r),
        number(row.g),
        number(row.b),
        number(row.a),
        number(row.offset),
    );
    lemma_distributes_difference(r, v.r, w.r);
    lemma_distributes_difference(g, v.g, w.g);
    lemma_distributes_difference(b, v.b, w.b);
    lemma_distributes_difference(a, v.a, w.a);
    lemma_distributes_difference(o, v.a, w.a);
    lemma_bounded_product(r, v.r - w.r, e);
    lemma_bounded_product(g, v.g - w.g, e);
    lemma_bounded_product(b, v.b - w.b, e);
    lemma_bounded_product(a, v.a - w.a, e);
    lemma_bounded_product(o, v.a - w.a, e);
    lemma_common_factor(size(r), size(g), e);
    lemma_common_factor(size(r) + size(g), size(b), e);
    let s = size(r) + size(g) + size(b);
    lemma_common_factor(s, size(a), e);
    lemma_common_factor(s, size(o), e);
    lemma_ordered_products(e, s + size(a), k);
    lemma_ordered_products(e, s + size(o), k);
    lemma_commutes(e, k);
    lemma_commutes(e, s + size(a));
    lemma_commutes(e, s + size(o));
}

/// Close numbers with close bounds have close clamped numbers.
pub proof fn lemma_close_clamps(x: real, y: real, u: real, w: real, e: real)
    requires
        size(x - y) <= e,
        size(u - w) <= e,
        0real <= u,
        0real <= w,
    ensures
        size(clamped_to(x, u) - clamped_to(y, w)) <= e,
{
}

/// Close vectors have close clamped vectors.
pub proof fn lemma_close_clamped(v: Vector, w: Vector, premultiplied: bool, e: real)
    requires
        is_close(v, w, e),
        premultiplied ==> 0real <= v.a && 0real <= w.a,
    ensures
        is_close(clamped(v, premultiplied), clamped(w, premultiplied), e),
{
    let (p, q) = (upper_bound(v, premultiplied), upper_bound(w, premultiplied));
    lemma_close_clamps(v.r, w.r, p, q, e);
    lemma_close_clamps(v.g, w.g, p, q, e);
    lemma_close_clamps(v.b, w.b, p, q, e);
}

/// Filtering takes vectors that are close to ones that are at most `k` times as far apart.
pub proof fn lemma_close_filtered(
    matrix: ColorMatrix,
    v: Vector,
    w: Vector,
    premultiplied: bool,
    k: real,
    e: real,
)
    requires
        is_matrix_within(matrix, k),
        k >= 1real,
        e >= 0real,
        is_close(v, w, e),
        premultiplied ==> 0real <= v.a && 0real <= w.a,
    ensures
        is_close(
            filtered_by(matrix, v, premultiplied),
            filtered_by(matrix, w, premultiplied),
            k * e,
        ),
{
    lemma_close_sums(matrix.red, v, w, premultiplied, k, e);
    lemma_close_sums(matrix.green, v, w, premultiplied, k, e);
    lemma_close_sums(matrix.blue, v, w, premultiplied, k, e);
    lemma_ordered_products(e, 1real, k);
    lemma_commutes(e, k);
    lemma_product_of_one(e);
    lemma_close_clamped(
        transformed(matrix, v, premultiplied),
        transformed(matrix, w, premultiplied),
        premultiplied,
        k * e,
    );
}

/// Close numbers have close blends.
pub proof fn lemma_close_blends(a: real, b: real, c: real, d: real, t: real, e: real)
    requires
        size(a - c) <= e,
        size(b - d) <= e,
        0real <= t <= 1real,
    ensures
        size(blend(a, b, t) - blend(c, d, t)) <= e,
{
    crate::laws::exact::lemma_blend_sum(a - c, b - d, c, d, t);
    let (x, y) = (a - c, b - d);
    assert(blend(a, b, t) - blend(c, d, t) == blend(x, y, t));
    if x <= y {
        lemma_blend_between(x, y, t);
    } else {
        lemma_blend_reversed(x, y, t);
        lemma_blend_between(y, x, 1real - t);
    }
}

/// Blending the other way round.
pub proof fn lemma_blend_reversed(a: real, b: real, t: real)
    ensures
        blend(a, b, t) == blend(b, a, 1real - t),
{
    lemma_distributes_difference(t, b, a);
    lemma_common_factor(1real, t, a - b);
    lemma_distributes_difference(t, a, b);
    lemma_product_of_one(a - b);
}

/// Close vectors have close blends.
pub proof fn lemma_close_blended(
    v0: Vector,
    v1: Vector,
    w0: Vector,
    w1: Vector,
    t: real,
    e: real,
)
    requires
        is_close(v0, w0, e),
        is_close(v1, w1, e),
        0real <= t <= 1real,
    ensures
        is_close(blended(v0, v1, t), blended(w0, w1, t), e),
{
    lemma_close_blends(v0.r, v1.r, w0.r, w1.r, t, e);
    lemma_close_blends(v0.g, v1.g, w0.g, w1.g, t, e);
    lemma_close_blends(v0.b, v1.b, w0.b, w1.b, t, e);
    lemma_close_blends(v0.a, v1.a, w0.a, w1.a, t, e);
}

/// What is close to something close is close.
pub proof fn lemma_close_chain(u: Vector, v: Vector, w: Vector, d: real, e: real)
    requires
        is_close(u, v, d),
        is_close(v, w, e),
    ensures
        is_close(u, w, d + e),
        is_close(w, u, d + e),
{
}

/// A number with what is below zero taken away.
pub open spec fn raised(x: real) -> real {
    if x < 0real {
        0real
    } else {
        x
    }
}

/// Whether a value that passes through zero does so within `e` of one of its ends.
pub open spec fn is_near_an_end(a: real, b: real, e: real) -> bool {
    changes_sign(a, b) ==> size(a) <= e || size(b) <= e
}

/// A value that passes through zero near an end can be raised before or after it is blended, up to
/// what it is off there.
pub proof fn lemma_raised_blends(a: real, b: real, t: real, e: real)
    requires
        is_near_an_end(a, b, e),
        0real <= t <= 1real,
        e >= 0real,
    ensures
        0real <= blend(raised(a), raised(b), t) - raised(blend(a, b, t)) <= e,
{
    if a < 0real && b > 0real {
        lemma_raised_from(a, b, t, e);
    } else if b < 0real && a > 0real {
        lemma_blend_reversed(a, b, t);
        lemma_blend_reversed(raised(a), raised(b), t);
        lemma_raised_from(b, a, 1real - t, e);
    } else if a >= 0real && b >= 0real {
        if a <= b {
            lemma_blend_between(a, b, t);
        } else {
            lemma_blend_reversed(a, b, t);
            lemma_blend_between(b, a, 1real - t);
        }
    } else {
        if a <= b {
            lemma_blend_between(a, b, t);
        } else {
            lemma_blend_reversed(a, b, t);
            lemma_blend_between(b, a, 1real - t);
        }
        lemma_product_of_zero(t);
        assert(0real - 0real == 0real);
    }
}

proof fn lemma_raised_from(a: real, b: real, t: real, e: real)
    requires
        a < 0real,
        b > 0real,
        -a <= e || b <= e,
        0real <= t <= 1real,
    ensures
        0real <= blend(0real, b, t) - raised(blend(a, b, t)) <= e,
{
    // The two are `t * b` and `t * b + (1 - t) * a`.
    lemma_distributes_difference(t, b, a);
    lemma_distributes_difference(t, b, 0real);
    lemma_product_of_zero(t);
    lemma_common_factor(1real, t, a);
    lemma_product_of_one(a);
    let (x, y) = (t * b, (1real - t) * a);
    assert(blend(a, b, t) == x + y);
    assert(blend(0real, b, t) == x);
    lemma_product_sign(t, b);
    lemma_product_sign(1real - t, -a);
    crate::laws::reals::lemma_opposite_factor(1real - t, a);
    lemma_ordered_products(-a, 1real - t, 1real);
    lemma_commutes(-a, 1real - t);
    lemma_product_of_one(-a);
    lemma_ordered_products(b, t, 1real);
    lemma_commutes(b, t);
    lemma_product_of_one(b);
}

/// A channel that passes through its bounds only near the ends can be clamped before or after it
/// is blended, up to twice what it is off there.
pub proof fn lemma_near_clamps_blend(q0: real, q1: real, u0: real, u1: real, t: real, e: real)
    requires
        0real <= u0,
        0real <= u1,
        0real <= t <= 1real,
        e >= 0real,
        is_near_an_end(q0, q1, e),
        is_near_an_end(q0 - u0, q1 - u1, e),
    ensures
        size(
            clamped_to(blend(q0, q1, t), blend(u0, u1, t)) - blend(
                clamped_to(q0, u0),
                clamped_to(q1, u1),
                t,
            ),
        ) <= 2real * e,
{
    let (g0, g1) = (raised(q0), raised(q1));
    lemma_raised_blends(q0, q1, t, e);
    assert(is_near_an_end(g0 - u0, g1 - u1, e));
    lemma_raised_blends(g0 - u0, g1 - u1, t, e);
    let (h0, h1) = (raised(g0 - u0), raised(g1 - u1));
    assert(clamped_to(q0, u0) == g0 - h0);
    assert(clamped_to(q1, u1) == g1 - h1);
    crate::laws::exact::lemma_blend_sum(g0 - u0, g1 - u1, u0, u1, t);
    crate::laws::exact::lemma_blend_sum(g0 - h0, g1 - h1, h0, h1, t);
    let (g, u, h) = (blend(g0, g1, t), blend(u0, u1, t), blend(h0, h1, t));
    if u0 <= u1 {
        lemma_blend_between(u0, u1, t);
    } else {
        lemma_blend_reversed(u0, u1, t);
        lemma_blend_between(u1, u0, 1real - t);
    }
    let x = blend(q0, q1, t);
    assert(clamped_to(x, u) == raised(x) - raised(raised(x) - u));
    assert(blend(clamped_to(q0, u0), clamped_to(q1, u1), t) == g - h);
    assert(0real <= h - raised(g - u) <= e);
}

} // verus!
