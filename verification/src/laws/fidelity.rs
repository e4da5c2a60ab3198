//! How near a filtered ramp is to the filter of each pixel, in the arithmetic that is painted with.

use crate::color::Color;
use crate::color_matrix::ColorMatrix;
use crate::ieee::Binary32;
use crate::laws::crossings::{lemma_channel_is_near, lemma_found, lemma_inside};
use crate::laws::exact::{
    blend, blended, clamped, filtered_by, filtered_by_all, lemma_blend_between, lemma_blend_twice,
    lemma_clamp_is_exact, lemma_number, number, transformed, upper_bound, vector, Vector,
};
use crate::laws::ramp::is_breakpoint;
use crate::laws::reals::{
    lemma_commutes, lemma_ordered_products, lemma_product_of_one, lemma_product_sign,
    lemma_size_of_product, size,
};
use crate::laws::rounding::{is_unit, is_unit_color, lemma_mix_error, lemma_row_error, lemma_unit};
use crate::laws::segment::{
    has_at, has_between, lemma_neighbours, lemma_places, lemma_stage_ends, place_within,
    whole_piece,
};
use crate::laws::stability::{
    is_close, is_matrix_within, lemma_close_blended, lemma_close_blends, lemma_close_chain,
    lemma_close_clamped, lemma_close_filtered, lemma_near_clamps_blend,
};
use crate::ramp::{
    breakpoints, clamp_vector, crossings, epsilon, interior, is_interior, mapped, mix_vectors,
    segment_ends, stages, ColorStop,
};
use vstd::prelude::*;

verus! {

/// Whether a stop is one of a filtered segment: its offset and components are from `[0, 1]`, and
/// the channels of a premultiplied vector are not above its alpha.
pub open spec fn is_stop(stop: ColorStop, premultiplied: bool) -> bool {
    &&& is_unit(stop.offset)
    &&& is_bounded(stop.color, premultiplied)
}

/// Whether the components of a vector are from `[0, 1]`, and the channels of a premultiplied one
/// not above its alpha.
pub open spec fn is_bounded(color: Color, premultiplied: bool) -> bool {
    &&& is_unit_color(color)
    &&& premultiplied ==> color.r.value() <= color.a.value() && color.g.value() <= color.a.value()
        && color.b.value() <= color.a.value()
}

/// A clamped vector is bounded.
proof fn lemma_clamped_is_bounded(q: Color, premultiplied: bool)
    requires
        q.finite(),
        is_unit(q.a),
    ensures
        is_bounded(clamp_vector(q, premultiplied), premultiplied),
        clamp_vector(q, premultiplied).a == q.a,
{
    Binary32::lemma_constants(q.a);
}

/// What a matrix makes of the vector of a stop, before it is clamped.
proof fn lemma_applied(matrix: ColorMatrix, color: Color, premultiplied: bool, k: real)
    requires
        is_unit_color(color),
        is_matrix_within(matrix, k),
        1real <= k <= 4096real,
    ensures
        ({
            let q = matrix.apply_vector(color, premultiplied);
            &&& q.finite()
            &&& q.a == color.a
            &&& size(number(q.r)) <= k + 1real
            &&& size(number(q.g)) <= k + 1real
            &&& size(number(q.b)) <= k + 1real
            &&& is_close(
                vector(q),
                transformed(matrix, vector(color), premultiplied),
                8real * k / 16777215real,
            )
        }),
{
    lemma_row_error(matrix.red, color, premultiplied, k);
    lemma_row_error(matrix.green, color, premultiplied, k);
    lemma_row_error(matrix.blue, color, premultiplied, k);
}

/// What is interpolated between two vectors, before it is clamped.
proof fn lemma_mixed(qa: Color, qb: Color, s: Binary32, c: real)
    requires
        qa.finite() && qb.finite(),
        is_unit(qa.a) && is_unit(qb.a),
        size(number(qa.r)) <= c && size(number(qa.g)) <= c && size(number(qa.b)) <= c,
        size(number(qb.r)) <= c && size(number(qb.g)) <= c && size(number(qb.b)) <= c,
        1real <= c <= 4097real,
        is_interior(s),
    ensures
        mix_vectors(qa, qb, s).finite(),
        is_unit(mix_vectors(qa, qb, s).a),
        is_close(
            vector(mix_vectors(qa, qb, s)),
            blended(vector(qa), vector(qb), number(s)),
            8real * c / 16777215real,
        ),
{
    lemma_inside(s);
    lemma_unit(qa.a);
    lemma_unit(qb.a);
    lemma_mix_error(qa.r, qb.r, s, c);
    lemma_mix_error(qa.g, qb.g, s, c);
    lemma_mix_error(qa.b, qb.b, s, c);
    lemma_mix_error(qa.a, qb.a, s, c);
    crate::ramp::lemma_mix_alpha(qa.a, qb.a, s);
}

/// A breakpoint of a piece is interpolated at its offset, inside.
proof fn lemma_kept(qa: Color, qb: Color, premultiplied: bool, j: int)
    requires
        0 <= j < breakpoints(qa, qb, premultiplied).len(),
    ensures
        ({
            let stop = breakpoints(qa, qb, premultiplied)[j];
            &&& is_interior(stop.offset)
            &&& stop.color == mix_vectors(qa, qb, stop.offset)
        }),
{
    let found = crossings(qa, qb, premultiplied);
    lemma_found(qa, qb, premultiplied);
    crate::laws::ramp::law_every_crossing_has_a_breakpoint(qa, qb, premultiplied);
    let stop = breakpoints(qa, qb, premultiplied)[j];
    assert(found.contains(stop));
    let i = choose|i: int| 0 <= i < found.len() && found[i] == stop;
    assert(found[i].color == mix_vectors(qa, qb, found[i].offset));
}

/// What a stop of a cut piece is, up to rounding: the clamped vector at its place.
proof fn lemma_cut_stop(
    matrix: ColorMatrix,
    left: ColorStop,
    right: ColorStop,
    premultiplied: bool,
    k: real,
    j: int,
)
    requires
        is_stop(left, premultiplied),
        is_stop(right, premultiplied),
        is_matrix_within(matrix, k),
        1real <= k <= 4096real,
        0 <= j < whole_piece(matrix, left, right, premultiplied).len(),
    ensures
        ({
            let qa = matrix.apply_vector(left.color, premultiplied);
            let qb = matrix.apply_vector(right.color, premultiplied);
            let s = place_within(breakpoints(qa, qb, premultiplied), j);
            let stop = whole_piece(matrix, left, right, premultiplied)[j];
            &&& is_bounded(stop.color, premultiplied)
            &&& 16777215real * size(
                number(stop.offset) - blend(number(left.offset), number(right.offset), s),
            ) <= 8real
            &&& is_close(
                vector(stop.color),
                clamped(blended(vector(qa), vector(qb), s), premultiplied),
                8real * (k + 1real) / 16777215real,
            )
        }),
{
    let qa = matrix.apply_vector(left.color, premultiplied);
    let qb = matrix.apply_vector(right.color, premultiplied);
    let (va, vb) = (vector(qa), vector(qb));
    let inner = breakpoints(qa, qb, premultiplied);
    let e = 8real * (k + 1real) / 16777215real;
    lemma_applied(matrix, left.color, premultiplied, k);
    lemma_applied(matrix, right.color, premultiplied, k);
    lemma_unit(qa.a);
    lemma_unit(qb.a);
    lemma_ends(number(left.offset), number(right.offset));
    lemma_ends(va.r, vb.r);
    lemma_ends(va.g, vb.g);
    lemma_ends(va.b, vb.b);
    lemma_ends(va.a, vb.a);
    if j == 0 {
        lemma_clamp_is_exact(qa, premultiplied);
        lemma_clamped_is_bounded(qa, premultiplied);
    } else if j > inner.len() {
        lemma_clamp_is_exact(qb, premultiplied);
        lemma_clamped_is_bounded(qb, premultiplied);
    } else {
        let stop = inner[j - 1];
        lemma_kept(qa, qb, premultiplied, j - 1);
        let q = stop.color;
        lemma_mixed(qa, qb, stop.offset, k + 1real);
        lemma_inside(stop.offset);
        lemma_unit(left.offset);
        lemma_unit(right.offset);
        lemma_mix_error(left.offset, right.offset, stop.offset, 1real);
        lemma_clamp_is_exact(q, premultiplied);
        lemma_clamped_is_bounded(q, premultiplied);
        lemma_unit(q.a);
        let s = number(stop.offset);
        lemma_not_negative(va.a, vb.a, s);
        lemma_close_clamped(vector(q), blended(va, vb, s), premultiplied, e);
    }
}

proof fn lemma_ends(a: real, b: real)
    ensures
        blend(a, b, 0real) == a,
        blend(a, b, 1real) == b,
{
}

proof fn lemma_not_negative(a: real, b: real, t: real)
    requires
        0real <= a,
        0real <= b,
        0real <= t <= 1real,
    ensures
        0real <= blend(a, b, t),
{
    if a <= b {
        lemma_blend_between(a, b, t);
    } else {
        crate::laws::stability::lemma_blend_reversed(a, b, t);
        lemma_blend_between(b, a, 1real - t);
    }
}

/// On a piece, the ramp through its cut stops is near what the filter makes of the piece.
proof fn lemma_cut_piece(
    matrix: ColorMatrix,
    left: ColorStop,
    right: ColorStop,
    premultiplied: bool,
    k: real,
    j: int,
    t: real,
) -> (s: real)
    requires
        is_stop(left, premultiplied),
        is_stop(right, premultiplied),
        is_matrix_within(matrix, k),
        1real <= k <= 4096real,
        0 <= j < whole_piece(matrix, left, right, premultiplied).len() - 1,
        0real <= t <= 1real,
    ensures
        0real <= s <= 1real,
        ({
            let stops = whole_piece(matrix, left, right, premultiplied);
            let v = blended(vector(left.color), vector(right.color), s);
            &&& 16777215real * size(
                blend(number(stops[j].offset), number(stops[j + 1].offset), t) - blend(
                    number(left.offset),
                    number(right.offset),
                    s,
                ),
            ) <= 8real
            &&& is_close(
                blended(vector(stops[j].color), vector(stops[j + 1].color), t),
                filtered_by(matrix, v, premultiplied),
                (k + 3real) / 100000real,
            )
        }),
{
    let stops = whole_piece(matrix, left, right, premultiplied);
    let qa = matrix.apply_vector(left.color, premultiplied);
    let qb = matrix.apply_vector(right.color, premultiplied);
    let (va, vb) = (vector(qa), vector(qb));
    let inner = breakpoints(qa, qb, premultiplied);
    let (s0, s1) = (place_within(inner, j), place_within(inner, j + 1));
    let s = blend(s0, s1, t);
    crate::laws::ramp::law_breakpoints_rise(qa, qb, premultiplied);
    lemma_places(inner, j, j + 1);
    lemma_blend_between(s0, s1, t);
    lemma_applied(matrix, left.color, premultiplied, k);
    lemma_applied(matrix, right.color, premultiplied, k);
    lemma_unit(qa.a);
    lemma_unit(qb.a);
    lemma_cut_stop(matrix, left, right, premultiplied, k, j);
    lemma_cut_stop(matrix, left, right, premultiplied, k, j + 1);
    // The positions.
    let (xl, xr) = (number(left.offset), number(right.offset));
    let (x0, x1) = (number(stops[j].offset), number(stops[j + 1].offset));
    lemma_close_blends(
        x0,
        x1,
        blend(xl, xr, s0),
        blend(xl, xr, s1),
        t,
        8real / 16777215real,
    );
    lemma_blend_twice(xl, xr, s0, s1, t);
    // The stops, and what is between them.
    let (w0, w1) = (vector(stops[j].color), vector(stops[j + 1].color));
    let (b0, b1) = (blended(va, vb, s0), blended(va, vb, s1));
    let (c0, c1) = (clamped(b0, premultiplied), clamped(b1, premultiplied));
    let e = 8real * (k + 1real) / 16777215real;
    lemma_close_blended(w0, w1, c0, c1, t, e);
    let d = (2real * k + 5real) / 500000real;
    let b = blended(va, vb, s);
    lemma_clamped_channel(qa.r, qb.r, qa, qb, premultiplied, inner, k, j, t, d);
    lemma_clamped_channel(qa.g, qb.g, qa, qb, premultiplied, inner, k, j, t, d);
    lemma_clamped_channel(qa.b, qb.b, qa, qb, premultiplied, inner, k, j, t, d);
    lemma_blend_twice(va.a, vb.a, s0, s1, t);
    if !premultiplied {
        lemma_constant(1real, s0);
        lemma_constant(1real, s1);
        lemma_constant(1real, s);
    }
    assert(is_close(clamped(b, premultiplied), blended(c0, c1, t), 2real * d));
    // What is clamped is near what the matrix makes of the piece.
    let (ta, tb) = (
        transformed(matrix, vector(left.color), premultiplied),
        transformed(matrix, vector(right.color), premultiplied),
    );
    let a = 8real * k / 16777215real;
    lemma_close_blended(va, vb, ta, tb, s, a);
    let v = blended(vector(left.color), vector(right.color), s);
    crate::laws::exact::law_transforming_commutes_with_interpolation(
        matrix,
        vector(left.color),
        vector(right.color),
        s,
        premultiplied,
    );
    lemma_not_negative(va.a, vb.a, s);
    lemma_close_clamped(b, transformed(matrix, v, premultiplied), premultiplied, a);
    let w = blended(w0, w1, t);
    let f = filtered_by(matrix, v, premultiplied);
    lemma_close_chain(w, blended(c0, c1, t), clamped(b, premultiplied), e, 2real * d);
    lemma_close_chain(w, clamped(b, premultiplied), f, e + 2real * d, a);
    s
}

proof fn lemma_constant(a: real, t: real)
    ensures
        blend(a, a, t) == a,
{
    assert(a - a == 0real);
}

proof fn lemma_clamped_channel(
    a: Binary32,
    b: Binary32,
    qa: Color,
    qb: Color,
    premultiplied: bool,
    inner: Seq<ColorStop>,
    k: real,
    j: int,
    t: real,
    d: real,
)
    requires
        inner == breakpoints(qa, qb, premultiplied),
        (a == qa.r && b == qb.r) || (a == qa.g && b == qb.g) || (a == qa.b && b == qb.b),
        a.finite() && b.finite(),
        is_unit(qa.a) && is_unit(qb.a),
        size(number(a)) <= k + 1real,
        size(number(b)) <= k + 1real,
        1real <= k <= 4096real,
        500000real * d == 2real * k + 5real,
        0 <= j <= inner.len(),
        0real <= t <= 1real,
    ensures
        ({
            let (s0, s1) = (place_within(inner, j), place_within(inner, j + 1));
            let s = blend(s0, s1, t);
            let (x, y) = (number(a), number(b));
            let (u, w) = (
                upper_bound(vector(qa), premultiplied),
                upper_bound(vector(qb), premultiplied),
            );
            size(
                crate::laws::exact::clamped_to(blend(x, y, s), blend(u, w, s)) - blend(
                    crate::laws::exact::clamped_to(blend(x, y, s0), blend(u, w, s0)),
                    crate::laws::exact::clamped_to(blend(x, y, s1), blend(u, w, s1)),
                    t,
                ),
            ) <= 2real * d
        }),
{
    let (s0, s1) = (place_within(inner, j), place_within(inner, j + 1));
    let (x, y) = (number(a), number(b));
    let (u, w) = (upper_bound(vector(qa), premultiplied), upper_bound(vector(qb), premultiplied));
    crate::laws::ramp::law_breakpoints_rise(qa, qb, premultiplied);
    lemma_places(inner, j, j + 1);
    lemma_unit(qa.a);
    lemma_unit(qb.a);
    lemma_channel_is_near(a, b, qa, qb, premultiplied, inner, k + 1real, j, d);
    crate::laws::exact::lemma_blend_sum(x - u, y - w, u, w, s0);
    crate::laws::exact::lemma_blend_sum(x - u, y - w, u, w, s1);
    lemma_not_negative(u, w, s0);
    lemma_not_negative(u, w, s1);
    lemma_near_clamps_blend(
        blend(x, y, s0),
        blend(x, y, s1),
        blend(u, w, s0),
        blend(u, w, s1),
        t,
        d,
    );
    lemma_blend_twice(x, y, s0, s1, t);
    lemma_blend_twice(u, w, s0, s1, t);
}

/// Whether the coefficients of each row of the first `n` matrices come to no more than the weight
/// of the matrix.
pub open spec fn are_weighed(matrices: Seq<ColorMatrix>, weights: Seq<real>, n: nat) -> bool {
    &&& n <= matrices.len()
    &&& n <= weights.len()
    &&& forall|i: int|
        0 <= i < n ==> is_matrix_within(#[trigger] matrices[i], weights[i]) && 1real <= weights[i]
            <= 4096real
}

/// The product of the first `n` weights: how steep the filters can make a ramp.
pub open spec fn steepness(weights: Seq<real>, n: nat) -> real
    decreases n,
{
    if n == 0 {
        1real
    } else {
        weights[n - 1] * steepness(weights, (n - 1) as nat)
    }
}

/// How far what the first `n` matrices make of a segment can be from the filter of each pixel.
pub open spec fn segment_error(weights: Seq<real>, n: nat) -> real
    decreases n,
{
    if n == 0 {
        0real
    } else {
        let k = weights[n - 1];
        let before = segment_error(weights, (n - 1) as nat);
        k * (before + steepness(weights, (n - 1) as nat) * (8real / 16777215real)) + (k + 3real)
            / 100000real
    }
}

/// Errors and steepness are not negative.
pub proof fn lemma_errors_are_not_negative(
    matrices: Seq<ColorMatrix>,
    weights: Seq<real>,
    n: nat,
)
    requires
        are_weighed(matrices, weights, n),
    ensures
        1real <= steepness(weights, n),
        0real <= segment_error(weights, n),
    decreases n,
{
    if n > 0 {
        let m = (n - 1) as nat;
        lemma_errors_are_not_negative(matrices, weights, m);
        assert(is_matrix_within(matrices[m as int], weights[m as int]));
        let k = weights[m as int];
        let p = steepness(weights, m);
        lemma_product_sign(p, 8real / 16777215real);
        lemma_product_sign(k, segment_error(weights, m) + p * (8real / 16777215real));
        lemma_ordered_products(p, 1real, k);
        lemma_commutes(p, k);
        lemma_product_of_one(p);
    }
}

/// Filters keep alpha.
pub proof fn lemma_alpha_kept(matrices: Seq<ColorMatrix>, v: Vector, premultiplied: bool, n: nat)
    ensures
        filtered_by_all(matrices, v, premultiplied, n).a == v.a,
    decreases n,
{
    if n > 0 {
        lemma_alpha_kept(matrices, v, premultiplied, (n - 1) as nat);
    }
}

/// Close vectors are filtered to vectors that are no further apart than the filters are steep.
pub proof fn lemma_close_filtered_by_all(
    matrices: Seq<ColorMatrix>,
    weights: Seq<real>,
    v: Vector,
    w: Vector,
    premultiplied: bool,
    n: nat,
    d: real,
)
    requires
        are_weighed(matrices, weights, n),
        is_close(v, w, d),
        d >= 0real,
        0real <= v.a,
        0real <= w.a,
    ensures
        is_close(
            filtered_by_all(matrices, v, premultiplied, n),
            filtered_by_all(matrices, w, premultiplied, n),
            steepness(weights, n) * d,
        ),
    decreases n,
{
    if n > 0 {
        let m = (n - 1) as nat;
        lemma_close_filtered_by_all(matrices, weights, v, w, premultiplied, m, d);
        lemma_errors_are_not_negative(matrices, weights, m);
        lemma_alpha_kept(matrices, v, premultiplied, m);
        lemma_alpha_kept(matrices, w, premultiplied, m);
        let k = weights[m as int];
        let p = steepness(weights, m);
        assert(is_matrix_within(matrices[m as int], k));
        lemma_product_sign(p, d);
        lemma_close_filtered(
            matrices[m as int],
            filtered_by_all(matrices, v, premultiplied, m),
            filtered_by_all(matrices, w, premultiplied, m),
            premultiplied,
            k,
            p * d,
        );
        // k * (p * d) == (k * p) * d
        crate::laws::reals::lemma_regrouped(d, k, p);
        lemma_commutes(p, d);
        lemma_commutes(k * p, d);
    } else {
        lemma_product_of_one(d);
    }
}

/// Positions that are close have close vectors on a segment.
proof fn lemma_close_positions(start: Color, end: Color, x: real, y: real, d: real)
    requires
        is_unit_color(start),
        is_unit_color(end),
        size(x - y) <= d,
    ensures
        is_close(
            blended(vector(start), vector(end), x),
            blended(vector(start), vector(end), y),
            d,
        ),
{
    lemma_unit(start.r);
    lemma_unit(start.g);
    lemma_unit(start.b);
    lemma_unit(start.a);
    lemma_unit(end.r);
    lemma_unit(end.g);
    lemma_unit(end.b);
    lemma_unit(end.a);
    lemma_moved_blend(number(start.r), number(end.r), x, y, d);
    lemma_moved_blend(number(start.g), number(end.g), x, y, d);
    lemma_moved_blend(number(start.b), number(end.b), x, y, d);
    lemma_moved_blend(number(start.a), number(end.a), x, y, d);
}

proof fn lemma_moved_blend(a: real, b: real, x: real, y: real, d: real)
    requires
        0real <= a <= 1real,
        0real <= b <= 1real,
        size(x - y) <= d,
    ensures
        size(blend(a, b, x) - blend(a, b, y)) <= d,
{
    let h = b - a;
    crate::laws::reals::lemma_common_factor(x, y, h);
    lemma_size_of_product(x - y, h);
    lemma_ordered_products(size(x - y), size(h), 1real);
    lemma_product_of_one(size(x - y));
}

/// What the first `n` matrices make of the vector at a position of a segment.
pub open spec fn filtered_at(
    matrices: Seq<ColorMatrix>,
    start: Color,
    end: Color,
    premultiplied: bool,
    n: nat,
    x: real,
) -> Vector {
    filtered_by_all(matrices, blended(vector(start), vector(end), x), premultiplied, n)
}

/// What the filters make of a segment is no steeper than the filters are.
pub proof fn lemma_filtered_at_is_steady(
    matrices: Seq<ColorMatrix>,
    weights: Seq<real>,
    start: Color,
    end: Color,
    premultiplied: bool,
    n: nat,
    x: real,
    y: real,
    d: real,
)
    requires
        are_weighed(matrices, weights, n),
        is_unit_color(start),
        is_unit_color(end),
        0real <= x <= 1real,
        0real <= y <= 1real,
        size(x - y) <= d,
    ensures
        is_close(
            filtered_at(matrices, start, end, premultiplied, n, x),
            filtered_at(matrices, start, end, premultiplied, n, y),
            steepness(weights, n) * d,
        ),
{
    lemma_close_positions(start, end, x, y, d);
    lemma_unit(start.a);
    lemma_unit(end.a);
    lemma_not_negative(number(start.a), number(end.a), x);
    lemma_not_negative(number(start.a), number(end.a), y);
    lemma_close_filtered_by_all(
        matrices,
        weights,
        blended(vector(start), vector(end), x),
        blended(vector(start), vector(end), y),
        premultiplied,
        n,
        d,
    );
}

/// Every stop that a matrix makes of a segment is one of a filtered segment.
pub proof fn lemma_stages_are_stops(
    matrices: Seq<ColorMatrix>,
    weights: Seq<real>,
    start: Color,
    end: Color,
    premultiplied: bool,
    n: nat,
)
    requires
        are_weighed(matrices, weights, n),
        is_bounded(start, premultiplied),
        is_bounded(end, premultiplied),
    ensures
        ({
            let all = stages(matrices, segment_ends(start, end), premultiplied, n);
            forall|i: int| 0 <= i < all.len() ==> is_stop(#[trigger] all[i], premultiplied)
        }),
    decreases n,
{
    let ends = segment_ends(start, end);
    let all = stages(matrices, ends, premultiplied, n);
    Binary32::lemma_constants(Binary32::zero());
    crate::laws::offsets::lemma_stages_in_order(matrices, start, end, premultiplied, n);
    lemma_stage_ends(matrices, ends, premultiplied, n);
    if n > 0 {
        let m = (n - 1) as nat;
        lemma_stages_are_stops(matrices, weights, start, end, premultiplied, m);
        lemma_stage_ends(matrices, ends, premultiplied, m);
        let before = stages(matrices, ends, premultiplied, m);
        let matrix = matrices[m as int];
        let k = weights[m as int];
        assert(is_matrix_within(matrix, k));
        assert forall|i: int| 0 <= i < all.len() implies is_stop(
            #[trigger] all[i],
            premultiplied,
        ) by {
            let stop = all[i];
            assert(all.contains(stop));
            crate::laws::ramp::lemma_stage_member(
                matrix,
                before,
                premultiplied,
                (before.len() - 1) as nat,
                stop,
            );
            assert(i == 0 || all[0].offset.value() <= all[i].offset.value());
            assert(i == all.len() - 1 || all[i].offset.value() <= all[all.len()
                - 1].offset.value());
            if exists|j: int|
                0 <= j < before.len() && stop == mapped(
                    matrix,
                    #[trigger] before[j],
                    premultiplied,
                ) {
                let j = choose|j: int|
                    0 <= j < before.len() && stop == mapped(
                        matrix,
                        #[trigger] before[j],
                        premultiplied,
                    );
                assert(is_stop(before[j], premultiplied));
                lemma_applied(matrix, before[j].color, premultiplied, k);
                lemma_clamped_is_bounded(
                    matrix.apply_vector(before[j].color, premultiplied),
                    premultiplied,
                );
            } else {
                let (p, j) = choose|p: int, j: int| #[trigger]
                    is_breakpoint(matrix, before, premultiplied, p, j, stop);
                let (left, right) = (before[p], before[p + 1]);
                assert(is_stop(left, premultiplied) && is_stop(right, premultiplied));
                let qa = matrix.apply_vector(left.color, premultiplied);
                let qb = matrix.apply_vector(right.color, premultiplied);
                lemma_applied(matrix, left.color, premultiplied, k);
                lemma_applied(matrix, right.color, premultiplied, k);
                lemma_kept(qa, qb, premultiplied, j);
                let inner = breakpoints(qa, qb, premultiplied)[j];
                lemma_mixed(qa, qb, inner.offset, k + 1real);
                lemma_clamped_is_bounded(inner.color, premultiplied);
            }
        }
    }
}

/// The ramp that the first `n` matrices make of a segment is near the filter of each pixel.
pub proof fn lemma_stages_are_near(
    matrices: Seq<ColorMatrix>,
    weights: Seq<real>,
    start: Color,
    end: Color,
    premultiplied: bool,
    n: nat,
    x: real,
    w: Vector,
)
    requires
        are_weighed(matrices, weights, n),
        is_bounded(start, premultiplied),
        is_bounded(end, premultiplied),
        has_at(stages(matrices, segment_ends(start, end), premultiplied, n), x, w),
    ensures
        0real <= x <= 1real,
        is_close(
            w,
            filtered_at(matrices, start, end, premultiplied, n, x),
            segment_error(weights, n),
        ),
    decreases n,
{
    let ends = segment_ends(start, end);
    let all = stages(matrices, ends, premultiplied, n);
    let (i, t) = choose|i: int, t: real| #[trigger] has_between(all, i, t, x, w);
    lemma_stages_are_stops(matrices, weights, start, end, premultiplied, n);
    assert(is_stop(all[i], premultiplied) && is_stop(all[i + 1], premultiplied));
    lemma_unit(all[i].offset);
    lemma_unit(all[i + 1].offset);
    lemma_within(number(all[i].offset), number(all[i + 1].offset), t);
    if n == 0 {
        lemma_number(Binary32::zero());
        assert(i == 0);
        lemma_product_of_one(t);
        assert(1real - 0real == 1real);
        assert(x == t);
    } else {
        let m = (n - 1) as nat;
        let before = stages(matrices, ends, premultiplied, m);
        let matrix = matrices[m as int];
        let k = weights[m as int];
        assert(is_matrix_within(matrix, k));
        lemma_stage_ends(matrices, ends, premultiplied, m);
        lemma_stages_are_stops(matrices, weights, start, end, premultiplied, m);
        let (p, j) = lemma_neighbours(
            matrix,
            before,
            premultiplied,
            (before.len() - 1) as nat,
            i,
        );
        let (left, right) = (before[p], before[p + 1]);
        assert(is_stop(left, premultiplied) && is_stop(right, premultiplied));
        let s = lemma_cut_piece(matrix, left, right, premultiplied, k, j, t);
        let v = blended(vector(left.color), vector(right.color), s);
        let y = blend(number(left.offset), number(right.offset), s);
        assert(has_between(before, p, s, y, v));
        lemma_stages_are_near(matrices, weights, start, end, premultiplied, m, y, v);
        let e = 8real / 16777215real;
        let pw = steepness(weights, m);
        let before_error = segment_error(weights, m);
        lemma_errors_are_not_negative(matrices, weights, m);
        lemma_filtered_at_is_steady(
            matrices,
            weights,
            start,
            end,
            premultiplied,
            m,
            y,
            x,
            e,
        );
        let (fy, fx) = (
            filtered_at(matrices, start, end, premultiplied, m, y),
            filtered_at(matrices, start, end, premultiplied, m, x),
        );
        lemma_close_chain(v, fy, fx, before_error, pw * e);
        lemma_product_sign(pw, e);
        lemma_alpha_kept(
            matrices,
            blended(vector(start), vector(end), x),
            premultiplied,
            m,
        );
        lemma_unit(start.a);
        lemma_unit(end.a);
        lemma_not_negative(number(start.a), number(end.a), x);
        lemma_unit(left.color.a);
        lemma_unit(right.color.a);
        lemma_not_negative(number(left.color.a), number(right.color.a), s);
        lemma_close_filtered(matrix, v, fx, premultiplied, k, before_error + pw * e);
        lemma_close_chain(
            w,
            filtered_by(matrix, v, premultiplied),
            filtered_by(matrix, fx, premultiplied),
            (k + 3real) / 100000real,
            k * (before_error + pw * e),
        );
    }
}

proof fn lemma_within(a: real, b: real, t: real)
    requires
        0real <= a <= 1real,
        0real <= b <= 1real,
        0real <= t <= 1real,
    ensures
        0real <= blend(a, b, t) <= 1real,
{
    if a <= b {
        lemma_blend_between(a, b, t);
    } else {
        crate::laws::stability::lemma_blend_reversed(a, b, t);
        lemma_blend_between(b, a, 1real - t);
    }
}

/// Whether an offset is not behind the first hair of a segment.
spec fn is_low(x: Binary32) -> bool {
    !epsilon().below(x)
}

/// Whether an offset is not ahead of the last hair of a segment.
spec fn is_high(x: Binary32) -> bool {
    !x.below(Binary32::one().minus(epsilon()))
}

/// The two hairs do not meet.
proof fn lemma_hairs_are_apart(x: Binary32, y: Binary32)
    requires
        x.finite(),
        y.finite(),
        is_high(x),
        x.value() <= y.value(),
    ensures
        is_high(y),
        !is_low(y),
{
    let one = Binary32::one();
    crate::laws::crossings::lemma_epsilon();
    Binary32::lemma_constants(one);
    lemma_number(one);
    crate::laws::rounding::lemma_difference_error(one, epsilon());
    let top = one.minus(epsilon());
    lemma_number(top);
    crate::laws::exact::lemma_number_order(top, epsilon());
}

/// The stops inside a segment are a run of its stops: what is ahead of them is within the first
/// hair, and what is behind them within the last.
proof fn lemma_inside_is_a_run(s: Seq<ColorStop>) -> (r: (int, int))
    requires
        crate::laws::offsets::is_in_order(s),
    ensures
        0 <= r.0 <= r.1 <= s.len(),
        interior(s) == s.subrange(r.0, r.1),
        forall|i: int| 0 <= i < r.0 ==> is_low((#[trigger] s[i]).offset),
        forall|i: int| r.1 <= i < s.len() ==> is_high((#[trigger] s[i]).offset),
    decreases s.len(),
{
    if s.len() == 0 {
        assert(s.subrange(0, 0) =~= Seq::empty());
        (0, 0)
    } else {
        let short = s.drop_last();
        let n = short.len() as int;
        assert(crate::laws::offsets::is_in_order(short)) by {
            assert forall|i: int, j: int| 0 <= i < j < short.len() implies (
            #[trigger] short[i]).offset.value() <= (#[trigger] short[j]).offset.value() by {
                assert(short[i] == s[i] && short[j] == s[j]);
            }
            assert forall|i: int| 0 <= i < short.len() implies (
            #[trigger] short[i]).offset.finite() by {
                assert(short[i] == s[i]);
            }
        }
        let (p, q) = lemma_inside_is_a_run(short);
        let last = s.last();
        assert(last == s[n]);
        assert forall|i: int| 0 <= i < p implies is_low((#[trigger] s[i]).offset) by {
            assert(short[i] == s[i]);
        }
        assert forall|i: int| q <= i < n implies is_high((#[trigger] s[i]).offset) by {
            assert(short[i] == s[i]);
        }
        if q < n {
            assert(is_high(s[q].offset));
            assert(s[q].offset.value() <= s[n].offset.value());
            lemma_hairs_are_apart(s[q].offset, last.offset);
            assert(short.subrange(p, q) =~= s.subrange(p, q));
            (p, q)
        } else if is_interior(last.offset) {
            assert(short.subrange(p, q).push(last) =~= s.subrange(p, q + 1));
            (p, q + 1)
        } else if is_low(last.offset) {
            if p < q {
                assert(interior(short)[0] == short[p]);
                crate::laws::ramp::lemma_interior_is_inside(short);
                assert(is_interior(interior(short)[0].offset));
                assert(s[p].offset.value() <= s[n].offset.value());
                assert(short[p] == s[p]);
                lemma_behind(s[p].offset, last.offset);
            }
            assert(short.subrange(p, q) =~= s.subrange(p + 1, q + 1));
            (p + 1, q + 1)
        } else {
            assert(short.subrange(p, q) =~= s.subrange(p, q));
            (p, q)
        }
    }
}

/// What is behind something that is behind the first hair is so too.
proof fn lemma_behind(x: Binary32, y: Binary32)
    requires
        x.finite(),
        y.finite(),
        is_interior(x),
        x.value() <= y.value(),
    ensures
        !is_low(y),
{
}

/// The ramp of a segment as it is handed out: the ends, and the stops inside.
pub open spec fn trimmed(all: Seq<ColorStop>) -> Seq<ColorStop> {
    seq![all[0]] + interior(all) + seq![all.last()]
}

/// Two neighbours of what is handed out are next to two neighbours of what was made: the ends
/// stand for the stops within a hair of them.
proof fn lemma_trimmed(all: Seq<ColorStop>, i: int) -> (m: int)
    requires
        crate::laws::offsets::is_in_order(all),
        all.len() > 1,
        all[0].offset == Binary32::zero(),
        all.last().offset == Binary32::one(),
        0 <= i < trimmed(all).len() - 1,
    ensures
        0 <= m < all.len() - 1,
        trimmed(all)[i] == all[m] || (trimmed(all)[i] == all[0] && is_low(all[m].offset)),
        trimmed(all)[i + 1] == all[m + 1] || (trimmed(all)[i + 1] == all.last() && is_high(
            all[m + 1].offset,
        )),
{
    let (p, q) = lemma_inside_is_a_run(all);
    let inner = interior(all);
    let list = trimmed(all);
    let n = all.len() as int;
    let (zero, one) = (Binary32::zero(), Binary32::one());
    Binary32::lemma_constants(zero);
    crate::laws::crossings::lemma_epsilon();
    lemma_number(epsilon());
    lemma_number(one);
    crate::laws::exact::lemma_number_order(one, epsilon());
    // The first stop is ahead of the run and the last behind it.
    assert(is_low(all[0].offset));
    if p == 0 {
        if q == 0 {
            assert(is_high(all[0].offset));
            lemma_hairs_are_apart(all[0].offset, all[0].offset);
        } else {
            crate::laws::ramp::lemma_interior_is_inside(all);
            assert(inner[0] == all[0]);
            assert(is_interior(inner[0].offset));
        }
    }
    if q == n {
        if p == n {
            assert(is_low(all[n - 1].offset));
        } else {
            crate::laws::ramp::lemma_interior_is_inside(all);
            assert(inner[inner.len() - 1] == all[n - 1]);
            assert(is_interior(inner[inner.len() - 1].offset));
            lemma_inside(one);
        }
    }
    let m = p - 1 + i;
    assert(inner.len() == q - p);
    if 0 < i {
        assert(list[i] == inner[i - 1]);
        assert(inner[i - 1] == all[m]);
    } else {
        assert(list[0] == all[0]);
        assert(is_low(all[p - 1].offset));
    }
    if i < inner.len() {
        assert(list[i + 1] == inner[i]);
        assert(inner[i] == all[m + 1]);
    } else {
        assert(list[i + 1] == all.last());
        assert(m + 1 == q);
        assert(is_high(all[q].offset));
    }
    m
}

/// How far the ramp of a segment as it is handed out can be from the filter of each pixel.
pub open spec fn trimmed_error(weights: Seq<real>, n: nat) -> real {
    3real * segment_error(weights, n) + 2real * (steepness(weights, n) * (1real / 900000real))
}

/// The ramp of a segment as it is handed out is near the filter of each pixel.
pub proof fn lemma_trimmed_is_near(
    matrices: Seq<ColorMatrix>,
    weights: Seq<real>,
    start: Color,
    end: Color,
    premultiplied: bool,
    n: nat,
    x: real,
    w: Vector,
)
    requires
        are_weighed(matrices, weights, n),
        is_bounded(start, premultiplied),
        is_bounded(end, premultiplied),
        has_at(
            trimmed(stages(matrices, segment_ends(start, end), premultiplied, n)),
            x,
            w,
        ),
    ensures
        0real <= x <= 1real,
        is_close(
            w,
            filtered_at(matrices, start, end, premultiplied, n, x),
            trimmed_error(weights, n),
        ),
{
    let ends = segment_ends(start, end);
    let all = stages(matrices, ends, premultiplied, n);
    let list = trimmed(all);
    let (i, t) = choose|i: int, t: real| #[trigger] has_between(list, i, t, x, w);
    lemma_stage_ends(matrices, ends, premultiplied, n);
    crate::laws::offsets::lemma_stages_in_order(matrices, start, end, premultiplied, n);
    lemma_stages_are_stops(matrices, weights, start, end, premultiplied, n);
    lemma_errors_are_not_negative(matrices, weights, n);
    let m = lemma_trimmed(all, i);
    let (a, b) = (list[i], list[i + 1]);
    let (c, d) = (all[m], all[m + 1]);
    assert(is_stop(c, premultiplied) && is_stop(d, premultiplied));
    assert(is_stop(all[0], premultiplied) && is_stop(all[all.len() - 1], premultiplied));
    let e = segment_error(weights, n);
    let hair = 1real / 900000real;
    let pw = steepness(weights, n) * hair;
    lemma_product_sign(steepness(weights, n), hair);
    lemma_number(Binary32::zero());
    lemma_next(matrices, weights, start, end, premultiplied, n, a, c, true);
    lemma_next(matrices, weights, start, end, premultiplied, n, b, d, false);
    let (x0, x1) = (number(a.offset), number(b.offset));
    let (y0, y1) = (number(c.offset), number(d.offset));
    let y = blend(y0, y1, t);
    let v = blended(vector(c.color), vector(d.color), t);
    lemma_unit(a.offset);
    lemma_unit(b.offset);
    lemma_unit(c.offset);
    lemma_unit(d.offset);
    lemma_within(x0, x1, t);
    lemma_close_blends(x0, x1, y0, y1, t, hair);
    lemma_close_blended(
        vector(a.color),
        vector(b.color),
        vector(c.color),
        vector(d.color),
        t,
        2real * e + pw,
    );
    assert(has_between(all, m, t, y, v));
    lemma_stages_are_near(matrices, weights, start, end, premultiplied, n, y, v);
    lemma_filtered_at_is_steady(matrices, weights, start, end, premultiplied, n, y, x, hair);
    let (fy, fx) = (
        filtered_at(matrices, start, end, premultiplied, n, y),
        filtered_at(matrices, start, end, premultiplied, n, x),
    );
    lemma_close_chain(w, v, fy, 2real * e + pw, e);
    lemma_close_chain(w, fy, fx, 3real * e + pw, pw);
}

/// A stop of the ramp as it is handed out is the one it stands for, or next to it.
proof fn lemma_next(
    matrices: Seq<ColorMatrix>,
    weights: Seq<real>,
    start: Color,
    end: Color,
    premultiplied: bool,
    n: nat,
    a: ColorStop,
    c: ColorStop,
    low: bool,
)
    requires
        are_weighed(matrices, weights, n),
        is_bounded(start, premultiplied),
        is_bounded(end, premultiplied),
        ({
            let all = stages(matrices, segment_ends(start, end), premultiplied, n);
            &&& all.len() > 1
            &&& all.contains(c)
            &&& low ==> a == c || (a == all[0] && is_low(c.offset))
            &&& !low ==> a == c || (a == all.last() && is_high(c.offset))
        }),
    ensures
        is_stop(a, premultiplied),
        size(number(a.offset) - number(c.offset)) <= 1real / 900000real,
        is_close(
            vector(a.color),
            vector(c.color),
            2real * segment_error(weights, n) + steepness(weights, n) * (1real / 900000real),
        ),
{
    let ends = segment_ends(start, end);
    let all = stages(matrices, ends, premultiplied, n);
    let hair = 1real / 900000real;
    lemma_stage_ends(matrices, ends, premultiplied, n);
    lemma_stages_are_stops(matrices, weights, start, end, premultiplied, n);
    lemma_errors_are_not_negative(matrices, weights, n);
    lemma_product_sign(steepness(weights, n), hair);
    let k = choose|k: int| 0 <= k < all.len() && all[k] == c;
    assert(is_stop(all[k], premultiplied));
    assert(is_stop(all[0], premultiplied) && is_stop(all[all.len() - 1], premultiplied));
    if a != c {
        lemma_unit(c.offset);
        lemma_number(Binary32::zero());
        lemma_outer(c.offset);
        let (x, y) = (number(a.offset), number(c.offset));
        lemma_at_a_stop(all, k);
        lemma_at_a_stop(all, if low {
            0
        } else {
            all.len() - 1
        });
        lemma_stages_are_near(
            matrices,
            weights,
            start,
            end,
            premultiplied,
            n,
            x,
            vector(a.color),
        );
        lemma_stages_are_near(
            matrices,
            weights,
            start,
            end,
            premultiplied,
            n,
            y,
            vector(c.color),
        );
        lemma_filtered_at_is_steady(matrices, weights, start, end, premultiplied, n, x, y, hair);
        let (fx, fy) = (
            filtered_at(matrices, start, end, premultiplied, n, x),
            filtered_at(matrices, start, end, premultiplied, n, y),
        );
        let e = segment_error(weights, n);
        lemma_close_chain(vector(a.color), fx, fy, e, steepness(weights, n) * hair);
        lemma_close_chain(vector(c.color), fy, fy, e, 0real);
        lemma_close_chain(
            vector(a.color),
            fy,
            vector(c.color),
            e + steepness(weights, n) * hair,
            e,
        );
    }
}

/// What is not inside is within a hair of an end.
proof fn lemma_outer(x: Binary32)
    requires
        is_unit(x),
    ensures
        is_low(x) ==> 900000real * number(x) <= 1real,
        is_high(x) ==> 900000real * (1real - number(x)) <= 1real,
{
    if is_low(x) || is_high(x) {
        crate::laws::crossings::lemma_not_inside(x);
    }
}

/// A ramp has at a stop's offset the vector of the stop.
pub proof fn lemma_at_a_stop(list: Seq<ColorStop>, k: int)
    requires
        list.len() > 1,
        0 <= k < list.len(),
    ensures
        has_at(list, number(list[k].offset), vector(list[k].color)),
{
    let v = vector(list[k].color);
    let x = number(list[k].offset);
    if k + 1 < list.len() {
        lemma_ends_of_vectors(v, vector(list[k + 1].color));
        lemma_ends(x, number(list[k + 1].offset));
        assert(has_between(list, k, 0real, x, v));
    } else {
        lemma_ends_of_vectors(vector(list[k - 1].color), v);
        lemma_ends(number(list[k - 1].offset), x);
        assert(has_between(list, k - 1, 1real, x, v));
    }
}

proof fn lemma_ends_of_vectors(v: Vector, w: Vector)
    ensures
        blended(v, w, 0real) == v,
        blended(v, w, 1real) == w,
{
    lemma_ends(v.r, w.r);
    lemma_ends(v.g, w.g);
    lemma_ends(v.b, w.b);
    lemma_ends(v.a, w.a);
}

} // verus!
