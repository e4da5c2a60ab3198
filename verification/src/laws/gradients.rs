//! A filtered gradient is near the filter of each of its pixels, in the arithmetic that is painted
//! with.

use crate::color::Color;
use crate::color_matrix::{clamp_unit, filtered, ColorMatrix, ColorMatrixChain};
use crate::ieee::Binary32;
use crate::ieee::facts::{lemma_rounded_exact, lemma_rounded_zero};
use crate::ieee::model::Format;
use crate::laws::exact::{
    blend, blended, filtered_by, filtered_by_all, lemma_blend_twice, lemma_channel_clamp,
    lemma_number, lemma_number_order, number, scaled_by_alpha, transformed, vector, Vector,
};
use crate::laws::fidelity::{
    are_weighed, filtered_at, is_bounded, is_stop, lemma_alpha_kept, lemma_at_a_stop,
    lemma_close_filtered_by_all, lemma_errors_are_not_negative, lemma_filtered_at_is_steady,
    lemma_stages_are_near, lemma_stages_are_stops, lemma_trimmed_is_near, segment_error, steepness,
    trimmed, trimmed_error,
};
use crate::laws::reals::{
    lemma_bounded_product, lemma_cancels, lemma_common_factor, lemma_commutes, lemma_distributes,
    lemma_ordered_products, lemma_product_of_one, lemma_product_sign, lemma_quotient,
    lemma_regrouped, lemma_size_of_product, size,
};
use crate::laws::rounding::{
    is_unit, is_unit_color, lemma_difference_error, lemma_mix_error, lemma_premultiplying_error,
    lemma_product_error, lemma_quotient_error, lemma_row_error, lemma_tiny, lemma_unit,
    lemma_unit_product, tiny,
};
use crate::laws::segment::{
    authored_segment, filtered_segment, has_at, has_between, lemma_stage_ends, vectors,
};
use crate::laws::stability::{
    is_close, is_matrix_within, lemma_close_blended, lemma_close_blends, lemma_close_chain,
    lemma_close_clamps, lemma_close_filtered,
};
use crate::ramp::{
    from_vector, interior, mix, segment_ends, stages, stays_within_limit, to_vector, ColorStop,
    Gradient,
};
use vstd::prelude::*;

verus! {

/// Whether a matrix leaves alpha alone.
pub open spec fn leaves_alpha(matrix: ColorMatrix) -> bool {
    let row = matrix.alpha;
    &&& row.r.finite() && row.r.value() == 0
    &&& row.g.finite() && row.g.value() == 0
    &&& row.b.finite() && row.b.value() == 0
    &&& row.a.finite() && row.a.value() == Binary32::unit()
    &&& row.offset.finite() && row.offset.value() == 0
}

proof fn lemma_zero_product(z: Binary32, c: Binary32)
    requires
        z.finite(),
        z.value() == 0,
        is_unit(c),
    ensures
        z.times(c).finite(),
        z.times(c).value() == 0,
{
    Binary32::lemma_constants(z);
    z.lemma_times(c);
    lemma_rounded_zero(Format::Single, Binary32::unit());
    assert(0 * c.value() == 0) by (nonlinear_arith);
    lemma_unit(c);
    lemma_number(z);
    lemma_product_error(z, c);
}

proof fn lemma_zero_sum(z: Binary32, c: Binary32)
    requires
        z.finite(),
        z.value() == 0,
        is_unit(c),
    ensures
        z.plus(c).finite(),
        z.plus(c).value() == c.value(),
        c.plus(z).finite(),
        c.plus(z).value() == c.value(),
{
    Binary32::lemma_constants(c);
    z.lemma_plus(c);
    c.lemma_plus(z);
    lemma_rounded_exact(Format::Single, c.bits as nat, 1);
    assert(c.value() * 1 == c.value()) by (nonlinear_arith);
    lemma_unit(c);
    lemma_number(z);
    crate::laws::rounding::lemma_sum_error(z, c);
    crate::laws::rounding::lemma_sum_error(c, z);
}

/// A matrix that leaves alpha alone does so in the arithmetic that is painted with.
pub proof fn lemma_alpha_row(matrix: ColorMatrix, color: Color)
    requires
        leaves_alpha(matrix),
        is_unit_color(color),
    ensures
        is_unit(clamp_unit(matrix.alpha.combine(color))),
        clamp_unit(matrix.alpha.combine(color)).value() == color.a.value(),
{
    let row = matrix.alpha;
    let a = color.a;
    Binary32::lemma_constants(a);
    lemma_zero_product(row.r, color.r);
    lemma_zero_product(row.g, color.g);
    lemma_zero_product(row.b, color.b);
    let (r, g, b) = (row.r.times(color.r), row.g.times(color.g), row.b.times(color.b));
    lemma_zero_sum(r, g);
    let s = r.plus(g);
    lemma_zero_sum(s, b);
    let t = s.plus(b);
    row.a.lemma_times(a);
    let u = Binary32::unit() as int;
    assert(u * a.value() == a.value() * u) by (nonlinear_arith);
    lemma_rounded_exact(Format::Single, a.bits as nat, u as nat);
    let p = row.a.times(a);
    assert(p.value() == a.value());
    lemma_unit_product(row.a, a);
    lemma_zero_sum(t, p);
    let q = t.plus(p);
    lemma_zero_sum(row.offset, q);
    let w = q.plus(row.offset);
    assert(w == row.combine(color));
}

/// How far the filtered colour of an authored stop can be from its exact filter.
pub open spec fn color_error(weights: Seq<real>, n: nat) -> real
    decreases n,
{
    if n == 0 {
        0real
    } else {
        let k = weights[n - 1];
        k * color_error(weights, (n - 1) as nat) + 8real * k / 16777215real
    }
}

proof fn lemma_color_error_is_not_negative(
    matrices: Seq<ColorMatrix>,
    weights: Seq<real>,
    n: nat,
)
    requires
        are_weighed(matrices, weights, n),
    ensures
        color_error(weights, n) >= 0real,
    decreases n,
{
    if n > 0 {
        let m = (n - 1) as nat;
        lemma_color_error_is_not_negative(matrices, weights, m);
        assert(is_matrix_within(matrices[m as int], weights[m as int]));
        lemma_product_sign(weights[m as int], color_error(weights, m));
    }
}

/// The colour that a chain makes of a colour is near its exact filter, and has its alpha.
pub proof fn law_filtered_colors_are_near_their_exact_filter(
    matrices: Seq<ColorMatrix>,
    weights: Seq<real>,
    color: Color,
    n: nat,
)
    requires
        are_weighed(matrices, weights, n),
        forall|i: int| 0 <= i < n ==> leaves_alpha(#[trigger] matrices[i]),
        is_unit_color(color),
    ensures
        is_unit_color(filtered(matrices, color, n)),
        filtered(matrices, color, n).a.value() == color.a.value(),
        is_close(
            vector(filtered(matrices, color, n)),
            filtered_by_all(matrices, vector(color), false, n),
            color_error(weights, n),
        ),
    decreases n,
{
    if n > 0 {
        let m = (n - 1) as nat;
        law_filtered_colors_are_near_their_exact_filter(matrices, weights, color, m);
        lemma_color_error_is_not_negative(matrices, weights, m);
        let before = filtered(matrices, color, m);
        let matrix = matrices[m as int];
        let k = weights[m as int];
        assert(is_matrix_within(matrix, k));
        assert(leaves_alpha(matrix));
        let after = matrix.apply(before);
        let one = Binary32::one();
        Binary32::lemma_constants(one);
        lemma_number(one);
        lemma_alpha_row(matrix, before);
        lemma_row_error(matrix.red, before, false, k);
        lemma_row_error(matrix.green, before, false, k);
        lemma_row_error(matrix.blue, before, false, k);
        lemma_channel_clamp(matrix.red.combine(before), one);
        lemma_channel_clamp(matrix.green.combine(before), one);
        lemma_channel_clamp(matrix.blue.combine(before), one);
        let e = 8real * k / 16777215real;
        let t = transformed(matrix, vector(before), false);
        lemma_close_clamps(number(matrix.red.combine(before)), t.r, 1real, 1real, e);
        lemma_close_clamps(number(matrix.green.combine(before)), t.g, 1real, 1real, e);
        lemma_close_clamps(number(matrix.blue.combine(before)), t.b, 1real, 1real, e);
        lemma_number_order(after.a, before.a);
        lemma_number_order(before.a, after.a);
        let f = filtered_by(matrix, vector(before), false);
        assert(is_close(vector(after), f, e));
        let c = color_error(weights, m);
        let x = filtered_by_all(matrices, vector(color), false, m);
        lemma_close_filtered(matrix, vector(before), x, false, k, c);
        lemma_close_chain(vector(after), f, filtered_by(matrix, x, false), e, k * c);
    }
}

/// How far the vector of a filtered authored stop can be from the exact filter of its vector.
pub open spec fn end_error(weights: Seq<real>, n: nat) -> real {
    color_error(weights, n) + 1real / 8388607real + steepness(weights, n) * (1real / 8388607real)
}

/// The vector of a filtered authored stop is near the exact filter of its vector.
proof fn lemma_filtered_end(
    chain: ColorMatrixChain,
    weights: Seq<real>,
    color: Color,
    premultiplied: bool,
)
    requires
        are_weighed(chain.matrices(), weights, chain.matrices().len()),
        forall|i: int|
            0 <= i < chain.matrices().len() ==> leaves_alpha(#[trigger] chain.matrices()[i]),
        premultiplied ==> chain.keeps_alpha_out(),
        is_unit_color(color),
    ensures
        is_close(
            vector(to_vector(chain.apply(color), premultiplied)),
            filtered_by_all(
                chain.matrices(),
                vector(to_vector(color, premultiplied)),
                premultiplied,
                chain.matrices().len(),
            ),
            end_error(weights, chain.matrices().len()),
        ),
{
    let ms = chain.matrices();
    let n = ms.len();
    let after = chain.apply(color);
    let e = 1real / 8388607real;
    let c = color_error(weights, n);
    law_filtered_colors_are_near_their_exact_filter(ms, weights, color, n);
    lemma_color_error_is_not_negative(ms, weights, n);
    lemma_errors_are_not_negative(ms, weights, n);
    lemma_product_sign(steepness(weights, n), e);
    if premultiplied {
        lemma_premultiplying_error(color);
        lemma_premultiplying_error(after);
        lemma_unit(color.a);
        lemma_unit(after.a);
        let v = vector(color);
        let x = filtered_by_all(ms, v, false, n);
        lemma_number_order(after.a, color.a);
        lemma_number_order(color.a, after.a);
        lemma_alpha_kept(ms, v, false, n);
        // The filtered colour, premultiplied.
        lemma_scaled_difference(number(after.r), x.r, v.a, c);
        lemma_scaled_difference(number(after.g), x.g, v.a, c);
        lemma_scaled_difference(number(after.b), x.b, v.a, c);
        let w = vector(to_vector(after, true));
        assert(is_close(w, scaled_by_alpha(x), c + e));
        // The premultiplied colour, filtered.
        crate::laws::exact::law_premultiplied_vectors_are_filtered_as_colors(ms, v, n);
        let s = vector(to_vector(color, true));
        assert(is_close(scaled_by_alpha(v), s, e));
        lemma_close_filtered_by_all(ms, weights, scaled_by_alpha(v), s, true, n, e);
        lemma_close_chain(
            w,
            scaled_by_alpha(x),
            filtered_by_all(ms, s, true, n),
            c + e,
            steepness(weights, n) * e,
        );
    }
}

proof fn lemma_scaled_difference(x: real, y: real, a: real, e: real)
    requires
        size(x - y) <= e,
        0real <= a <= 1real,
    ensures
        size(x * a - y * a) <= e,
{
    lemma_common_factor(x, y, a);
    lemma_bounded_product(x - y, a, 1real);
    lemma_product_of_one(size(x - y));
}

/// A vector survives being made a colour and a vector again.
proof fn lemma_round_trip(v: Color, premultiplied: bool)
    requires
        is_bounded(v, premultiplied),
    ensures
        is_close(
            vector(to_vector(from_vector(v, premultiplied), premultiplied)),
            vector(v),
            1real / 4194303real,
        ),
{
    if premultiplied {
        Binary32::lemma_constants(v.a);
        if v.a.value() > 0 {
            lemma_divided(v.r, v.a);
            lemma_divided(v.g, v.a);
            lemma_divided(v.b, v.a);
        } else {
            let zero = Binary32::zero();
            lemma_zero_product(zero, zero);
            lemma_number(zero.times(zero));
            lemma_number(v.r);
            lemma_number(v.g);
            lemma_number(v.b);
            lemma_number(v.a);
        }
    }
}

proof fn lemma_divided(r: Binary32, a: Binary32)
    requires
        is_unit(r),
        is_unit(a),
        a.value() > 0,
        r.value() <= a.value(),
    ensures
        4194303real * size(number(r.over(a).times(a)) - number(r)) <= 1real,
{
    lemma_unit(r);
    lemma_unit(a);
    lemma_number(a);
    lemma_number_order(r, a);
    lemma_tiny();
    let (x, y) = (number(r), number(a));
    lemma_quotient_error(r, a);
    let q = r.over(a);
    lemma_ordered_products(tiny(), y, 1real);
    lemma_product_of_one(tiny());
    lemma_product_error(q, a);
}

/// How far a filtered ramp can be from the filter of each pixel, for an authored segment of the
/// given width.
pub open spec fn ramp_error(weights: Seq<real>, n: nat, width: real) -> real {
    end_error(weights, n) + segment_error(weights, n) + 1real / 4194303real + trimmed_error(
        weights,
        n,
    ) + steepness(weights, n) * (8real / 16777215real / width)
}

/// Whether an authored segment is one whose filtered ramp is near the filter of each pixel: its
/// colours are from `[0, 1]`, its offsets too, and in order, it needs no more stops than it may
/// have, and the matrices leave alpha alone and take nothing from it where it would be squared.
pub open spec fn is_filtered_nearly(
    chain: ColorMatrixChain,
    weights: Seq<real>,
    left: ColorStop,
    right: ColorStop,
    premultiplied: bool,
) -> bool {
    let matrices = chain.matrices();
    &&& are_weighed(matrices, weights, matrices.len())
    &&& forall|i: int| 0 <= i < matrices.len() ==> leaves_alpha(#[trigger] matrices[i])
    &&& premultiplied ==> chain.keeps_alpha_out()
    &&& is_unit_color(left.color) && is_unit_color(right.color)
    &&& is_unit(left.offset) && is_unit(right.offset)
    &&& left.offset.value() < right.offset.value()
    &&& stays_within_limit(
        matrices,
        segment_ends(
            to_vector(left.color, premultiplied),
            to_vector(right.color, premultiplied),
        ),
        premultiplied,
    )
}

/// Vectors of authored colours are bounded.
proof fn lemma_bounded_vector(color: Color, premultiplied: bool)
    requires
        is_unit_color(color),
    ensures
        is_bounded(to_vector(color, premultiplied), premultiplied),
{
    if premultiplied {
        lemma_unit_product(color.r, color.a);
        lemma_unit_product(color.g, color.a);
        lemma_unit_product(color.b, color.a);
    }
}

/// A stop of the filtered ramp is, up to rounding, the stop of the segment as it was handed out,
/// moved from `[0, 1]` to where the segment is.
proof fn lemma_ramp_stop(
    chain: ColorMatrixChain,
    weights: Seq<real>,
    left: ColorStop,
    right: ColorStop,
    premultiplied: bool,
    i: int,
)
    requires
        is_filtered_nearly(chain, weights, left, right, premultiplied),
    ensures
        ({
            let start = to_vector(left.color, premultiplied);
            let end = to_vector(right.color, premultiplied);
            let n = chain.matrices().len();
            let all = stages(chain.matrices(), segment_ends(start, end), premultiplied, n);
            let list = vectors(
                filtered_segment(chain, left, right, premultiplied),
                premultiplied,
            );
            let (xl, xr) = (number(left.offset), number(right.offset));
            &&& list.len() == trimmed(all).len()
            &&& 0 <= i < list.len() ==> {
                &&& is_close(
                    vector(list[i].color),
                    vector(trimmed(all)[i].color),
                    end_error(weights, n) + segment_error(weights, n) + 1real / 4194303real,
                )
                &&& 16777215real * size(
                    number(list[i].offset) - blend(xl, xr, number(trimmed(all)[i].offset)),
                ) <= 8real
                &&& xl <= number(list[i].offset) <= xr
            }
        }),
{
    let start = to_vector(left.color, premultiplied);
    let end = to_vector(right.color, premultiplied);
    let ms = chain.matrices();
    let n = ms.len();
    let ends = segment_ends(start, end);
    let all = stages(ms, ends, premultiplied, n);
    let inner = interior(all);
    let (a, b) = (left.offset, right.offset);
    lemma_unit(a);
    lemma_unit(b);
    lemma_number_order(a, b);
    lemma_number_order(b, a);
    lemma_difference_error(b, a);
    let span = b.minus(a);
    lemma_number(span);
    Binary32::lemma_constants(span);
    assert(Binary32::zero().below(span));
    assert(chain.segment_stops(start, end, premultiplied) == inner);
    let made = filtered_segment(chain, left, right, premultiplied);
    assert(made.len() == inner.len() + 2);
    lemma_bounded_vector(left.color, premultiplied);
    lemma_bounded_vector(right.color, premultiplied);
    lemma_stage_ends(ms, ends, premultiplied, n);
    lemma_errors_are_not_negative(ms, weights, n);
    lemma_color_error_is_not_negative(ms, weights, n);
    lemma_product_sign(steepness(weights, n), 1real / 8388607real);
    lemma_number(Binary32::zero());
    let (xl, xr) = (number(a), number(b));
    assert(blend(xl, xr, 0real) == xl && blend(xl, xr, 1real) == xr);
    if i == 0 {
        assert(made[0] == chain.filtered_stop(left));
        lemma_end_of_ramp(chain, weights, left.color, left.color, right.color, premultiplied, 0);
    } else if i == inner.len() + 1 {
        assert(made[i] == chain.filtered_stop(right));
        assert(trimmed(all)[i] == all.last());
        lemma_end_of_ramp(
            chain,
            weights,
            right.color,
            left.color,
            right.color,
            premultiplied,
            all.len() - 1,
        );
    } else if 0 < i <= inner.len() {
        let stop = inner[i - 1];
        assert(trimmed(all)[i] == stop);
        assert(made[i] == chain.segment_ramp(left, right, premultiplied)[i - 1]);
        crate::laws::ramp::lemma_interior_is_part(all);
        crate::laws::ramp::lemma_interior_is_inside(all);
        lemma_stages_are_stops(ms, weights, start, end, premultiplied, n);
        assert(all.contains(stop));
        let k = choose|k: int| 0 <= k < all.len() && all[k] == stop;
        assert(is_stop(all[k], premultiplied));
        assert(crate::ramp::is_interior(stop.offset));
        crate::laws::crossings::lemma_inside(stop.offset);
        lemma_round_trip(stop.color, premultiplied);
        assert(made[i].offset == mix(a, b, stop.offset));
        lemma_mix_error(a, b, stop.offset, 1real);
        crate::laws::offsets::law_interpolated_values_rise(a, b, stop.offset, stop.offset);
        lemma_number_order(a, made[i].offset);
        lemma_number_order(made[i].offset, b);
    }
}

/// An end of the filtered ramp is near the end of the segment as it was handed out.
proof fn lemma_end_of_ramp(
    chain: ColorMatrixChain,
    weights: Seq<real>,
    color: Color,
    left: Color,
    right: Color,
    premultiplied: bool,
    k: int,
)
    requires
        are_weighed(chain.matrices(), weights, chain.matrices().len()),
        forall|i: int|
            0 <= i < chain.matrices().len() ==> leaves_alpha(#[trigger] chain.matrices()[i]),
        premultiplied ==> chain.keeps_alpha_out(),
        is_unit_color(left),
        is_unit_color(right),
        ({
            let all = stages(
                chain.matrices(),
                segment_ends(to_vector(left, premultiplied), to_vector(right, premultiplied)),
                premultiplied,
                chain.matrices().len(),
            );
            &&& all.len() > 1
            &&& (k == 0 && color == left) || (k == all.len() - 1 && color == right)
        }),
    ensures
        ({
            let n = chain.matrices().len();
            let all = stages(
                chain.matrices(),
                segment_ends(to_vector(left, premultiplied), to_vector(right, premultiplied)),
                premultiplied,
                n,
            );
            is_close(
                vector(to_vector(chain.apply(color), premultiplied)),
                vector(all[k].color),
                end_error(weights, n) + segment_error(weights, n),
            )
        }),
{
    let ms = chain.matrices();
    let n = ms.len();
    let (start, end) = (to_vector(left, premultiplied), to_vector(right, premultiplied));
    let ends = segment_ends(start, end);
    let all = stages(ms, ends, premultiplied, n);
    lemma_bounded_vector(left, premultiplied);
    lemma_bounded_vector(right, premultiplied);
    lemma_stage_ends(ms, ends, premultiplied, n);
    lemma_number(Binary32::zero());
    lemma_filtered_end(chain, weights, color, premultiplied);
    lemma_at_a_stop(all, k);
    let x = number(all[k].offset);
    lemma_stages_are_near(
        ms,
        weights,
        start,
        end,
        premultiplied,
        n,
        x,
        vector(all[k].color),
    );
    lemma_at_a_stop(ends, if k == 0 {
        0
    } else {
        1
    });
    let (va, vb) = (vector(start), vector(end));
    let v = blended(va, vb, x);
    assert(v == vector(to_vector(color, premultiplied))) by {
        if k == 0 {
            assert(x == 0real);
            lemma_blended_ends(va, vb);
        } else {
            assert(x == 1real);
            lemma_blended_ends(va, vb);
        }
    }
    let f = filtered_at(ms, start, end, premultiplied, n, x);
    let w = vector(to_vector(chain.apply(color), premultiplied));
    let u = vector(all[k].color);
    lemma_close_chain(u, f, f, segment_error(weights, n), 0real);
    lemma_close_chain(w, f, u, end_error(weights, n), segment_error(weights, n));
}

proof fn lemma_blended_ends(v: Vector, w: Vector)
    ensures
        blended(v, w, 0real) == v,
        blended(v, w, 1real) == w,
{
    assert(blend(v.r, w.r, 0real) == v.r && blend(v.r, w.r, 1real) == w.r);
    assert(blend(v.g, w.g, 0real) == v.g && blend(v.g, w.g, 1real) == w.g);
    assert(blend(v.b, w.b, 0real) == v.b && blend(v.b, w.b, 1real) == w.b);
    assert(blend(v.a, w.a, 0real) == v.a && blend(v.a, w.a, 1real) == w.a);
}

/// The position within a segment that is at a distance along it.
proof fn lemma_position(xl: real, xr: real, x: real) -> (s: real)
    requires
        xl < xr,
        xl <= x <= xr,
    ensures
        0real <= s <= 1real,
        x == blend(xl, xr, s),
{
    let w = xr - xl;
    let s = (x - xl) / w;
    lemma_quotient(x - xl, w);
    lemma_cancels(s, 0real, w);
    lemma_cancels(1real, s, w);
    lemma_product_of_one(w);
    assert(0real * w == 0real);
    s
}

/// Positions that are as far apart as rounding puts them.
proof fn lemma_apart(xl: real, xr: real, s: real, t: real)
    requires
        xl < xr,
        16777215real * size(blend(xl, xr, s) - blend(xl, xr, t)) <= 8real,
    ensures
        size(s - t) <= 8real / 16777215real / (xr - xl),
{
    let w = xr - xl;
    let e = 8real / 16777215real;
    let q = e / w;
    lemma_quotient(e, w);
    lemma_common_factor(s, t, w);
    lemma_size_of_product(s - t, w);
    if size(s - t) > q {
        lemma_cancels(q, size(s - t), w);
    }
}

/// A filtered ramp is near the filter of each pixel: whatever vector `w` it has at a position of an
/// authored segment, that is what the chain makes of the vector that the authored ramp has there,
/// up to [`ramp_error`], which is made of what rounding, and leaving out breakpoints within `1e-6`
/// of an end or of another, can add up to. This is in the arithmetic that is painted with.
pub proof fn law_filtered_ramps_are_near_the_filter_of_each_pixel(
    chain: ColorMatrixChain,
    weights: Seq<real>,
    left: ColorStop,
    right: ColorStop,
    premultiplied: bool,
    x: real,
    w: Vector,
)
    requires
        is_filtered_nearly(chain, weights, left, right, premultiplied),
        has_at(
            vectors(filtered_segment(chain, left, right, premultiplied), premultiplied),
            x,
            w,
        ),
    ensures
        exists|v: Vector|
            (#[trigger] has_at(vectors(authored_segment(left, right), premultiplied), x, v))
                && is_close(
                w,
                filtered_by_all(chain.matrices(), v, premultiplied, chain.matrices().len()),
                ramp_error(
                    weights,
                    chain.matrices().len(),
                    number(right.offset) - number(left.offset),
                ),
            ),
{
    let start = to_vector(left.color, premultiplied);
    let end = to_vector(right.color, premultiplied);
    let ms = chain.matrices();
    let n = ms.len();
    let ends = segment_ends(start, end);
    let all = stages(ms, ends, premultiplied, n);
    let cut = trimmed(all);
    let list = vectors(filtered_segment(chain, left, right, premultiplied), premultiplied);
    let (i, t) = choose|i: int, t: real| #[trigger] has_between(list, i, t, x, w);
    lemma_ramp_stop(chain, weights, left, right, premultiplied, i);
    lemma_ramp_stop(chain, weights, left, right, premultiplied, i + 1);
    lemma_bounded_vector(left.color, premultiplied);
    lemma_bounded_vector(right.color, premultiplied);
    lemma_number_order(left.offset, right.offset);
    lemma_number_order(right.offset, left.offset);
    let (xl, xr) = (number(left.offset), number(right.offset));
    let (s0, s1) = (number(cut[i].offset), number(cut[i + 1].offset));
    let (x0, x1) = (number(list[i].offset), number(list[i + 1].offset));
    let y = blend(s0, s1, t);
    let e = end_error(weights, n) + segment_error(weights, n) + 1real / 4194303real;
    let u = blended(vector(cut[i].color), vector(cut[i + 1].color), t);
    lemma_close_blended(
        vector(list[i].color),
        vector(list[i + 1].color),
        vector(cut[i].color),
        vector(cut[i + 1].color),
        t,
        e,
    );
    assert(has_between(cut, i, t, y, u));
    lemma_trimmed_is_near(ms, weights, start, end, premultiplied, n, y, u);
    // The position on the authored segment.
    lemma_close_blends(
        x0,
        x1,
        blend(xl, xr, s0),
        blend(xl, xr, s1),
        t,
        8real / 16777215real,
    );
    lemma_blend_twice(xl, xr, s0, s1, t);
    lemma_between(x0, x1, xl, xr, t);
    let s = lemma_position(xl, xr, x);
    lemma_apart(xl, xr, y, s);
    let d = 8real / 16777215real / (xr - xl);
    lemma_filtered_at_is_steady(ms, weights, start, end, premultiplied, n, y, s, d);
    let v = blended(vector(start), vector(end), s);
    assert(has_between(vectors(authored_segment(left, right), premultiplied), 0, s, x, v));
    let (fy, fs) = (
        filtered_at(ms, start, end, premultiplied, n, y),
        filtered_at(ms, start, end, premultiplied, n, s),
    );
    lemma_close_chain(w, u, fy, e, trimmed_error(weights, n));
    lemma_close_chain(w, fy, fs, e + trimmed_error(weights, n), steepness(weights, n) * d);
    assert(has_at(vectors(authored_segment(left, right), premultiplied), x, v));
}

proof fn lemma_between(a: real, b: real, low: real, high: real, t: real)
    requires
        low <= a <= high,
        low <= b <= high,
        0real <= t <= 1real,
    ensures
        low <= blend(a, b, t) <= high,
{
    if a <= b {
        crate::laws::exact::lemma_blend_between(a, b, t);
    } else {
        crate::laws::stability::lemma_blend_reversed(a, b, t);
        crate::laws::exact::lemma_blend_between(b, a, 1real - t);
    }
}

/// Errors are not above what the number of matrices and their steepness come to.
proof fn lemma_closed_errors(matrices: Seq<ColorMatrix>, weights: Seq<real>, n: nat)
    requires
        are_weighed(matrices, weights, n),
    ensures
        1000000real * segment_error(weights, n) <= 41real * (n as real * steepness(weights, n)),
        16777215real * color_error(weights, n) <= 8real * (n as real * steepness(weights, n)),
    decreases n,
{
    let p = steepness(weights, n);
    if n == 0 {
        assert(0nat as real * p == 0real);
    } else {
        let m = (n - 1) as nat;
        lemma_closed_errors(matrices, weights, m);
        lemma_errors_are_not_negative(matrices, weights, m);
        assert(is_matrix_within(matrices[m as int], weights[m as int]));
        let k = weights[m as int];
        let q = steepness(weights, m);
        let e = segment_error(weights, m);
        let c = color_error(weights, m);
        let mr = m as real;
        let h = 8real / 16777215real;
        assert(n as real == mr + 1real);
        lemma_common_factor(mr, 1real, p);
        lemma_product_of_one(p);
        // k * (m * q) == m * (k * q)
        lemma_regrouped(mr, k, q);
        lemma_ordered_products(k, 1000000real * e, 41real * (mr * q));
        lemma_regrouped(1000000real, k, e);
        lemma_regrouped(41real, k, mr * q);
        lemma_ordered_products(k, 16777215real * c, 8real * (mr * q));
        lemma_regrouped(16777215real, k, c);
        lemma_regrouped(8real, k, mr * q);
        lemma_distributes(k, e, q * h);
        lemma_commutes(q, h);
        lemma_regrouped(h, k, q);
        assert(k * (q * h) == h * p);
        assert(16777215real * (h * p) == 8real * p) by {
            lemma_regrouped(16777215real, h, p);
        }
        // A weight is not above the steepness that it is part of.
        lemma_ordered_products(k, 1real, q);
        lemma_product_of_one(k);
        assert(k <= p);
    }
}

/// Whether no component of a vector is a step and a half of 255 away from that of another.
pub open spec fn is_within_a_step_and_a_half(v: Vector, w: Vector) -> bool {
    &&& 255real * size(v.r - w.r) < 3real / 2real
    &&& 255real * size(v.g - w.g) < 3real / 2real
    &&& 255real * size(v.b - w.b) < 3real / 2real
    &&& 255real * size(v.a - w.a) < 3real / 2real
}

/// Whether a chain is moderate: what the coefficients of its matrices can make of a difference,
/// times the number of matrices, is not above 28.
pub open spec fn is_moderate(chain: ColorMatrixChain, weights: Seq<real>) -> bool {
    let n = chain.matrices().len();
    n as real * steepness(weights, n) <= 28real
}

/// A moderate chain leaves an error of less than a step and a half on a segment that is at least
/// one part in 64 wide.
pub proof fn law_moderate_chains_leave_less_than_a_step_and_a_half(
    chain: ColorMatrixChain,
    weights: Seq<real>,
    width: real,
)
    requires
        are_weighed(chain.matrices(), weights, chain.matrices().len()),
        is_moderate(chain, weights),
        64real * width >= 1real,
    ensures
        255real * ramp_error(weights, chain.matrices().len(), width) < 3real / 2real,
{
    let n = chain.matrices().len();
    let p = steepness(weights, n);
    lemma_closed_errors(chain.matrices(), weights, n);
    lemma_errors_are_not_negative(chain.matrices(), weights, n);
    let t = n as real * p;
    assert(p <= 28real) by {
        if n > 0 {
            lemma_ordered_products(p, 1real, n as real);
            lemma_commutes(p, n as real);
            lemma_product_of_one(p);
        }
    }
    let h = 8real / 16777215real;
    let q = h / width;
    lemma_quotient(h, width);
    if q > 64real * h {
        lemma_cancels(64real * h, q, width);
        lemma_commutes(64real * h, width);
        lemma_regrouped(64real, width, h);
        lemma_commutes(width, h);
        lemma_ordered_products(h, 1real, 64real * width);
        lemma_regrouped(64real, h, width);
        lemma_product_of_one(h);
    }
    let (a, b) = (1real / 8388607real, 1real / 900000real);
    lemma_ordered_products(p, q, 64real * h);
    lemma_constant_product(p, 64real * h);
    lemma_constant_product(p, a);
    lemma_constant_product(p, b);
}

proof fn lemma_constant_product(p: real, c: real)
    requires
        0real <= p <= 28real,
        c >= 0real,
    ensures
        p * c <= 28real * c,
{
    lemma_ordered_products(c, p, 28real);
    lemma_commutes(c, p);
    lemma_commutes(c, 28real);
}

/// Interpolating a filtered gradient is filtering what the authored gradient interpolates to, to
/// within a step and a half of 255 in every component: whatever vector `w` the filtered gradient
/// has at a position between authored stops `n` and `n + 1`, the chain makes of the vector that the
/// authored gradient has there one that is no further from it. This is in the arithmetic that is
/// painted with, wherever rounding and the breakpoints that are left out within `1e-6` of an end or
/// of another add up to no more, as they do for every moderate chain.
pub proof fn law_filtered_gradients_are_within_a_step_and_a_half(
    chain: ColorMatrixChain,
    weights: Seq<real>,
    gradient: Gradient,
    n: nat,
    x: real,
    w: Vector,
)
    requires
        chain.is_exact_for(gradient),
        n + 1 < gradient.ramp().len(),
        is_filtered_nearly(
            chain,
            weights,
            gradient.ramp()[n as int],
            gradient.ramp()[(n + 1) as int],
            gradient.premultiplied,
        ),
        255real * ramp_error(
            weights,
            chain.matrices().len(),
            number(gradient.ramp()[(n + 1) as int].offset) - number(
                gradient.ramp()[n as int].offset,
            ),
        ) < 3real / 2real,
        ({
            let source = gradient.ramp();
            let premultiplied = gradient.premultiplied;
            let from = crate::laws::ramp::place_of_stop(chain, source, premultiplied, n);
            let to = crate::laws::ramp::place_of_stop(chain, source, premultiplied, n + 1);
            has_at(
                vectors(chain.filtered_ramp(gradient).subrange(from, to + 1), premultiplied),
                x,
                w,
            )
        }),
    ensures
        ({
            let source = gradient.ramp();
            let authored = authored_segment(source[n as int], source[(n + 1) as int]);
            exists|v: Vector|
                (#[trigger] has_at(vectors(authored, gradient.premultiplied), x, v))
                    && is_within_a_step_and_a_half(
                    w,
                    filtered_by_all(
                        chain.matrices(),
                        v,
                        gradient.premultiplied,
                        chain.matrices().len(),
                    ),
                )
        }),
{
    let source = gradient.ramp();
    let premultiplied = gradient.premultiplied;
    let (left, right) = (source[n as int], source[(n + 1) as int]);
    crate::laws::segment::law_filtered_ramps_are_made_of_filtered_segments(chain, gradient, n);
    law_filtered_ramps_are_near_the_filter_of_each_pixel(
        chain,
        weights,
        left,
        right,
        premultiplied,
        x,
        w,
    );
    let width = number(right.offset) - number(left.offset);
    let e = ramp_error(weights, chain.matrices().len(), width);
    let v = choose|v: Vector|
        (#[trigger] has_at(vectors(authored_segment(left, right), premultiplied), x, v))
            && is_close(
            w,
            filtered_by_all(chain.matrices(), v, premultiplied, chain.matrices().len()),
            e,
        );
    assert(is_within_a_step_and_a_half(
        w,
        filtered_by_all(chain.matrices(), v, premultiplied, chain.matrices().len()),
    ));
}

} // verus!
