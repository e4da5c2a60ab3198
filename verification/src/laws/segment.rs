//! A filtered segment of a ramp is what the filter makes of each pixel of the segment, in exact
//! arithmetic.

use crate::color::Color;
use crate::color_matrix::{ColorMatrix, ColorMatrixChain};
use crate::ieee::Binary32;
use crate::laws::exact::{
    blend, blended, changes_sign, clamped, filtered_by, filtered_by_all, lemma_blend_between,
    lemma_blend_twice, lemma_clamp_is_exact, lemma_clamping_blends, lemma_number,
    lemma_number_order, lemma_root, number, transformed, upper_bound, vector, Vector,
};
use crate::laws::ramp::{is_represented, rises};
use crate::ramp::{
    breakpoints, channel_bound, channel_crossings, crossing, crossing_stop, crossings, epsilon,
    interior, is_interior, is_same_place, mapped, mix, mix_vectors, piece_stops, pieces_stops,
    segment_ends, stage_stops, stages, stays_within_limit, ColorStop,
};
use vstd::prelude::*;

verus! {

/// Whether the ramp that a list of stops describes has the vector `v` at the position `x`.
pub open spec fn has_at(list: Seq<ColorStop>, x: real, v: Vector) -> bool {
    exists|i: int, t: real| #[trigger] has_between(list, i, t, x, v)
}

/// Whether the position `x` is at `t` of the way from stop `i` to the next, and `v` the vector
/// there.
pub open spec fn has_between(list: Seq<ColorStop>, i: int, t: real, x: real, v: Vector) -> bool {
    &&& 0 <= i < list.len() - 1
    &&& 0real <= t <= 1real
    &&& x == blend(number(list[i].offset), number(list[i + 1].offset), t)
    &&& v == blended(vector(list[i].color), vector(list[i + 1].color), t)
}

/// Whether nothing is rounded where a stop is put at `s` of the way from `qa` to `qb`.
pub open spec fn is_put_exactly(
    s: Binary32,
    qa: Color,
    qb: Color,
    left: Binary32,
    right: Binary32,
) -> bool {
    &&& mix_vectors(qa, qb, s).finite()
    &&& vector(mix_vectors(qa, qb, s)) == blended(vector(qa), vector(qb), number(s))
    &&& number(mix(left, right, s)) == blend(number(left), number(right), number(s))
}

/// Whether nothing is rounded where a channel that goes from `a` to `b` is held against a bound
/// that goes from `ua` to `ub`, and it does not pass through the bound within `1e-6` of an end
/// or so flatly that it is not looked for.
pub open spec fn is_crossed_exactly(
    a: Binary32,
    ua: Binary32,
    b: Binary32,
    ub: Binary32,
    qa: Color,
    qb: Color,
    left: Binary32,
    right: Binary32,
) -> bool {
    let (fa, fb) = (a.minus(ua), b.minus(ub));
    let delta = fa.minus(fb);
    let s = fa.over(delta);
    &&& fa.finite() && fb.finite()
    &&& number(fa) == number(a) - number(ua)
    &&& number(fb) == number(b) - number(ub)
    &&& changes_sign(number(fa), number(fb)) ==> {
        &&& !delta.magnitude().at_most(epsilon())
        &&& is_interior(s)
        &&& number(s) * (number(fa) - number(fb)) == number(fa)
    }
    &&& crossing(fa, fb) matches Some(s) ==> is_put_exactly(s, qa, qb, left, right)
}

/// The same, for both bounds of a channel.
pub open spec fn is_channel_exact(
    a: Binary32,
    b: Binary32,
    qa: Color,
    qb: Color,
    left: Binary32,
    right: Binary32,
    premultiplied: bool,
) -> bool {
    let zero = Binary32::zero();
    &&& is_crossed_exactly(a, zero, b, zero, qa, qb, left, right)
    &&& is_crossed_exactly(
        a,
        channel_bound(qa, premultiplied),
        b,
        channel_bound(qb, premultiplied),
        qa,
        qb,
        left,
        right,
    )
}

/// Whether crossings that are too close to be two are one.
pub open spec fn are_apart(found: Seq<ColorStop>) -> bool {
    forall|i: int, j: int|
        0 <= i < found.len() && 0 <= j < found.len() && is_same_place(
            (#[trigger] found[i]).offset,
            (#[trigger] found[j]).offset,
        ) ==> number(found[i].offset) == number(found[j].offset)
}

/// Whether nothing is rounded where a matrix is applied to a piece of a segment, and no crossing
/// is left out for being within `1e-6` of an end or of another.
pub open spec fn is_piece_exact(
    matrix: ColorMatrix,
    left: ColorStop,
    right: ColorStop,
    premultiplied: bool,
) -> bool {
    let qa = matrix.apply_vector(left.color, premultiplied);
    let qb = matrix.apply_vector(right.color, premultiplied);
    &&& qa.finite() && qb.finite()
    &&& premultiplied ==> qa.a.value() >= 0 && qb.a.value() >= 0
    &&& vector(qa) == transformed(matrix, vector(left.color), premultiplied)
    &&& vector(qb) == transformed(matrix, vector(right.color), premultiplied)
    &&& is_channel_exact(qa.r, qb.r, qa, qb, left.offset, right.offset, premultiplied)
    &&& is_channel_exact(qa.g, qb.g, qa, qb, left.offset, right.offset, premultiplied)
    &&& is_channel_exact(qa.b, qb.b, qa, qb, left.offset, right.offset, premultiplied)
    &&& are_apart(crossings(qa, qb, premultiplied))
}

/// The same, for every piece of a segment.
pub open spec fn is_stage_exact(
    matrix: ColorMatrix,
    pieces: Seq<ColorStop>,
    premultiplied: bool,
) -> bool {
    forall|k: int|
        0 <= k < pieces.len() - 1 ==> is_piece_exact(
            matrix,
            #[trigger] pieces[k],
            pieces[k + 1],
            premultiplied,
        )
}

/// Whether every stop of a list is put exactly between the same ends.
spec fn are_put_exactly(
    list: Seq<ColorStop>,
    qa: Color,
    qb: Color,
    left: Binary32,
    right: Binary32,
) -> bool {
    forall|i: int|
        0 <= i < list.len() ==> (#[trigger] list[i]).color == mix_vectors(qa, qb, list[i].offset)
            && is_put_exactly(list[i].offset, qa, qb, left, right)
}

/// Whether a list has a stop where a value that goes from `fa` to `fb` passes through zero.
spec fn has_root(list: Seq<ColorStop>, fa: real, fb: real) -> bool {
    exists|i: int|
        0 <= i < list.len() && number((#[trigger] list[i]).offset) * (fa - fb) == fa
}

proof fn lemma_root_in_either(a: Seq<ColorStop>, b: Seq<ColorStop>, fa: real, fb: real)
    ensures
        has_root(a, fa, fb) || has_root(b, fa, fb) ==> has_root(a + b, fa, fb),
{
    if has_root(a, fa, fb) {
        let i = choose|i: int|
            0 <= i < a.len() && number((#[trigger] a[i]).offset) * (fa - fb) == fa;
        assert((a + b)[i] == a[i]);
    } else if has_root(b, fa, fb) {
        let i = choose|i: int|
            0 <= i < b.len() && number((#[trigger] b[i]).offset) * (fa - fb) == fa;
        assert((a + b)[a.len() + i] == b[i]);
    }
}

proof fn lemma_crossing_stop(
    a: Binary32,
    ua: Binary32,
    b: Binary32,
    ub: Binary32,
    qa: Color,
    qb: Color,
    left: Binary32,
    right: Binary32,
)
    requires
        is_crossed_exactly(a, ua, b, ub, qa, qb, left, right),
    ensures
        are_put_exactly(crossing_stop(a.minus(ua), b.minus(ub), qa, qb), qa, qb, left, right),
        changes_sign(number(a) - number(ua), number(b) - number(ub)) ==> has_root(
            crossing_stop(a.minus(ua), b.minus(ub), qa, qb),
            number(a) - number(ua),
            number(b) - number(ub),
        ),
{
    let (fa, fb) = (a.minus(ua), b.minus(ub));
    Binary32::lemma_constants(fa);
    lemma_number(fa);
    lemma_number(fb);
    if changes_sign(number(fa), number(fb)) {
        let list = crossing_stop(fa, fb, qa, qb);
        assert(list.len() == 1);
        assert(number(list[0].offset) * (number(fa) - number(fb)) == number(fa));
    }
}

proof fn lemma_channel_crossings(
    a: Binary32,
    b: Binary32,
    qa: Color,
    qb: Color,
    left: Binary32,
    right: Binary32,
    premultiplied: bool,
)
    requires
        is_channel_exact(a, b, qa, qb, left, right, premultiplied),
    ensures
        ({
            let list = channel_crossings(a, b, qa, qb, premultiplied);
            let (ua, ub) = (
                upper_bound(vector(qa), premultiplied),
                upper_bound(vector(qb), premultiplied),
            );
            &&& are_put_exactly(list, qa, qb, left, right)
            &&& changes_sign(number(a), number(b)) ==> has_root(list, number(a), number(b))
            &&& changes_sign(number(a) - ua, number(b) - ub) ==> has_root(
                list,
                number(a) - ua,
                number(b) - ub,
            )
        }),
{
    let zero = Binary32::zero();
    lemma_number(zero);
    let (ba, bb) = (channel_bound(qa, premultiplied), channel_bound(qb, premultiplied));
    lemma_crossing_stop(a, zero, b, zero, qa, qb, left, right);
    lemma_crossing_stop(a, ba, b, bb, qa, qb, left, right);
    let c0 = crossing_stop(a.minus(zero), b.minus(zero), qa, qb);
    let c1 = crossing_stop(a.minus(ba), b.minus(bb), qa, qb);
    lemma_root_in_either(c0, c1, number(a), number(b));
    lemma_root_in_either(c0, c1, number(a) - number(ba), number(b) - number(bb));
}

/// Whether a list has a stop wherever a channel passes through one of its bounds.
spec fn has_roots(list: Seq<ColorStop>, a: real, b: real, ua: real, ub: real) -> bool {
    &&& changes_sign(a, b) ==> has_root(list, a, b)
    &&& changes_sign(a - ua, b - ub) ==> has_root(list, a - ua, b - ub)
}

proof fn lemma_crossings(
    qa: Color,
    qb: Color,
    left: Binary32,
    right: Binary32,
    premultiplied: bool,
)
    requires
        is_channel_exact(qa.r, qb.r, qa, qb, left, right, premultiplied),
        is_channel_exact(qa.g, qb.g, qa, qb, left, right, premultiplied),
        is_channel_exact(qa.b, qb.b, qa, qb, left, right, premultiplied),
    ensures
        ({
            let list = crossings(qa, qb, premultiplied);
            let (va, vb) = (vector(qa), vector(qb));
            let (ua, ub) = (upper_bound(va, premultiplied), upper_bound(vb, premultiplied));
            &&& are_put_exactly(list, qa, qb, left, right)
            &&& has_roots(list, va.r, vb.r, ua, ub)
            &&& has_roots(list, va.g, vb.g, ua, ub)
            &&& has_roots(list, va.b, vb.b, ua, ub)
        }),
{
    let (va, vb) = (vector(qa), vector(qb));
    let (ua, ub) = (upper_bound(va, premultiplied), upper_bound(vb, premultiplied));
    let r = channel_crossings(qa.r, qb.r, qa, qb, premultiplied);
    let g = channel_crossings(qa.g, qb.g, qa, qb, premultiplied);
    let b = channel_crossings(qa.b, qb.b, qa, qb, premultiplied);
    lemma_channel_crossings(qa.r, qb.r, qa, qb, left, right, premultiplied);
    lemma_channel_crossings(qa.g, qb.g, qa, qb, left, right, premultiplied);
    lemma_channel_crossings(qa.b, qb.b, qa, qb, left, right, premultiplied);
    assert(crossings(qa, qb, premultiplied) == r + g + b);
    lemma_root_in_either(r, g, va.r, vb.r);
    lemma_root_in_either(r, g, va.r - ua, vb.r - ub);
    lemma_root_in_either(r + g, b, va.r, vb.r);
    lemma_root_in_either(r + g, b, va.r - ua, vb.r - ub);
    lemma_root_in_either(r, g, va.g, vb.g);
    lemma_root_in_either(r, g, va.g - ua, vb.g - ub);
    lemma_root_in_either(r + g, b, va.g, vb.g);
    lemma_root_in_either(r + g, b, va.g - ua, vb.g - ub);
    lemma_root_in_either(r + g, b, va.b, vb.b);
    lemma_root_in_either(r + g, b, va.b - ua, vb.b - ub);
}

/// A crossing that is found is at the place of a breakpoint that is kept.
proof fn lemma_root_is_kept(
    found: Seq<ColorStop>,
    kept: Seq<ColorStop>,
    fa: real,
    fb: real,
)
    requires
        are_apart(found),
        forall|i: int| 0 <= i < found.len() ==> is_represented(kept, #[trigger] found[i]),
        forall|j: int| 0 <= j < kept.len() ==> found.contains(#[trigger] kept[j]),
        has_root(found, fa, fb),
    ensures
        has_root(kept, fa, fb),
{
    let i = choose|i: int|
        0 <= i < found.len() && number((#[trigger] found[i]).offset) * (fa - fb) == fa;
    assert(is_represented(kept, found[i]));
    let j = choose|j: int|
        0 <= j < kept.len() && ((#[trigger] kept[j]) == found[i] || is_same_place(
            found[i].offset,
            kept[j].offset,
        ));
    assert(found.contains(kept[j]));
    let k = choose|k: int| 0 <= k < found.len() && found[k] == kept[j];
    assert(number(kept[j].offset) == number(found[i].offset)) by {
        if kept[j] != found[i] {
            assert(is_same_place(found[i].offset, found[k].offset));
        }
    }
}

/// Where stop `j` of a cut piece is within the piece, the right end counted.
pub open spec fn place_within(inner: Seq<ColorStop>, j: int) -> real {
    if j <= 0 {
        0real
    } else if j <= inner.len() {
        number(inner[j - 1].offset)
    } else {
        1real
    }
}

/// The places of the stops of a cut piece are in order.
pub proof fn lemma_places(inner: Seq<ColorStop>, j: int, k: int)
    requires
        rises(inner),
        forall|i: int| 0 <= i < inner.len() ==> is_interior((#[trigger] inner[i]).offset),
        j <= k,
    ensures
        0real <= place_within(inner, j) <= place_within(inner, k) <= 1real,
{
    let one = Binary32::one();
    if 1 <= j <= inner.len() {
        assert(is_interior(inner[j - 1].offset));
        crate::ramp::lemma_interior(inner[j - 1].offset);
        lemma_number(inner[j - 1].offset);
        Binary32::lemma_constants(one);
        lemma_number_order(inner[j - 1].offset, one);
    }
    if 1 <= k <= inner.len() {
        assert(is_interior(inner[k - 1].offset));
        crate::ramp::lemma_interior(inner[k - 1].offset);
        lemma_number(inner[k - 1].offset);
        Binary32::lemma_constants(one);
        lemma_number_order(inner[k - 1].offset, one);
    }
    if 1 <= j < k <= inner.len() {
        assert(inner[j - 1].offset.value() < inner[k - 1].offset.value());
        lemma_number_order(inner[j - 1].offset, inner[k - 1].offset);
    }
}

/// A piece under a matrix, cut at its breakpoints, with its right end.
pub open spec fn whole_piece(
    matrix: ColorMatrix,
    left: ColorStop,
    right: ColorStop,
    premultiplied: bool,
) -> Seq<ColorStop> {
    piece_stops(matrix, left, right, premultiplied).push(mapped(matrix, right, premultiplied))
}

proof fn lemma_blend_ends(a: real, b: real)
    ensures
        blend(a, b, 0real) == a,
        blend(a, b, 1real) == b,
{
}

/// Every stop of a cut piece is the clamped vector at its place.
proof fn lemma_whole_piece(
    matrix: ColorMatrix,
    left: ColorStop,
    right: ColorStop,
    premultiplied: bool,
    j: int,
)
    requires
        is_piece_exact(matrix, left, right, premultiplied),
        0 <= j < whole_piece(matrix, left, right, premultiplied).len(),
    ensures
        ({
            let qa = matrix.apply_vector(left.color, premultiplied);
            let qb = matrix.apply_vector(right.color, premultiplied);
            let s = place_within(breakpoints(qa, qb, premultiplied), j);
            let stop = whole_piece(matrix, left, right, premultiplied)[j];
            &&& number(stop.offset) == blend(number(left.offset), number(right.offset), s)
            &&& vector(stop.color) == clamped(blended(vector(qa), vector(qb), s), premultiplied)
        }),
{
    let qa = matrix.apply_vector(left.color, premultiplied);
    let qb = matrix.apply_vector(right.color, premultiplied);
    let (va, vb) = (vector(qa), vector(qb));
    let inner = breakpoints(qa, qb, premultiplied);
    let found = crossings(qa, qb, premultiplied);
    lemma_blend_ends(number(left.offset), number(right.offset));
    lemma_blend_ends(va.r, vb.r);
    lemma_blend_ends(va.g, vb.g);
    lemma_blend_ends(va.b, vb.b);
    lemma_blend_ends(va.a, vb.a);
    if j == 0 {
        lemma_clamp_is_exact(qa, premultiplied);
    } else if j > inner.len() {
        lemma_clamp_is_exact(qb, premultiplied);
    } else {
        lemma_crossings(qa, qb, left.offset, right.offset, premultiplied);
        crate::laws::ramp::law_every_crossing_has_a_breakpoint(qa, qb, premultiplied);
        crate::laws::ramp::law_breakpoints_rise(qa, qb, premultiplied);
        let stop = inner[j - 1];
        assert(found.contains(stop));
        let i = choose|i: int| 0 <= i < found.len() && found[i] == stop;
        assert(is_put_exactly(found[i].offset, qa, qb, left.offset, right.offset));
        let s = number(stop.offset);
        if premultiplied {
            lemma_places(inner, j, j);
            lemma_number(qa.a);
            lemma_number(qb.a);
            lemma_number(stop.color.a);
            if va.a <= vb.a {
                lemma_blend_between(va.a, vb.a, s);
            } else {
                lemma_blend_flipped(va.a, vb.a, s);
                lemma_blend_between(vb.a, va.a, 1real - s);
            }
        }
        lemma_clamp_is_exact(stop.color, premultiplied);
    }
}

proof fn lemma_blend_flipped(a: real, b: real, t: real)
    ensures
        blend(a, b, t) == blend(b, a, 1real - t),
{
    lemma_blend_ends(a, b);
    lemma_blend_twice(a, b, 1real, 0real, 1real - t);
    assert((1real - t) * (0real - 1real) == -(1real - t));
}

/// Between two neighbouring stops of a cut piece a channel passes through no bound.
proof fn lemma_no_sign_change(
    inner: Seq<ColorStop>,
    fa: real,
    fb: real,
    j: int,
)
    requires
        rises(inner),
        forall|i: int| 0 <= i < inner.len() ==> is_interior((#[trigger] inner[i]).offset),
        changes_sign(fa, fb) ==> has_root(inner, fa, fb),
        0 <= j <= inner.len(),
    ensures
        !changes_sign(
            blend(fa, fb, place_within(inner, j)),
            blend(fa, fb, place_within(inner, j + 1)),
        ),
{
    let (s0, s1) = (place_within(inner, j), place_within(inner, j + 1));
    lemma_places(inner, j, j + 1);
    if changes_sign(blend(fa, fb, s0), blend(fa, fb, s1)) {
        lemma_root(fa, fb, s0, s1, 0real);
        let i = choose|i: int|
            0 <= i < inner.len() && number((#[trigger] inner[i]).offset) * (fa - fb) == fa;
        let s = number(inner[i].offset);
        lemma_root(fa, fb, s0, s1, s);
        assert(s == place_within(inner, i + 1));
        if i + 1 <= j {
            lemma_places(inner, i + 1, j);
        } else {
            lemma_places(inner, j + 1, i + 1);
        }
    }
}

proof fn lemma_channel_between(
    inner: Seq<ColorStop>,
    a: real,
    b: real,
    ua: real,
    ub: real,
    j: int,
    t: real,
)
    requires
        rises(inner),
        forall|i: int| 0 <= i < inner.len() ==> is_interior((#[trigger] inner[i]).offset),
        has_roots(inner, a, b, ua, ub),
        0real <= ua,
        0real <= ub,
        0 <= j <= inner.len(),
        0real <= t <= 1real,
    ensures
        ({
            let (s0, s1) = (place_within(inner, j), place_within(inner, j + 1));
            let s = blend(s0, s1, t);
            crate::laws::exact::clamped_to(blend(a, b, s), blend(ua, ub, s)) == blend(
                crate::laws::exact::clamped_to(blend(a, b, s0), blend(ua, ub, s0)),
                crate::laws::exact::clamped_to(blend(a, b, s1), blend(ua, ub, s1)),
                t,
            )
        }),
{
    let (s0, s1) = (place_within(inner, j), place_within(inner, j + 1));
    lemma_places(inner, j, j + 1);
    lemma_no_sign_change(inner, a, b, j);
    lemma_no_sign_change(inner, a - ua, b - ub, j);
    lemma_blend_difference(a, b, ua, ub, s0);
    lemma_blend_difference(a, b, ua, ub, s1);
    lemma_blend_not_negative(ua, ub, s0);
    lemma_blend_not_negative(ua, ub, s1);
    lemma_clamping_blends(
        blend(a, b, s0),
        blend(a, b, s1),
        blend(ua, ub, s0),
        blend(ua, ub, s1),
        t,
    );
    lemma_blend_twice(a, b, s0, s1, t);
    lemma_blend_twice(ua, ub, s0, s1, t);
}

proof fn lemma_blend_not_negative(a: real, b: real, t: real)
    requires
        0real <= a,
        0real <= b,
        0real <= t <= 1real,
    ensures
        0real <= blend(a, b, t),
{
    if a <= b {
        lemma_blend_between(a, b, t);
    } else {
        lemma_blend_flipped(a, b, t);
        lemma_blend_between(b, a, 1real - t);
    }
}

proof fn lemma_blend_difference(a: real, b: real, c: real, d: real, t: real)
    ensures
        blend(a, b, t) - blend(c, d, t) == blend(a - c, b - d, t),
{
    crate::laws::exact::lemma_blend_sum(a - c, b - d, c, d, t);
}

/// On a piece, the ramp through its cut stops is what the filter makes of the piece.
proof fn lemma_piece(
    matrix: ColorMatrix,
    left: ColorStop,
    right: ColorStop,
    premultiplied: bool,
    j: int,
    t: real,
) -> (s: real)
    requires
        is_piece_exact(matrix, left, right, premultiplied),
        0 <= j < whole_piece(matrix, left, right, premultiplied).len() - 1,
        0real <= t <= 1real,
    ensures
        0real <= s <= 1real,
        ({
            let stops = whole_piece(matrix, left, right, premultiplied);
            let v = blended(vector(left.color), vector(right.color), s);
            &&& blend(number(stops[j].offset), number(stops[j + 1].offset), t) == blend(
                number(left.offset),
                number(right.offset),
                s,
            )
            &&& blended(vector(stops[j].color), vector(stops[j + 1].color), t) == filtered_by(
                matrix,
                v,
                premultiplied,
            )
        }),
{
    let qa = matrix.apply_vector(left.color, premultiplied);
    let qb = matrix.apply_vector(right.color, premultiplied);
    let (va, vb) = (vector(qa), vector(qb));
    let (ua, ub) = (upper_bound(va, premultiplied), upper_bound(vb, premultiplied));
    let inner = breakpoints(qa, qb, premultiplied);
    let found = crossings(qa, qb, premultiplied);
    let (s0, s1) = (place_within(inner, j), place_within(inner, j + 1));
    let s = blend(s0, s1, t);
    lemma_crossings(qa, qb, left.offset, right.offset, premultiplied);
    crate::laws::ramp::law_every_crossing_has_a_breakpoint(qa, qb, premultiplied);
    crate::laws::ramp::law_breakpoints_rise(qa, qb, premultiplied);
    lemma_places(inner, j, j + 1);
    lemma_blend_between(s0, s1, t);
    lemma_whole_piece(matrix, left, right, premultiplied, j);
    lemma_whole_piece(matrix, left, right, premultiplied, j + 1);
    lemma_blend_twice(number(left.offset), number(right.offset), s0, s1, t);
    lemma_blend_twice(va.a, vb.a, s0, s1, t);
    lemma_number(qa.a);
    lemma_number(qb.a);
    lemma_roots_are_kept(found, inner, va.r, vb.r, ua, ub);
    lemma_roots_are_kept(found, inner, va.g, vb.g, ua, ub);
    lemma_roots_are_kept(found, inner, va.b, vb.b, ua, ub);
    lemma_channel_between(inner, va.r, vb.r, ua, ub, j, t);
    lemma_channel_between(inner, va.g, vb.g, ua, ub, j, t);
    lemma_channel_between(inner, va.b, vb.b, ua, ub, j, t);
    crate::laws::exact::law_transforming_commutes_with_interpolation(
        matrix,
        vector(left.color),
        vector(right.color),
        s,
        premultiplied,
    );
    if !premultiplied {
        lemma_blend_constant(1real, s0);
        lemma_blend_constant(1real, s1);
        lemma_blend_constant(1real, s);
    }
    s
}

proof fn lemma_blend_constant(a: real, t: real)
    ensures
        blend(a, a, t) == a,
{
    assert(a - a == 0real);
}

proof fn lemma_roots_are_kept(
    found: Seq<ColorStop>,
    kept: Seq<ColorStop>,
    a: real,
    b: real,
    ua: real,
    ub: real,
)
    requires
        are_apart(found),
        forall|i: int| 0 <= i < found.len() ==> is_represented(kept, #[trigger] found[i]),
        forall|j: int| 0 <= j < kept.len() ==> found.contains(#[trigger] kept[j]),
        has_roots(found, a, b, ua, ub),
    ensures
        has_roots(kept, a, b, ua, ub),
{
    if changes_sign(a, b) {
        lemma_root_is_kept(found, kept, a, b);
    }
    if changes_sign(a - ua, b - ub) {
        lemma_root_is_kept(found, kept, a - ua, b - ub);
    }
}

/// Two neighbouring stops of a segment under a matrix are neighbours on one of its pieces.
pub proof fn lemma_neighbours(
    matrix: ColorMatrix,
    pieces: Seq<ColorStop>,
    premultiplied: bool,
    n: nat,
    i: int,
) -> (r: (int, int))
    requires
        n < pieces.len(),
        0 <= i < pieces_stops(matrix, pieces, premultiplied, n).len(),
    ensures
        ({
            let all = pieces_stops(matrix, pieces, premultiplied, n).push(
                mapped(matrix, pieces[n as int], premultiplied),
            );
            let (k, j) = r;
            let stops = whole_piece(matrix, pieces[k], pieces[k + 1], premultiplied);
            &&& 0 <= k < n
            &&& 0 <= j < stops.len() - 1
            &&& all[i] == stops[j]
            &&& all[i + 1] == stops[j + 1]
        }),
    decreases n,
{
    let k = n - 1;
    let earlier = pieces_stops(matrix, pieces, premultiplied, k as nat);
    if i < earlier.len() {
        lemma_neighbours(matrix, pieces, premultiplied, k as nat, i)
    } else {
        (k, i - earlier.len())
    }
}

/// The ramp that a matrix makes of a segment is what the filter makes of the segment.
proof fn lemma_stage(
    matrix: ColorMatrix,
    pieces: Seq<ColorStop>,
    premultiplied: bool,
    x: real,
    w: Vector,
) -> (v: Vector)
    requires
        pieces.len() > 0,
        is_stage_exact(matrix, pieces, premultiplied),
        has_at(stage_stops(matrix, pieces, premultiplied), x, w),
    ensures
        has_at(pieces, x, v),
        w == filtered_by(matrix, v, premultiplied),
{
    let all = stage_stops(matrix, pieces, premultiplied);
    let (i, t) = choose|i: int, t: real| #[trigger] has_between(all, i, t, x, w);
    let n = (pieces.len() - 1) as nat;
    let (k, j) = lemma_neighbours(matrix, pieces, premultiplied, n, i);
    assert(is_piece_exact(matrix, pieces[k], pieces[k + 1], premultiplied));
    let s = lemma_piece(matrix, pieces[k], pieces[k + 1], premultiplied, j, t);
    let v = blended(vector(pieces[k].color), vector(pieces[k + 1].color), s);
    assert(has_between(pieces, k, s, x, v));
    v
}

/// Whether nothing is rounded where the matrices of a chain are walked over a segment, and no
/// crossing is left out for being within `1e-6` of an end of its piece or of another crossing.
pub open spec fn is_segment_exact(
    matrices: Seq<ColorMatrix>,
    ends: Seq<ColorStop>,
    premultiplied: bool,
    n: nat,
) -> bool {
    forall|k: nat|
        k < n ==> is_stage_exact(
            matrices[k as int],
            #[trigger] stages(matrices, ends, premultiplied, k),
            premultiplied,
        )
}

proof fn lemma_stages(
    matrices: Seq<ColorMatrix>,
    ends: Seq<ColorStop>,
    premultiplied: bool,
    n: nat,
    x: real,
    w: Vector,
) -> (v: Vector)
    requires
        ends.len() > 0,
        is_segment_exact(matrices, ends, premultiplied, n),
        has_at(stages(matrices, ends, premultiplied, n), x, w),
    ensures
        has_at(ends, x, v),
        w == filtered_by_all(matrices, v, premultiplied, n),
    decreases n,
{
    if n == 0 {
        w
    } else {
        let k = (n - 1) as nat;
        let before = stages(matrices, ends, premultiplied, k);
        lemma_stage_ends(matrices, ends, premultiplied, k);
        let u = lemma_stage(matrices[k as int], before, premultiplied, x, w);
        lemma_stages(matrices, ends, premultiplied, k, x, u)
    }
}

proof fn lemma_pieces_begin(
    matrix: ColorMatrix,
    pieces: Seq<ColorStop>,
    premultiplied: bool,
    n: nat,
)
    requires
        0 < n < pieces.len(),
    ensures
        pieces_stops(matrix, pieces, premultiplied, n).len() > 0,
        pieces_stops(matrix, pieces, premultiplied, n)[0] == mapped(
            matrix,
            pieces[0],
            premultiplied,
        ),
    decreases n,
{
    let k = (n - 1) as nat;
    if k > 0 {
        lemma_pieces_begin(matrix, pieces, premultiplied, k);
    } else {
        assert(pieces_stops(matrix, pieces, premultiplied, 0).len() == 0);
    }
}

/// A segment keeps the positions of its ends.
pub proof fn lemma_stage_ends(
    matrices: Seq<ColorMatrix>,
    ends: Seq<ColorStop>,
    premultiplied: bool,
    n: nat,
)
    requires
        ends.len() > 0,
    ensures
        ({
            let all = stages(matrices, ends, premultiplied, n);
            &&& all.len() > 0
            &&& ends.len() > 1 ==> all.len() > 1
            &&& all[0].offset == ends[0].offset
            &&& all.last().offset == ends.last().offset
        }),
    decreases n,
{
    if n > 0 {
        let k = (n - 1) as nat;
        lemma_stage_ends(matrices, ends, premultiplied, k);
        let before = stages(matrices, ends, premultiplied, k);
        if before.len() > 1 {
            lemma_pieces_begin(
                matrices[k as int],
                before,
                premultiplied,
                (before.len() - 1) as nat,
            );
        }
    }
}

/// The stops of a chain's last matrix, within one segment, describe what the filter makes of
/// each pixel of the segment: at every position the vector there is the filtered vector of the
/// position. This is in exact arithmetic, and leaves out crossings within `1e-6` of an end.
pub proof fn law_segments_are_filtered_per_pixel(
    matrices: Seq<ColorMatrix>,
    start: Color,
    end: Color,
    premultiplied: bool,
    x: real,
    w: Vector,
)
    requires
        is_segment_exact(matrices, segment_ends(start, end), premultiplied, matrices.len()),
        has_at(
            stages(matrices, segment_ends(start, end), premultiplied, matrices.len()),
            x,
            w,
        ),
    ensures
        0real <= x <= 1real,
        w == filtered_by_all(
            matrices,
            blended(vector(start), vector(end), x),
            premultiplied,
            matrices.len(),
        ),
{
    let ends = segment_ends(start, end);
    let v = lemma_stages(matrices, ends, premultiplied, matrices.len(), x, w);
    let (i, t) = choose|i: int, t: real| #[trigger] has_between(ends, i, t, x, v);
    lemma_number(Binary32::zero());
    assert(i == 0);
    crate::laws::reals::lemma_product_of_one(t);
    assert(1real - 0real == 1real);
    assert(x == t);
}

/// A ramp has a vector at every position between its ends.
pub proof fn lemma_covered(list: Seq<ColorStop>, x: real) -> (v: Vector)
    requires
        list.len() > 1,
        number(list[0].offset) <= x <= number(list.last().offset),
    ensures
        has_at(list, x, v),
    decreases list.len(),
{
    let n = list.len() - 2;
    let (a, b) = (number(list[n].offset), number(list[n + 1].offset));
    if n > 0 && x <= a {
        let short = list.drop_last();
        let v = lemma_covered(short, x);
        let (i, t) = choose|i: int, t: real| #[trigger] has_between(short, i, t, x, v);
        assert(has_between(list, i, t, x, v));
        v
    } else {
        let t = if a == b {
            0real
        } else {
            (x - a) / (b - a)
        };
        if a != b {
            crate::laws::reals::lemma_quotient(x - a, b - a);
            crate::laws::reals::lemma_cancels(t, 0real, b - a);
            crate::laws::reals::lemma_cancels(1real, t, b - a);
        }
        let v = blended(vector(list[n].color), vector(list[n + 1].color), t);
        assert(has_between(list, n, t, x, v));
        v
    }
}

/// Whether all stops of a list but its ends are inside `(0, 1)`, and not within a hair of it.
pub open spec fn is_spread_inside(list: Seq<ColorStop>) -> bool {
    forall|i: int| 0 < i < list.len() - 1 ==> is_interior((#[trigger] list[i]).offset)
}

proof fn lemma_interior_of(list: Seq<ColorStop>, k: int)
    requires
        1 <= k < list.len(),
        is_spread_inside(list),
        !is_interior(list[0].offset),
    ensures
        interior(list.take(k)) == list.subrange(1, k),
    decreases k,
{
    let part = list.take(k);
    assert(part.drop_last() =~= list.take(k - 1));
    assert(part.last() == list[k - 1]);
    if k > 1 {
        lemma_interior_of(list, k - 1);
        assert(is_interior(list[k - 1].offset));
        assert(list.subrange(1, k) =~= list.subrange(1, k - 1).push(list[k - 1]));
    } else {
        assert(interior(part.drop_last()) =~= Seq::empty());
        assert(list.subrange(1, 1) =~= Seq::empty());
    }
}

/// The breakpoints that a chain gives for a segment are all stops of its last matrix but the
/// ends.
proof fn lemma_segment_stops(
    chain: ColorMatrixChain,
    start: Color,
    end: Color,
    premultiplied: bool,
)
    requires
        stays_within_limit(chain.matrices(), segment_ends(start, end), premultiplied),
        is_spread_inside(
            stages(
                chain.matrices(),
                segment_ends(start, end),
                premultiplied,
                chain.matrices().len(),
            ),
        ),
    ensures
        ({
            let all = stages(
                chain.matrices(),
                segment_ends(start, end),
                premultiplied,
                chain.matrices().len(),
            );
            &&& all.len() > 1
            &&& chain.segment_stops(start, end, premultiplied) == all.subrange(1, all.len() - 1)
        }),
{
    let ends = segment_ends(start, end);
    let all = stages(chain.matrices(), ends, premultiplied, chain.matrices().len());
    lemma_stage_ends(chain.matrices(), ends, premultiplied, chain.matrices().len());
    let (zero, one) = (Binary32::zero(), Binary32::one());
    Binary32::lemma_constants(zero);
    if is_interior(zero) {
        crate::ramp::lemma_interior(zero);
    }
    if is_interior(one) {
        crate::ramp::lemma_interior(one);
    }
    lemma_interior_of(all, all.len() - 1);
    assert(all.drop_last() =~= all.take(all.len() - 1));
}

/// The vectors that a ramp is interpolated in.
pub open spec fn vectors(list: Seq<ColorStop>, premultiplied: bool) -> Seq<ColorStop> {
    Seq::new(
        list.len(),
        |i: int|
            ColorStop {
                offset: list[i].offset,
                color: crate::ramp::to_vector(list[i].color, premultiplied),
            },
    )
}

/// The part of a ramp from one authored stop to the next, before it is filtered.
pub open spec fn authored_segment(left: ColorStop, right: ColorStop) -> Seq<ColorStop> {
    seq![left, right]
}

/// The part of a filtered ramp from one authored stop to the next.
pub open spec fn filtered_segment(
    chain: ColorMatrixChain,
    left: ColorStop,
    right: ColorStop,
    premultiplied: bool,
) -> Seq<ColorStop> {
    seq![chain.filtered_stop(left)] + chain.segment_ramp(left, right, premultiplied)
}

/// Whether nothing is rounded where a colour is premultiplied.
pub open spec fn is_premultiplied_exactly(color: Color, premultiplied: bool) -> bool {
    premultiplied ==> vector(crate::ramp::to_vector(color, true))
        == crate::laws::exact::scaled_by_alpha(vector(color))
}

/// Whether nothing is rounded where a matrix is applied to a colour, and its alpha is kept.
pub open spec fn is_color_exact(matrix: ColorMatrix, color: Color) -> bool {
    let v = vector(color);
    &&& matrix.red.combine(color).finite()
    &&& number(matrix.red.combine(color)) == crate::laws::exact::row_sum(matrix.red, v, false)
    &&& matrix.green.combine(color).finite()
    &&& number(matrix.green.combine(color)) == crate::laws::exact::row_sum(
        matrix.green,
        v,
        false,
    )
    &&& matrix.blue.combine(color).finite()
    &&& number(matrix.blue.combine(color)) == crate::laws::exact::row_sum(matrix.blue, v, false)
    &&& number(crate::color_matrix::clamp_unit(matrix.alpha.combine(color))) == v.a
}

/// Whether nothing is rounded where an authored stop is filtered and premultiplied, and its
/// alpha is kept.
pub open spec fn is_stop_exact(
    chain: ColorMatrixChain,
    color: Color,
    premultiplied: bool,
) -> bool {
    &&& forall|n: nat|
        n < chain.matrices().len() ==> is_color_exact(
            chain.matrices()[n as int],
            #[trigger] crate::color_matrix::filtered(chain.matrices(), color, n),
        )
    &&& is_premultiplied_exactly(color, premultiplied)
    &&& is_premultiplied_exactly(chain.apply(color), premultiplied)
    &&& premultiplied ==> number(color.a) >= 0real
}

/// Whether nothing is rounded where breakpoint `i` of a segment is made a stop of the ramp.
pub open spec fn is_breakpoint_exact(
    chain: ColorMatrixChain,
    left: ColorStop,
    right: ColorStop,
    premultiplied: bool,
    i: int,
) -> bool {
    let stop = chain.segment_stops(
        crate::ramp::to_vector(left.color, premultiplied),
        crate::ramp::to_vector(right.color, premultiplied),
        premultiplied,
    )[i];
    let color = crate::ramp::from_vector(stop.color, premultiplied);
    let offset = left.offset.plus(stop.offset.times(right.offset.minus(left.offset)));
    &&& vector(crate::ramp::to_vector(color, premultiplied)) == vector(stop.color)
    &&& number(offset) == blend(number(left.offset), number(right.offset), number(stop.offset))
}

/// Whether nothing is rounded where a chain filters the ramp from one authored stop to the next,
/// the segment stays within the limit, and no crossing is left out for being within `1e-6` of an
/// end or of another crossing.
pub open spec fn is_filtered_exactly(
    chain: ColorMatrixChain,
    left: ColorStop,
    right: ColorStop,
    premultiplied: bool,
) -> bool {
    let start = crate::ramp::to_vector(left.color, premultiplied);
    let end = crate::ramp::to_vector(right.color, premultiplied);
    let ends = segment_ends(start, end);
    let matrices = chain.matrices();
    &&& Binary32::zero().below(right.offset.minus(left.offset))
    &&& stays_within_limit(matrices, ends, premultiplied)
    &&& is_segment_exact(matrices, ends, premultiplied, matrices.len())
    &&& is_spread_inside(stages(matrices, ends, premultiplied, matrices.len()))
    &&& is_stop_exact(chain, left.color, premultiplied)
    &&& is_stop_exact(chain, right.color, premultiplied)
    &&& forall|i: int|
        0 <= i < chain.segment_stops(start, end, premultiplied).len() ==> #[trigger]
        is_breakpoint_exact(chain, left, right, premultiplied, i)
}

proof fn lemma_color(
    matrices: Seq<ColorMatrix>,
    color: Color,
    n: nat,
)
    requires
        n <= matrices.len(),
        forall|k: nat|
            k < n ==> is_color_exact(
                matrices[k as int],
                #[trigger] crate::color_matrix::filtered(matrices, color, k),
            ),
    ensures
        vector(crate::color_matrix::filtered(matrices, color, n)) == filtered_by_all(
            matrices,
            vector(color),
            false,
            n,
        ),
    decreases n,
{
    if n > 0 {
        let k = (n - 1) as nat;
        lemma_color(matrices, color, k);
        let before = crate::color_matrix::filtered(matrices, color, k);
        let m = matrices[k as int];
        assert(is_color_exact(m, before));
        let one = Binary32::one();
        Binary32::lemma_constants(one);
        lemma_number(one);
        crate::laws::exact::lemma_channel_clamp(m.red.combine(before), one);
        crate::laws::exact::lemma_channel_clamp(m.green.combine(before), one);
        crate::laws::exact::lemma_channel_clamp(m.blue.combine(before), one);
    }
}

/// The vector of a filtered stop is the filtered vector of the stop.
proof fn lemma_filtered_stop(chain: ColorMatrixChain, color: Color, premultiplied: bool)
    requires
        is_stop_exact(chain, color, premultiplied),
        premultiplied ==> chain.keeps_alpha_out(),
    ensures
        vector(crate::ramp::to_vector(chain.apply(color), premultiplied)) == filtered_by_all(
            chain.matrices(),
            vector(crate::ramp::to_vector(color, premultiplied)),
            premultiplied,
            chain.matrices().len(),
        ),
{
    let n = chain.matrices().len();
    lemma_color(chain.matrices(), color, n);
    if premultiplied {
        crate::laws::exact::law_premultiplied_vectors_are_filtered_as_colors(
            chain.matrices(),
            vector(color),
            n,
        );
    }
}

/// Every stop of the filtered ramp is, as a vector, one of the stops of the last matrix, moved
/// from `[0, 1]` to where the segment is.
proof fn lemma_filtered_segment(
    chain: ColorMatrixChain,
    left: ColorStop,
    right: ColorStop,
    premultiplied: bool,
    i: int,
)
    requires
        is_filtered_exactly(chain, left, right, premultiplied),
        premultiplied ==> chain.keeps_alpha_out(),
    ensures
        ({
            let start = crate::ramp::to_vector(left.color, premultiplied);
            let end = crate::ramp::to_vector(right.color, premultiplied);
            let all = stages(
                chain.matrices(),
                segment_ends(start, end),
                premultiplied,
                chain.matrices().len(),
            );
            let list = vectors(
                filtered_segment(chain, left, right, premultiplied),
                premultiplied,
            );
            &&& list.len() == all.len()
            &&& 0 <= i < all.len() ==> vector(list[i].color) == vector(all[i].color)
            &&& 0 <= i < all.len() ==> number(list[i].offset) == blend(
                number(left.offset),
                number(right.offset),
                number(all[i].offset),
            )
        }),
{
    let start = crate::ramp::to_vector(left.color, premultiplied);
    let end = crate::ramp::to_vector(right.color, premultiplied);
    let ends = segment_ends(start, end);
    let matrices = chain.matrices();
    let all = stages(matrices, ends, premultiplied, matrices.len());
    lemma_segment_stops(chain, start, end, premultiplied);
    lemma_stage_ends(matrices, ends, premultiplied, matrices.len());
    let inner = chain.segment_stops(start, end, premultiplied);
    let made = filtered_segment(chain, left, right, premultiplied);
    assert(inner.len() == all.len() - 2);
    assert(made.len() == all.len());
    let (xl, xr) = (number(left.offset), number(right.offset));
    lemma_number(Binary32::zero());
    lemma_blend_ends(xl, xr);
    let (va, vb) = (vector(start), vector(end));
    if i == 0 || i == all.len() - 1 {
        lemma_filtered_stop(chain, left.color, premultiplied);
        lemma_filtered_stop(chain, right.color, premultiplied);
        lemma_end_vectors(all);
        law_segments_are_filtered_per_pixel(
            matrices,
            start,
            end,
            premultiplied,
            0real,
            vector(all[0].color),
        );
        law_segments_are_filtered_per_pixel(
            matrices,
            start,
            end,
            premultiplied,
            1real,
            vector(all.last().color),
        );
        lemma_blended_ends(va, vb);
    } else if 0 < i < all.len() - 1 {
        assert(inner[i - 1] == all[i]);
        assert(is_breakpoint_exact(chain, left, right, premultiplied, i - 1));
        assert(made[i] == chain.segment_ramp(left, right, premultiplied)[i - 1]);
    }
}

proof fn lemma_blended_ends(v: Vector, w: Vector)
    ensures
        blended(v, w, 0real) == v,
        blended(v, w, 1real) == w,
{
    lemma_blend_ends(v.r, w.r);
    lemma_blend_ends(v.g, w.g);
    lemma_blend_ends(v.b, w.b);
    lemma_blend_ends(v.a, w.a);
}

proof fn lemma_end_vectors(list: Seq<ColorStop>)
    requires
        list.len() > 1,
    ensures
        has_at(list, number(list[0].offset), vector(list[0].color)),
        has_at(list, number(list.last().offset), vector(list.last().color)),
{
    let n = list.len() - 2;
    lemma_blend_ends(number(list[0].offset), number(list[1].offset));
    lemma_blend_ends(number(list[n].offset), number(list[n + 1].offset));
    lemma_blended_ends(vector(list[0].color), vector(list[1].color));
    lemma_blended_ends(vector(list[n].color), vector(list[n + 1].color));
    assert(has_between(list, 0, 0real, number(list[0].offset), vector(list[0].color)));
    assert(has_between(list, n, 1real, number(list[n + 1].offset), vector(list[n + 1].color)));
}

/// Interpolating the filtered ramp is filtering what the authored ramp interpolates to: whatever
/// vector `w` the filtered ramp has at a position of an authored segment, it is what the chain
/// makes of the vector that the authored ramp has there. This is in exact arithmetic, for a
/// segment within the limit, and leaves out crossings within `1e-6` of an end.
pub proof fn law_filtered_ramps_are_filtered_per_pixel(
    chain: ColorMatrixChain,
    left: ColorStop,
    right: ColorStop,
    premultiplied: bool,
    x: real,
    w: Vector,
)
    requires
        premultiplied ==> chain.keeps_alpha_out(),
        is_filtered_exactly(chain, left, right, premultiplied),
        has_at(
            vectors(filtered_segment(chain, left, right, premultiplied), premultiplied),
            x,
            w,
        ),
    ensures
        exists|v: Vector|
            (#[trigger] has_at(vectors(authored_segment(left, right), premultiplied), x, v)) && w
                == filtered_by_all(chain.matrices(), v, premultiplied, chain.matrices().len()),
{
    let start = crate::ramp::to_vector(left.color, premultiplied);
    let end = crate::ramp::to_vector(right.color, premultiplied);
    let matrices = chain.matrices();
    let all = stages(matrices, segment_ends(start, end), premultiplied, matrices.len());
    let list = vectors(filtered_segment(chain, left, right, premultiplied), premultiplied);
    let (i, t) = choose|i: int, t: real| #[trigger] has_between(list, i, t, x, w);
    lemma_filtered_segment(chain, left, right, premultiplied, i);
    lemma_filtered_segment(chain, left, right, premultiplied, i + 1);
    let (s0, s1) = (number(all[i].offset), number(all[i + 1].offset));
    let s = blend(s0, s1, t);
    assert(has_between(all, i, t, s, w));
    law_segments_are_filtered_per_pixel(matrices, start, end, premultiplied, s, w);
    lemma_blend_twice(number(left.offset), number(right.offset), s0, s1, t);
    let v = blended(vector(start), vector(end), s);
    assert(has_between(vectors(authored_segment(left, right), premultiplied), 0, s, x, v));
    assert(has_at(vectors(authored_segment(left, right), premultiplied), x, v));
}

/// The filtered ramp has a vector at every position of an authored segment.
pub proof fn law_filtered_ramps_cover_their_segments(
    chain: ColorMatrixChain,
    left: ColorStop,
    right: ColorStop,
    premultiplied: bool,
    x: real,
)
    requires
        number(left.offset) <= x <= number(right.offset),
    ensures
        exists|w: Vector| #[trigger]
            has_at(
                vectors(filtered_segment(chain, left, right, premultiplied), premultiplied),
                x,
                w,
            ),
{
    let list = vectors(filtered_segment(chain, left, right, premultiplied), premultiplied);
    let w = lemma_covered(list, x);
}

/// The filtered ramp of a gradient is made of its filtered segments: the part from authored stop
/// `n` to the next is the filtered segment of the two.
pub proof fn law_filtered_ramps_are_made_of_filtered_segments(
    chain: ColorMatrixChain,
    gradient: crate::ramp::Gradient,
    n: nat,
)
    requires
        chain.is_exact_for(gradient),
        n + 1 < gradient.ramp().len(),
    ensures
        ({
            let source = gradient.ramp();
            let premultiplied = gradient.premultiplied;
            let from = crate::laws::ramp::place_of_stop(chain, source, premultiplied, n);
            let to = crate::laws::ramp::place_of_stop(chain, source, premultiplied, n + 1);
            &&& 0 <= from < to < chain.filtered_ramp(gradient).len()
            &&& chain.filtered_ramp(gradient).subrange(from, to + 1) == filtered_segment(
                chain,
                source[n as int],
                source[(n + 1) as int],
                premultiplied,
            )
        }),
{
    let source = gradient.ramp();
    let premultiplied = gradient.premultiplied;
    let ramp = chain.filtered_ramp(gradient);
    crate::laws::ramp::lemma_subdivided_prefix(
        chain,
        source,
        premultiplied,
        n + 1,
        (source.len() - 1) as nat,
    );
    crate::laws::ramp::lemma_subdivided_prefix(chain, source, premultiplied, n, n + 1);
    let short = chain.subdivided(source, premultiplied, n);
    let long = chain.subdivided(source, premultiplied, n + 1);
    let from = short.len() - 1;
    let to = long.len() - 1;
    let (left, right) = (source[n as int], source[(n + 1) as int]);
    let more = chain.segment_ramp(left, right, premultiplied);
    assert(long == short + more);
    let made = filtered_segment(chain, left, right, premultiplied);
    let part = ramp.subrange(from, to + 1);
    assert(part.len() == made.len());
    assert forall|i: int| 0 <= i < part.len() implies part[i] == made[i] by {
        assert(part[i] == ramp[from + i]);
        assert(ramp[from + i] == long[from + i]);
        if i == 0 {
            assert(long[from] == short[from]);
        } else {
            assert(made[i] == more[i - 1]);
        }
    }
    assert(part =~= made);
}

} // verus!
