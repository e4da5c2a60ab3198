//! A filtered gradient as a whole is the filter of each of its pixels, however many stops it has.

use crate::color_matrix::{ColorMatrix, ColorMatrixChain, Filter};
use crate::ieee::Binary32;
use crate::laws::exact::{
    filtered_by_all, lemma_blend_between, lemma_number_order, number, Vector,
};
use crate::laws::fidelity::are_weighed;
use crate::laws::gradients::{
    is_filtered_nearly, is_within_a_step_and_a_half,
    law_filtered_ramps_are_near_the_filter_of_each_pixel, leaves_alpha, ramp_error,
};
use crate::laws::offsets::{can_be_subdivided, law_filtered_offsets_are_in_order};
use crate::laws::ramp::{does_not_fall, place_of_stop};
use crate::laws::rounding::{is_unit, is_unit_color};
use crate::laws::segment::{
    authored_segment, filtered_segment, has_at, has_between, is_filtered_exactly, lemma_covered,
    vectors,
};
use crate::laws::stability::is_close;
use crate::ramp::{segment_ends, stages, to_vector, ColorStop, Gradient};
use vstd::prelude::*;

verus! {

/// Whether no matrix of a chain takes anything from alpha, or a gradient is not premultiplied.
pub open spec fn takes_nothing_from_alpha(chain: ColorMatrixChain, gradient: Gradient) -> bool {
    gradient.premultiplied ==> forall|i: int|
        0 <= i < chain.matrices().len() ==> (#[trigger] chain.matrices()[i]).red.a.value() == 0
            && chain.matrices()[i].red.a.finite() && chain.matrices()[i].green.a.value() == 0
            && chain.matrices()[i].green.a.finite() && chain.matrices()[i].blue.a.value() == 0
            && chain.matrices()[i].blue.a.finite()
}

/// Whether the segment between two stops needs at most 32 stops, whatever number of the matrices
/// is applied to it.
pub open spec fn needs_few_stops(
    chain: ColorMatrixChain,
    left: ColorStop,
    right: ColorStop,
    premultiplied: bool,
) -> bool {
    forall|m: nat|
        m <= chain.matrices().len() ==> (#[trigger] stages(
            chain.matrices(),
            segment_ends(
                to_vector(left.color, premultiplied),
                to_vector(right.color, premultiplied),
            ),
            premultiplied,
            m,
        )).len() <= 32
}

proof fn lemma_takes_nothing(chain: ColorMatrixChain, gradient: Gradient)
    requires
        takes_nothing_from_alpha(chain, gradient),
    ensures
        gradient.premultiplied ==> chain.keeps_alpha_out(),
{
    Binary32::lemma_constants(Binary32::zero());
    if gradient.premultiplied {
        assert forall|i: int| 0 <= i < chain.matrices().len() implies (
        #[trigger] chain.matrices()[i]).has_no_alpha_column() by {
            let m = chain.matrices()[i];
            assert(m.red.a.value() == 0);
        }
    }
}

/// What a filtered gradient has strictly between two authored stops is what the filtered segment
/// between them has.
proof fn lemma_in_segment(chain: ColorMatrixChain, gradient: Gradient, n: nat, x: real, w: Vector)
    requires
        gradient.srgb,
        takes_nothing_from_alpha(chain, gradient),
        can_be_subdivided(gradient.ramp()),
        n + 1 < gradient.ramp().len(),
        number(gradient.ramp()[n as int].offset) < x < number(
            gradient.ramp()[(n + 1) as int].offset,
        ),
    ensures
        has_at(vectors(chain.filtered_ramp(gradient), gradient.premultiplied), x, w) ==> has_at(
            vectors(
                filtered_segment(
                    chain,
                    gradient.ramp()[n as int],
                    gradient.ramp()[(n + 1) as int],
                    gradient.premultiplied,
                ),
                gradient.premultiplied,
            ),
            x,
            w,
        ),
        exists|u: Vector| #[trigger]
            has_at(vectors(chain.filtered_ramp(gradient), gradient.premultiplied), x, u),
{
    let source = gradient.ramp();
    let premultiplied = gradient.premultiplied;
    let (left, right) = (source[n as int], source[(n + 1) as int]);
    lemma_takes_nothing(chain, gradient);
    assert(chain.is_exact_for(gradient));
    law_filtered_offsets_are_in_order(chain, gradient);
    crate::laws::segment::law_filtered_ramps_are_made_of_filtered_segments(chain, gradient, n);
    let ramp = chain.filtered_ramp(gradient);
    let from = place_of_stop(chain, source, premultiplied, n);
    let to = place_of_stop(chain, source, premultiplied, n + 1);
    let part = filtered_segment(chain, left, right, premultiplied);
    let (all, own) = (vectors(ramp, premultiplied), vectors(part, premultiplied));
    assert(ramp.subrange(from, to + 1) == part);
    lemma_vectors_run(ramp, part, premultiplied, from);
    lemma_ends_of_segment(chain, left, right, premultiplied);
    lemma_in_run(all, own, from, x, w);
}

/// The ends of a filtered segment are where the authored stops are.
proof fn lemma_ends_of_segment(
    chain: ColorMatrixChain,
    left: ColorStop,
    right: ColorStop,
    premultiplied: bool,
)
    ensures
        ({
            let own = vectors(
                filtered_segment(chain, left, right, premultiplied),
                premultiplied,
            );
            &&& own.len() > 1
            &&& own[0].offset == left.offset
            &&& own.last().offset == right.offset
        }),
{
    let part = filtered_segment(chain, left, right, premultiplied);
    let more = chain.segment_ramp(left, right, premultiplied);
    assert(more.last() == chain.filtered_stop(right));
    assert(part.last() == more.last());
}

/// A run of a ramp is a run of its vectors, in the same order.
proof fn lemma_vectors_run(
    ramp: Seq<ColorStop>,
    part: Seq<ColorStop>,
    premultiplied: bool,
    from: int,
)
    requires
        0 <= from,
        from + part.len() <= ramp.len(),
        ramp.subrange(from, from + part.len()) == part,
        does_not_fall(ramp),
    ensures
        ({
            let (all, own) = (vectors(ramp, premultiplied), vectors(part, premultiplied));
            &&& does_not_fall(all)
            &&& all.len() == ramp.len() && own.len() == part.len()
            &&& forall|i: int| 0 <= i < own.len() ==> #[trigger] own[i] == all[from + i]
        }),
{
    let (all, own) = (vectors(ramp, premultiplied), vectors(part, premultiplied));
    assert forall|i: int, j: int| 0 <= i < j < all.len() implies (
    #[trigger] all[i]).offset.value() <= (#[trigger] all[j]).offset.value() by {
        assert(ramp[i].offset.value() <= ramp[j].offset.value());
    }
    assert forall|i: int| 0 <= i < own.len() implies #[trigger] own[i] == all[from + i] by {
        assert(part[i] == ramp.subrange(from, from + part.len())[i]);
    }
}

/// What a ramp has strictly between the ends of a run of it, the run has.
proof fn lemma_in_run(
    all: Seq<ColorStop>,
    own: Seq<ColorStop>,
    from: int,
    x: real,
    w: Vector,
)
    requires
        does_not_fall(all),
        own.len() > 1,
        0 <= from,
        from + own.len() <= all.len(),
        forall|i: int| 0 <= i < own.len() ==> #[trigger] own[i] == all[from + i],
        number(own[0].offset) < x < number(own.last().offset),
    ensures
        has_at(all, x, w) ==> has_at(own, x, w),
        exists|u: Vector| #[trigger] has_at(all, x, u),
{
    let to = from + own.len() - 1;
    assert(own[0] == all[from]);
    assert(own[own.len() - 1] == all[to]);
    if has_at(all, x, w) {
        let (i, t) = choose|i: int, t: real| #[trigger] has_between(all, i, t, x, w);
        let (a, b) = (all[i].offset, all[i + 1].offset);
        assert(all[i].offset.value() <= all[i + 1].offset.value());
        lemma_number_order(a, b);
        lemma_blend_between(number(a), number(b), t);
        if i < from {
            assert(i + 1 == from || all[i + 1].offset.value() <= all[from].offset.value());
            lemma_number_order(b, all[from].offset);
        }
        if i >= to {
            assert(i == to || all[to].offset.value() <= all[i].offset.value());
            lemma_number_order(all[to].offset, a);
        }
        assert(own[i - from] == all[i] && own[i - from + 1] == all[i + 1]);
        assert(has_between(own, i - from, t, x, w));
    }
    let u = lemma_covered(own, x);
    let (i, t) = choose|i: int, t: real| #[trigger] has_between(own, i, t, x, u);
    assert(own[i] == all[from + i] && own[i + 1] == all[from + i + 1]);
    assert(has_between(all, from + i, t, x, u));
    assert(has_at(all, x, u));
}

/// A gradient that is interpolated in sRGB, filtered by matrices that leave alpha alone and take
/// nothing from it, paints at every position strictly between two adjacent authored stops what
/// filtering the pixel there paints, to within a step and a half of 255 in every component,
/// whatever the number of its stops: it has a vector there, and any vector that it has there is
/// that near to what the matrices make of the authored one. This is in the arithmetic that is
/// painted with, where rounding and the breakpoints left out within `1e-6` of an end or of another
/// come to no more, and no matrix needs more than 32 stops for the segment.
pub proof fn law_a_filtered_gradient_paints_what_filtering_each_pixel_paints(
    chain: ColorMatrixChain,
    weights: Seq<real>,
    gradient: Gradient,
    n: nat,
    x: real,
    w: Vector,
)
    requires
        gradient.srgb,
        takes_nothing_from_alpha(chain, gradient),
        are_weighed(chain.matrices(), weights, chain.matrices().len()),
        forall|i: int|
            0 <= i < chain.matrices().len() ==> leaves_alpha(#[trigger] chain.matrices()[i]),
        forall|i: int|
            0 <= i < gradient.ramp().len() ==> is_unit((#[trigger] gradient.ramp()[i]).offset)
                && is_unit_color(gradient.ramp()[i].color),
        forall|i: int, j: int|
            0 <= i < j < gradient.ramp().len() ==> (
            #[trigger] gradient.ramp()[i]).offset.value() <= (
            #[trigger] gradient.ramp()[j]).offset.value(),
        n + 1 < gradient.ramp().len(),
        number(gradient.ramp()[n as int].offset) < x < number(
            gradient.ramp()[(n + 1) as int].offset,
        ),
        needs_few_stops(
            chain,
            gradient.ramp()[n as int],
            gradient.ramp()[(n + 1) as int],
            gradient.premultiplied,
        ),
        255real * ramp_error(
            weights,
            chain.matrices().len(),
            number(gradient.ramp()[(n + 1) as int].offset) - number(
                gradient.ramp()[n as int].offset,
            ),
        ) < 3real / 2real,
    ensures
        exists|u: Vector| #[trigger]
            has_at(vectors(chain.filtered_ramp(gradient), gradient.premultiplied), x, u),
        has_at(vectors(chain.filtered_ramp(gradient), gradient.premultiplied), x, w) ==> exists|
            v: Vector,
        |
            (#[trigger] has_at(
                vectors(
                    authored_segment(
                        gradient.ramp()[n as int],
                        gradient.ramp()[(n + 1) as int],
                    ),
                    gradient.premultiplied,
                ),
                x,
                v,
            )) && is_within_a_step_and_a_half(
                w,
                filtered_by_all(
                    chain.matrices(),
                    v,
                    gradient.premultiplied,
                    chain.matrices().len(),
                ),
            ),
{
    let source = gradient.ramp();
    let premultiplied = gradient.premultiplied;
    let (left, right) = (source[n as int], source[(n + 1) as int]);
    lemma_takes_nothing(chain, gradient);
    assert(can_be_subdivided(source)) by {
        assert forall|i: int| 0 <= i < source.len() - 1 implies source[i + 1].offset.minus(
            (#[trigger] source[i]).offset,
        ).finite() by {
            assert(source[i].offset.value() <= source[i + 1].offset.value());
            crate::laws::offsets::lemma_span_is_finite(source[i].offset, source[i + 1].offset);
        }
    }
    lemma_in_segment(chain, gradient, n, x, w);
    lemma_number_order(right.offset, left.offset);
    assert(is_filtered_nearly(chain, weights, left, right, premultiplied));
    if has_at(vectors(chain.filtered_ramp(gradient), premultiplied), x, w) {
        law_filtered_ramps_are_near_the_filter_of_each_pixel(
            chain,
            weights,
            left,
            right,
            premultiplied,
            x,
            w,
        );
        let width = number(right.offset) - number(left.offset);
        let e = ramp_error(weights, chain.matrices().len(), width);
        let v = choose|v: Vector|
            (#[trigger] has_at(vectors(authored_segment(left, right), premultiplied), x, v))
                && is_close(
                w,
                filtered_by_all(chain.matrices(), v, premultiplied, chain.matrices().len()),
                e,
            );
        assert(is_within_a_step_and_a_half(
            w,
            filtered_by_all(chain.matrices(), v, premultiplied, chain.matrices().len()),
        ));
    }
}

/// Where nothing is rounded and no breakpoint left out, a gradient that is interpolated in sRGB and
/// filtered by matrices that take nothing from alpha paints at every position strictly between two
/// adjacent authored stops exactly what filtering the pixel there paints, whatever the number of
/// its stops.
pub proof fn law_a_filtered_gradient_is_the_filter_of_each_pixel_where_nothing_is_rounded(
    chain: ColorMatrixChain,
    gradient: Gradient,
    n: nat,
    x: real,
    w: Vector,
)
    requires
        gradient.srgb,
        takes_nothing_from_alpha(chain, gradient),
        can_be_subdivided(gradient.ramp()),
        n + 1 < gradient.ramp().len(),
        number(gradient.ramp()[n as int].offset) < x < number(
            gradient.ramp()[(n + 1) as int].offset,
        ),
        is_filtered_exactly(
            chain,
            gradient.ramp()[n as int],
            gradient.ramp()[(n + 1) as int],
            gradient.premultiplied,
        ),
    ensures
        exists|u: Vector| #[trigger]
            has_at(vectors(chain.filtered_ramp(gradient), gradient.premultiplied), x, u),
        has_at(vectors(chain.filtered_ramp(gradient), gradient.premultiplied), x, w) ==> exists|
            v: Vector,
        |
            (#[trigger] has_at(
                vectors(
                    authored_segment(
                        gradient.ramp()[n as int],
                        gradient.ramp()[(n + 1) as int],
                    ),
                    gradient.premultiplied,
                ),
                x,
                v,
            )) && w == filtered_by_all(
                chain.matrices(),
                v,
                gradient.premultiplied,
                chain.matrices().len(),
            ),
{
    let source = gradient.ramp();
    let premultiplied = gradient.premultiplied;
    lemma_takes_nothing(chain, gradient);
    lemma_in_segment(chain, gradient, n, x, w);
    if has_at(vectors(chain.filtered_ramp(gradient), premultiplied), x, w) {
        crate::laws::segment::law_filtered_ramps_are_filtered_per_pixel(
            chain,
            source[n as int],
            source[(n + 1) as int],
            premultiplied,
            x,
            w,
        );
    }
}

/// One matrix makes at most eight stops of a segment, and no matrix two: six crossings at most, of
/// three channels through two bounds, and the ends. So the limit never applies to one filter
/// function on its own.
pub proof fn law_one_matrix_never_reaches_the_limit(
    chain: ColorMatrixChain,
    left: ColorStop,
    right: ColorStop,
    premultiplied: bool,
)
    requires
        chain.matrices().len() <= 1,
    ensures
        needs_few_stops(chain, left, right, premultiplied),
{
    let ends = segment_ends(
        to_vector(left.color, premultiplied),
        to_vector(right.color, premultiplied),
    );
    let ms = chain.matrices();
    assert forall|m: nat| m <= ms.len() implies (#[trigger] stages(
        ms,
        ends,
        premultiplied,
        m,
    )).len() <= 32 by {
        assert(stages(ms, ends, premultiplied, 0) == ends);
        if m == 1 {
            lemma_one_stage(ms[0], ends, premultiplied);
            assert(stages(ms, ends, premultiplied, 1) == crate::ramp::stage_stops(
                ms[0],
                stages(ms, ends, premultiplied, 0),
                premultiplied,
            ));
        }
    }
}

proof fn lemma_one_stage(matrix: ColorMatrix, ends: Seq<ColorStop>, premultiplied: bool)
    requires
        ends.len() == 2,
    ensures
        crate::ramp::stage_stops(matrix, ends, premultiplied).len() <= 8,
{
    let qa = matrix.apply_vector(ends[0].color, premultiplied);
    let qb = matrix.apply_vector(ends[1].color, premultiplied);
    let found = crate::ramp::crossings(qa, qb, premultiplied);
    assert(found.len() <= 6);
    lemma_ordered_length(found);
    lemma_spread_length(crate::ramp::ordered(found));
    assert(crate::ramp::pieces_stops(matrix, ends, premultiplied, 0).len() == 0);
    assert(crate::ramp::pieces_stops(matrix, ends, premultiplied, 1)
        == crate::ramp::pieces_stops(matrix, ends, premultiplied, 0) + crate::ramp::piece_stops(
        matrix,
        ends[0],
        ends[1],
        premultiplied,
    ));
}

proof fn lemma_ordered_length(s: Seq<ColorStop>)
    ensures
        crate::ramp::ordered(s).len() == s.len(),
    decreases s.len(),
{
    if s.len() > 0 {
        lemma_ordered_length(s.drop_last());
        let before = crate::ramp::ordered(s.drop_last());
        lemma_place_is_inside(before, s.last().offset, 0);
    }
}

proof fn lemma_place_is_inside(s: Seq<ColorStop>, offset: Binary32, from: nat)
    requires
        from <= s.len(),
    ensures
        crate::ramp::place_from(s, offset, from) <= s.len(),
    decreases s.len() - from,
{
    if from < s.len() && !offset.below(s[from as int].offset) {
        lemma_place_is_inside(s, offset, from + 1);
    }
}

proof fn lemma_spread_length(s: Seq<ColorStop>)
    ensures
        crate::ramp::spread(s).len() <= s.len(),
    decreases s.len(),
{
    if s.len() > 0 {
        lemma_spread_length(s.drop_last());
    }
}

/// A gradient that cannot be subdivided, for being interpolated in another space than sRGB or
/// premultiplied under a matrix that takes something from alpha, keeps its stops, each in its place
/// and filtered on its own.
pub proof fn law_other_gradients_have_their_stops_filtered(
    chain: ColorMatrixChain,
    gradient: Gradient,
    i: int,
)
    requires
        0 <= i < gradient.ramp().len(),
        !gradient.srgb || gradient.ramp().len() < 2 || (gradient.premultiplied && exists|k: int|
            0 <= k < chain.matrices().len() && (
            #[trigger] chain.matrices()[k]).red.a.value() != 0),
    ensures
        chain.filtered_ramp(gradient).len() == gradient.ramp().len(),
        chain.filtered_ramp(gradient)[i].offset == gradient.ramp()[i].offset,
        chain.filtered_ramp(gradient)[i].color == chain.apply(gradient.ramp()[i].color),
{
    Binary32::lemma_constants(Binary32::zero());
    if gradient.premultiplied && exists|k: int|
        0 <= k < chain.matrices().len() && (#[trigger] chain.matrices()[k]).red.a.value() != 0 {
        let k = choose|k: int|
            0 <= k < chain.matrices().len() && (
            #[trigger] chain.matrices()[k]).red.a.value() != 0;
        assert(!chain.matrices()[k].has_no_alpha_column());
    }
}

/// A chain of the seven filter functions leaves alpha alone and takes nothing from it.
pub proof fn law_filter_functions_take_nothing_from_alpha(
    chain: ColorMatrixChain,
    filters: Seq<Filter>,
    gradient: Gradient,
)
    requires
        chain.matrices().len() == filters.len(),
        forall|i: int|
            0 <= i < filters.len() ==> #[trigger] filters[i].matrix() == Some(chain.matrices()[i]),
    ensures
        takes_nothing_from_alpha(chain, gradient),
        forall|i: int|
            0 <= i < chain.matrices().len() ==> leaves_alpha(#[trigger] chain.matrices()[i]),
{
    let (zero, one) = (Binary32::zero(), Binary32::one());
    Binary32::lemma_constants(zero);
    assert forall|i: int| 0 <= i < chain.matrices().len() implies leaves_alpha(
        #[trigger] chain.matrices()[i],
    ) && chain.matrices()[i].red.a == zero && chain.matrices()[i].green.a == zero
        && chain.matrices()[i].blue.a == zero by {
        assert(filters[i].matrix() == Some(chain.matrices()[i]));
    }
}

} // verus!
