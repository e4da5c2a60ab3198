//! Laws of filtered gradients and images.

use crate::color::Color;
use crate::color_matrix::{ColorMatrix, ColorMatrixChain};
use crate::ieee::Binary32;
use crate::image::{ImageBrush, Pixel};
use crate::ramp::{
    breakpoints, channel_bound, clamp_vector, crossings, interior, is_alpha, is_interior,
    is_same_place, mapped, mix, ordered, piece_stops, pieces_stops, place_from, placed,
    segment_ends, spread, stages, ColorStop, Gradient,
};
use vstd::prelude::*;

verus! {

/// Every breakpoint of a segment lies strictly inside it.
pub proof fn law_breakpoints_are_inside_their_segment(
    chain: ColorMatrixChain,
    start: Color,
    end: Color,
    premultiplied: bool,
    i: int,
)
    requires
        0 <= i < chain.segment_stops(start, end, premultiplied).len(),
    ensures
        is_interior(chain.segment_stops(start, end, premultiplied)[i].offset),
{
    lemma_interior_is_inside(
        crate::ramp::stages(
            chain.matrices(),
            crate::ramp::segment_ends(start, end),
            premultiplied,
            chain.matrices().len(),
        ),
    );
}

/// The stops inside a segment are inside it.
pub proof fn lemma_interior_is_inside(s: Seq<ColorStop>)
    ensures
        forall|i: int| 0 <= i < interior(s).len() ==> is_interior(
            (#[trigger] interior(s)[i]).offset,
        ),
    decreases s.len(),
{
    if s.len() > 0 {
        lemma_interior_is_inside(s.drop_last());
        let before = interior(s.drop_last());
        assert forall|i: int| 0 <= i < interior(s).len() implies is_interior(
            (#[trigger] interior(s)[i]).offset,
        ) by {
            if i < before.len() {
                assert(interior(s)[i] == before[i]);
            }
        }
    }
}

/// An alpha that is interpolated inside a segment stays between zero and the larger of the
/// alphas at its ends.
pub proof fn law_interpolated_alphas_stay_between_the_ends(a: Binary32, b: Binary32, s: Binary32)
    requires
        is_alpha(a) && a.finite(),
        is_alpha(b) && b.finite(),
        is_interior(s),
    ensures
        is_alpha(mix(a, b, s)),
        mix(a, b, s).value() <= a.value() || mix(a, b, s).value() <= b.value(),
{
    crate::ramp::lemma_mix_alpha(a, b, s);
}

/// A clamped vector's channels lie between zero and their bound: one, or alpha where the
/// vector is premultiplied.
pub proof fn law_clamped_channels_are_bounded(vector: Color, premultiplied: bool)
    requires
        premultiplied ==> Binary32::zero().at_most(vector.a),
    ensures
        ({
            let c = clamp_vector(vector, premultiplied);
            let (zero, upper) = (Binary32::zero(), channel_bound(vector, premultiplied));
            &&& c.a == vector.a
            &&& c.r.nan() || (zero.at_most(c.r) && c.r.at_most(upper))
            &&& c.g.nan() || (zero.at_most(c.g) && c.g.at_most(upper))
            &&& c.b.nan() || (zero.at_most(c.b) && c.b.at_most(upper))
        }),
{
    Binary32::lemma_constants(vector.a);
}

/// Whether a channel is on one side of each of its bounds at both ends of a piece.
pub open spec fn crosses_no_bound(a: Binary32, b: Binary32, upper: Binary32) -> bool {
    ||| a.value() <= 0 && b.value() <= 0
    ||| 0 <= a.value() <= upper.value() && 0 <= b.value() <= upper.value()
    ||| upper.value() <= a.value() && upper.value() <= b.value()
}

/// Between two breakpoints clamping commutes with interpolation, in exact arithmetic: at `s`
/// parts out of `n` of the way, the clamped interpolated channel is the interpolated clamped
/// channel. That is why a ramp with a stop at every crossing reproduces the filter.
pub proof fn law_clamping_commutes_with_interpolation_between_breakpoints(
    a: Binary32,
    b: Binary32,
    upper: Binary32,
    s: int,
    n: int,
)
    requires
        !a.nan(),
        !b.nan(),
        Binary32::zero().at_most(upper),
        crosses_no_bound(a, b, upper),
        0 <= s <= n,
    ensures
        ({
            let mixed = (n - s) * a.value() + s * b.value();
            let (low, high) = (0int, n * upper.value());
            let clamped = if mixed < low {
                low
            } else if mixed > high {
                high
            } else {
                mixed
            };
            let zero = Binary32::zero();
            clamped == (n - s) * a.clamp(zero, upper).value() + s * b.clamp(zero, upper).value()
        }),
{
    Binary32::lemma_constants(a);
    let (x, y, u) = (a.value(), b.value(), upper.value());
    assert((n - s) * 0 + s * 0 == 0 && (n - s) * u + s * u == n * u) by (nonlinear_arith);
    if x <= 0 && y <= 0 {
        assert((n - s) * x + s * y <= 0) by (nonlinear_arith)
            requires
                x <= 0,
                y <= 0,
                0 <= s <= n,
        ;
        assert(n * u >= 0) by (nonlinear_arith)
            requires
                n >= 0,
                u >= 0,
        ;
    } else if 0 <= x <= u && 0 <= y <= u {
        assert(0 <= (n - s) * x + s * y <= (n - s) * u + s * u) by (nonlinear_arith)
            requires
                0 <= x <= u,
                0 <= y <= u,
                0 <= s <= n,
        ;
    } else {
        assert((n - s) * x + s * y >= (n - s) * u + s * u >= 0) by (nonlinear_arith)
            requires
                0 <= u <= x,
                u <= y,
                0 <= s <= n,
        ;
    }
}

/// Where authored stop `n` is in the filtered ramp of a gradient that is subdivided.
pub open spec fn place_of_stop(
    chain: ColorMatrixChain,
    source: Seq<ColorStop>,
    premultiplied: bool,
    n: nat,
) -> int {
    chain.subdivided(source, premultiplied, n).len() - 1
}

/// Every authored stop is in the filtered ramp, filtered, in its order and at its offset; the
/// ramp begins with the first and ends with the last.
pub proof fn law_authored_stops_stay(chain: ColorMatrixChain, gradient: Gradient, n: nat)
    requires
        chain.is_exact_for(gradient),
        gradient.ramp().len() >= 2,
        n < gradient.ramp().len(),
    ensures
        ({
            let source = gradient.ramp();
            let ramp = chain.filtered_ramp(gradient);
            let place = place_of_stop(chain, source, gradient.premultiplied, n);
            &&& 0 <= place < ramp.len()
            &&& ramp[place] == chain.filtered_stop(source[n as int])
            &&& n == 0 ==> place == 0
            &&& n + 1 == source.len() ==> place == ramp.len() - 1
            &&& n > 0 ==> place_of_stop(
                chain,
                source,
                gradient.premultiplied,
                (n - 1) as nat,
            ) < place
        }),
{
    let source = gradient.ramp();
    lemma_subdivided_prefix(
        chain,
        source,
        gradient.premultiplied,
        n,
        (source.len() - 1) as nat,
    );
}

/// The ramp up to an authored stop ends with it, and what follows it comes behind.
pub proof fn lemma_subdivided_prefix(
    chain: ColorMatrixChain,
    source: Seq<ColorStop>,
    premultiplied: bool,
    n: nat,
    m: nat,
)
    requires
        n <= m,
    ensures
        chain.subdivided(source, premultiplied, n).len() > 0,
        chain.subdivided(source, premultiplied, n).last() == chain.filtered_stop(
            source[n as int],
        ),
        chain.subdivided(source, premultiplied, n).is_prefix_of(
            chain.subdivided(source, premultiplied, m),
        ),
        n > 0 ==> chain.subdivided(source, premultiplied, (n - 1) as nat).len() < chain.subdivided(
            source,
            premultiplied,
            n,
        ).len(),
    decreases m,
{
    if n < m {
        lemma_subdivided_prefix(chain, source, premultiplied, n, (m - 1) as nat);
    } else if n > 0 {
        let more = chain.segment_ramp(source[n - 1], source[n as int], premultiplied);
        assert(more.len() > 0);
        assert(more.last() == chain.filtered_stop(source[n as int]));
    }
}

/// A ramp that cannot be reproduced exactly keeps its authored stops and no others, at their
/// offsets.
pub proof fn law_approximate_ramps_keep_their_stops(chain: ColorMatrixChain, gradient: Gradient)
    requires
        !chain.is_exact_for(gradient),
    ensures
        chain.filtered_ramp(gradient).len() == gradient.ramp().len(),
        forall|i: int|
            0 <= i < gradient.ramp().len() ==> (#[trigger] chain.filtered_ramp(gradient)[i]).offset
                == gradient.ramp()[i].offset,
{
}

/// Filtering an image keeps the alpha of every pixel, and a pixel without any.
pub proof fn law_pixels_keep_their_alpha(chain: ColorMatrixChain, pixel: Pixel, premultiplied: bool)
    ensures
        chain.apply_to_pixel(pixel, premultiplied).a == pixel.a,
        pixel.a == 0 ==> chain.apply_to_pixel(pixel, premultiplied) == pixel,
{
    if pixel.a == 0 {
        let zero = Binary32::from_unsigned(0);
        let full = Binary32::from_unsigned(255);
        Binary32::lemma_from_unsigned(0);
        Binary32::lemma_from_unsigned(255);
        Binary32::lemma_constants(zero);
        let unit = Binary32::unit() as int;
        assert(0 * unit == 0 && 255 * unit > 0) by (nonlinear_arith)
            requires
                unit > 0,
        ;
        zero.lemma_over(full);
        crate::ieee::facts::lemma_rounded_zero(
            crate::ieee::model::Format::Single,
            full.value() as nat,
        );
    }
}

/// A filtered image has the bytes of its whole pixels.
pub proof fn law_images_keep_their_size(chain: ColorMatrixChain, brush: ImageBrush)
    ensures
        brush.format is Other ==> chain.filtered_image(brush) == brush.data@,
        !(brush.format is Other) ==> chain.filtered_image(brush).len() == 4 * (brush.data@.len()
            / 4),
{
    lemma_filtered_len(
        chain,
        brush.data@,
        brush.format is Bgra8,
        brush.premultiplied,
        brush.data@.len() / 4,
    );
}

proof fn lemma_filtered_len(
    chain: ColorMatrixChain,
    data: Seq<u8>,
    bgra: bool,
    premultiplied: bool,
    n: nat,
)
    ensures
        chain.filtered_pixels(data, bgra, premultiplied, n).len() == 4 * n,
    decreases n,
{
    if n > 0 {
        lemma_filtered_len(chain, data, bgra, premultiplied, (n - 1) as nat);
    }
}

/// Whether a stop is among those of a list, or at the place of one of them.
pub open spec fn is_represented(list: Seq<ColorStop>, stop: ColorStop) -> bool {
    exists|j: int|
        0 <= j < list.len() && ((#[trigger] list[j]) == stop || is_same_place(
            stop.offset,
            list[j].offset,
        ))
}

/// Wherever a channel crosses a bound on a piece of a segment there is a breakpoint, at the
/// crossing or within `1e-6` of it, and there are no other breakpoints.
pub proof fn law_every_crossing_has_a_breakpoint(qa: Color, qb: Color, premultiplied: bool)
    ensures
        ({
            let found = crossings(qa, qb, premultiplied);
            let kept = breakpoints(qa, qb, premultiplied);
            &&& forall|i: int|
                0 <= i < found.len() ==> is_represented(kept, #[trigger] found[i])
            &&& forall|j: int| 0 <= j < kept.len() ==> found.contains(#[trigger] kept[j])
        }),
{
    let found = crossings(qa, qb, premultiplied);
    let list = ordered(found);
    let kept = spread(list);
    lemma_ordered_keeps(found);
    lemma_spread_represents(list);
    assert forall|i: int| 0 <= i < found.len() implies is_represented(
        kept,
        #[trigger] found[i],
    ) by {
        assert(list.contains(found[i]));
        let k = choose|k: int| 0 <= k < list.len() && list[k] == found[i];
        assert(is_represented(kept, list[k]));
    }
    assert forall|j: int| 0 <= j < kept.len() implies found.contains(#[trigger] kept[j]) by {
        assert(list.contains(kept[j]));
        let k = choose|k: int| 0 <= k < list.len() && list[k] == kept[j];
        assert(found.contains(list[k]));
    }
}

/// Ordering stops keeps each and invents none.
proof fn lemma_ordered_keeps(s: Seq<ColorStop>)
    ensures
        forall|i: int| 0 <= i < s.len() ==> ordered(s).contains(#[trigger] s[i]),
        forall|i: int| 0 <= i < ordered(s).len() ==> s.contains(#[trigger] ordered(s)[i]),
    decreases s.len(),
{
    if s.len() > 0 {
        let short = s.drop_last();
        lemma_ordered_keeps(short);
        let before = ordered(short);
        lemma_place(before, s.last().offset, 0);
        let place = place_from(before, s.last().offset, 0) as int;
        let t = before.insert(place, s.last());
        assert(t[place] == s.last());
        assert forall|i: int| 0 <= i < s.len() implies t.contains(#[trigger] s[i]) by {
            if i < short.len() {
                assert(before.contains(short[i]));
                let k = choose|k: int| 0 <= k < before.len() && before[k] == short[i];
                if k < place {
                    assert(t[k] == before[k]);
                } else {
                    assert(t[k + 1] == before[k]);
                }
            }
        }
        assert forall|i: int| 0 <= i < t.len() implies s.contains(#[trigger] t[i]) by {
            if i != place {
                let k = if i < place {
                    i
                } else {
                    i - 1
                };
                assert(t[i] == before[k]);
                assert(short.contains(before[k]));
                let m = choose|m: int| 0 <= m < short.len() && short[m] == before[k];
                assert(s[m] == t[i]);
            } else {
                assert(s[s.len() - 1] == t[i]);
            }
        }
    }
}

proof fn lemma_place(s: Seq<ColorStop>, offset: Binary32, from: nat)
    requires
        from <= s.len(),
    ensures
        place_from(s, offset, from) <= s.len(),
    decreases s.len() - from,
{
    if from < s.len() && !offset.below(s[from as int].offset) {
        lemma_place(s, offset, from + 1);
    }
}

/// A stop is only dropped where one is kept at its place.
proof fn lemma_spread_represents(s: Seq<ColorStop>)
    ensures
        forall|i: int| 0 <= i < s.len() ==> is_represented(spread(s), #[trigger] s[i]),
        forall|j: int| 0 <= j < spread(s).len() ==> s.contains(#[trigger] spread(s)[j]),
    decreases s.len(),
{
    if s.len() > 0 {
        let short = s.drop_last();
        lemma_spread_represents(short);
        let before = spread(short);
        let kept = spread(s);
        assert forall|i: int| 0 <= i < s.len() implies is_represented(kept, #[trigger] s[i]) by {
            if i < short.len() {
                assert(is_represented(before, short[i]));
                let j = choose|j: int|
                    0 <= j < before.len() && ((#[trigger] before[j]) == short[i] || is_same_place(
                        short[i].offset,
                        before[j].offset,
                    ));
                assert(kept[j] == before[j]);
            } else {
                assert(kept[kept.len() - 1] == kept.last());
            }
        }
        assert forall|j: int| 0 <= j < kept.len() implies s.contains(#[trigger] kept[j]) by {
            if j < before.len() {
                assert(kept[j] == before[j]);
                assert(short.contains(before[j]));
                let m = choose|m: int| 0 <= m < short.len() && short[m] == before[j];
                assert(s[m] == kept[j]);
            } else {
                assert(s[s.len() - 1] == kept[j]);
            }
        }
    }
}

/// Whether the offsets of a list rise.
pub open spec fn rises(list: Seq<ColorStop>) -> bool {
    forall|i: int, j: int|
        0 <= i < j < list.len() ==> (#[trigger] list[i]).offset.value() < (
        #[trigger] list[j]).offset.value()
}

/// Whether the offsets of a list do not fall.
pub open spec fn does_not_fall(list: Seq<ColorStop>) -> bool {
    forall|i: int, j: int|
        0 <= i < j < list.len() ==> (#[trigger] list[i]).offset.value() <= (
        #[trigger] list[j]).offset.value()
}

/// The breakpoints of a piece are inside it, and each is behind the one before it.
pub proof fn law_breakpoints_rise(qa: Color, qb: Color, premultiplied: bool)
    ensures
        rises(breakpoints(qa, qb, premultiplied)),
        forall|i: int|
            0 <= i < breakpoints(qa, qb, premultiplied).len() ==> is_interior(
                (#[trigger] breakpoints(qa, qb, premultiplied)[i]).offset,
            ),
{
    let found = crossings(qa, qb, premultiplied);
    lemma_crossings_are_inside(qa, qb, premultiplied);
    lemma_ordered_keeps(found);
    lemma_are_inside(found, ordered(found));
    lemma_ordered_does_not_fall(found);
    lemma_spread_rises(ordered(found));
    lemma_spread_represents(ordered(found));
    lemma_are_inside(ordered(found), spread(ordered(found)));
}

/// Whether every stop of a list is inside `(0, 1)`.
pub open spec fn are_inside(list: Seq<ColorStop>) -> bool {
    forall|i: int| 0 <= i < list.len() ==> is_interior((#[trigger] list[i]).offset)
}

proof fn lemma_are_inside(list: Seq<ColorStop>, part: Seq<ColorStop>)
    requires
        are_inside(list),
        forall|i: int| 0 <= i < part.len() ==> list.contains(#[trigger] part[i]),
    ensures
        are_inside(part),
{
    assert forall|i: int| 0 <= i < part.len() implies is_interior(
        (#[trigger] part[i]).offset,
    ) by {
        assert(list.contains(part[i]));
        let k = choose|k: int| 0 <= k < list.len() && list[k] == part[i];
        assert(is_interior(list[k].offset));
    }
}

proof fn lemma_crossings_are_inside(qa: Color, qb: Color, premultiplied: bool)
    ensures
        are_inside(crossings(qa, qb, premultiplied)),
{
}

proof fn lemma_place_splits(s: Seq<ColorStop>, offset: Binary32, from: nat)
    requires
        from <= s.len(),
        !offset.nan(),
        are_inside(s),
        forall|k: int| 0 <= k < from ==> (#[trigger] s[k]).offset.value() <= offset.value(),
    ensures
        place_from(s, offset, from) <= s.len(),
        forall|k: int|
            0 <= k < place_from(s, offset, from) ==> (#[trigger] s[k]).offset.value()
                <= offset.value(),
        place_from(s, offset, from) < s.len() ==> offset.value() < s[place_from(
            s,
            offset,
            from,
        ) as int].offset.value(),
    decreases s.len() - from,
{
    if from < s.len() {
        crate::ramp::lemma_interior(s[from as int].offset);
        if !offset.below(s[from as int].offset) {
            lemma_place_splits(s, offset, from + 1);
        }
    }
}

proof fn lemma_ordered_does_not_fall(s: Seq<ColorStop>)
    requires
        are_inside(s),
    ensures
        does_not_fall(ordered(s)),
    decreases s.len(),
{
    if s.len() > 0 {
        let short = s.drop_last();
        lemma_ordered_does_not_fall(short);
        lemma_ordered_keeps(short);
        let before = ordered(short);
        lemma_are_inside(short, before);
        let last = s.last();
        crate::ramp::lemma_interior(last.offset);
        lemma_place_splits(before, last.offset, 0);
        let place = place_from(before, last.offset, 0) as int;
        let t = before.insert(place, last);
        assert forall|i: int, j: int| 0 <= i < j < t.len() implies (#[trigger] t[i]).offset.value()
            <= (#[trigger] t[j]).offset.value() by {
            let a = if i < place {
                i
            } else {
                i - 1
            };
            let b = if j < place {
                j
            } else {
                j - 1
            };
            if i == place {
                assert(t[j] == before[b]);
                assert(b == place || before[place].offset.value() <= before[b].offset.value());
            } else if j == place {
                assert(t[i] == before[a]);
            } else {
                assert(t[i] == before[a] && t[j] == before[b]);
            }
        }
    }
}

proof fn lemma_same_place(a: Binary32, b: Binary32)
    requires
        a.finite(),
        b.finite(),
        a.value() == b.value(),
    ensures
        is_same_place(a, b),
{
    let f = crate::ieee::model::Format::Single;
    a.lemma_minus(b);
    Binary32::lemma_constants(a.minus(b));
    Binary32::lemma_constants(crate::ramp::epsilon());
    crate::ieee::facts::lemma_rounded_zero(f, 1);
    assert(a.minus(b).value() == 0);
    assert(a.minus(b).magnitude().value() == 0);
}

proof fn lemma_spread_rises(s: Seq<ColorStop>)
    requires
        are_inside(s),
        does_not_fall(s),
    ensures
        rises(spread(s)),
    decreases s.len(),
{
    if s.len() > 0 {
        let short = s.drop_last();
        lemma_spread_rises(short);
        lemma_spread_represents(short);
        let kept = spread(short);
        let last = s.last();
        if spread(s) != kept {
            assert(spread(s) == kept.push(last));
            assert forall|i: int, j: int|
                0 <= i < j < kept.len() + 1 implies (#[trigger] kept.push(last)[i]).offset.value()
                < (#[trigger] kept.push(last)[j]).offset.value() by {
                if j == kept.len() {
                    let end = kept.last();
                    assert(short.contains(kept[kept.len() - 1]));
                    let k = choose|k: int| 0 <= k < short.len() && short[k] == end;
                    assert(s[k] == end && s[s.len() - 1] == last);
                    assert(is_interior(s[k].offset) && is_interior(s[s.len() - 1].offset));
                    crate::ramp::lemma_interior(end.offset);
                    crate::ramp::lemma_interior(last.offset);
                    assert(s[k].offset.value() <= s[s.len() - 1].offset.value());
                    if end.offset.value() == last.offset.value() {
                        lemma_same_place(last.offset, end.offset);
                    }
                    assert(i == kept.len() - 1 || kept[i].offset.value()
                        < kept[kept.len() - 1].offset.value());
                }
            }
        }
    }
}

/// What a chain gives for a segment it subdivides has gone through the whole of it: the stops
/// are those that lie inside of what the last matrix made, which is what each matrix in turn
/// made of the stops before it.
pub proof fn law_breakpoints_go_through_the_whole_chain(
    chain: ColorMatrixChain,
    start: Color,
    end: Color,
    premultiplied: bool,
    i: int,
)
    requires
        0 <= i < chain.segment_stops(start, end, premultiplied).len(),
    ensures
        stages(
            chain.matrices(),
            segment_ends(start, end),
            premultiplied,
            chain.matrices().len(),
        ).contains(chain.segment_stops(start, end, premultiplied)[i]),
        goes_through(
            chain.matrices(),
            segment_ends(start, end),
            premultiplied,
            chain.matrices().len(),
            chain.segment_stops(start, end, premultiplied)[i],
        ),
{
    let all = stages(
        chain.matrices(),
        segment_ends(start, end),
        premultiplied,
        chain.matrices().len(),
    );
    let stop = interior(all)[i];
    lemma_interior_is_part(all);
    assert(all.contains(stop));
    lemma_goes_through(
        chain.matrices(),
        segment_ends(start, end),
        premultiplied,
        chain.matrices().len(),
        stop,
    );
}

/// Whether a stop is one of the ends that the first `n` matrices have each been applied to, one
/// after the other, or began as a breakpoint at one of them and has gone through those after it.
pub open spec fn goes_through(
    matrices: Seq<ColorMatrix>,
    ends: Seq<ColorStop>,
    premultiplied: bool,
    n: nat,
    stop: ColorStop,
) -> bool
    decreases n,
{
    if n == 0 {
        ends.contains(stop)
    } else {
        let before = stages(matrices, ends, premultiplied, (n - 1) as nat);
        let matrix = matrices[n - 1];
        ||| exists|earlier: ColorStop|
            goes_through(matrices, ends, premultiplied, (n - 1) as nat, earlier) && stop
                == #[trigger] mapped(matrix, earlier, premultiplied)
        ||| exists|k: int, j: int| #[trigger]
            is_breakpoint(matrix, before, premultiplied, k, j, stop)
    }
}

/// Whether a stop is breakpoint `j` of piece `k` under a matrix, clamped.
pub open spec fn is_breakpoint(
    matrix: ColorMatrix,
    pieces: Seq<ColorStop>,
    premultiplied: bool,
    k: int,
    j: int,
    stop: ColorStop,
) -> bool {
    let (qa, qb) = (
        matrix.apply_vector(pieces[k].color, premultiplied),
        matrix.apply_vector(pieces[k + 1].color, premultiplied),
    );
    &&& 0 <= k < pieces.len() - 1
    &&& 0 <= j < breakpoints(qa, qb, premultiplied).len()
    &&& stop == placed(
        pieces[k].offset,
        pieces[k + 1].offset,
        breakpoints(qa, qb, premultiplied)[j],
        premultiplied,
    )
}

proof fn lemma_goes_through(
    matrices: Seq<ColorMatrix>,
    ends: Seq<ColorStop>,
    premultiplied: bool,
    n: nat,
    stop: ColorStop,
)
    requires
        ends.len() > 0,
        stages(matrices, ends, premultiplied, n).contains(stop),
    ensures
        goes_through(matrices, ends, premultiplied, n, stop),
        stages(matrices, ends, premultiplied, n).len() > 0,
    decreases n,
{
    if n > 0 {
        let k = (n - 1) as nat;
        let before = stages(matrices, ends, premultiplied, k);
        let matrix = matrices[k as int];
        lemma_stages_hold_something(matrices, ends, premultiplied, k);
        lemma_stage_member(
            matrix,
            before,
            premultiplied,
            (before.len() - 1) as nat,
            stop,
        );
        if exists|i: int|
            0 <= i < before.len() && stop == mapped(matrix, #[trigger] before[i], premultiplied) {
            let i = choose|i: int|
                0 <= i < before.len() && stop == mapped(
                    matrix,
                    #[trigger] before[i],
                    premultiplied,
                );
            assert(before.contains(before[i]));
            lemma_goes_through(matrices, ends, premultiplied, k, before[i]);
        }
    }
}

proof fn lemma_stages_hold_something(
    matrices: Seq<ColorMatrix>,
    ends: Seq<ColorStop>,
    premultiplied: bool,
    n: nat,
)
    requires
        ends.len() > 0,
    ensures
        stages(matrices, ends, premultiplied, n).len() > 0,
{
}

/// A stop of a segment under a matrix is one that was there, or a breakpoint.
pub proof fn lemma_stage_member(
    matrix: ColorMatrix,
    pieces: Seq<ColorStop>,
    premultiplied: bool,
    n: nat,
    stop: ColorStop,
)
    requires
        n < pieces.len(),
        pieces_stops(matrix, pieces, premultiplied, n).push(
            mapped(matrix, pieces[n as int], premultiplied),
        ).contains(stop),
    ensures
        (exists|i: int|
            0 <= i < pieces.len() && stop == mapped(matrix, #[trigger] pieces[i], premultiplied))
            || (exists|k: int, j: int| #[trigger]
            is_breakpoint(matrix, pieces, premultiplied, k, j, stop)),
    decreases n,
{
    let all = pieces_stops(matrix, pieces, premultiplied, n).push(
        mapped(matrix, pieces[n as int], premultiplied),
    );
    let i = choose|i: int| 0 <= i < all.len() && all[i] == stop;
    if i < all.len() - 1 {
        let k = n - 1;
        let earlier = pieces_stops(matrix, pieces, premultiplied, k as nat);
        let piece = piece_stops(matrix, pieces[k], pieces[k + 1], premultiplied);
        if i < earlier.len() {
            let shorter = earlier.push(mapped(matrix, pieces[k], premultiplied));
            assert(shorter[i] == stop);
            lemma_stage_member(matrix, pieces, premultiplied, k as nat, stop);
        } else {
            let j = i - earlier.len();
            assert(stop == piece[j]);
            if j == 0 {
                assert(stop == mapped(matrix, pieces[k], premultiplied));
            } else {
                assert(is_breakpoint(matrix, pieces, premultiplied, k, j - 1, stop));
            }
        }
    } else {
        assert(stop == mapped(matrix, pieces[n as int], premultiplied));
    }
}

/// What lies inside of a segment is a part of it.
pub proof fn lemma_interior_is_part(s: Seq<ColorStop>)
    ensures
        forall|i: int| 0 <= i < interior(s).len() ==> s.contains(#[trigger] interior(s)[i]),
    decreases s.len(),
{
    if s.len() > 0 {
        lemma_interior_is_part(s.drop_last());
        let before = interior(s.drop_last());
        assert forall|i: int| 0 <= i < interior(s).len() implies s.contains(
            #[trigger] interior(s)[i],
        ) by {
            if i < before.len() {
                assert(s.drop_last().contains(before[i]));
                let k = choose|k: int| 0 <= k < s.len() - 1 && s.drop_last()[k] == before[i];
                assert(s[k] == interior(s)[i]);
            } else {
                assert(s[s.len() - 1] == interior(s)[i]);
            }
        }
    }
}

} // verus!
