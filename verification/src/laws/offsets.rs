//! The offsets of a filtered ramp are in order.

use crate::color::Color;
use crate::color_matrix::{ColorMatrix, ColorMatrixChain};
use crate::ieee::Binary32;
use crate::ieee::error::{lemma_relative_error, lemma_whole_error};
use crate::ieee::facts::{lemma_rounded_exact, lemma_rounded_monotone, lemma_rounded_sign};
use crate::ieee::model::{lemma_mag_order, Format};
use crate::laws::ramp::{are_inside, does_not_fall, lemma_interior_is_part};
use crate::laws::segment::{lemma_neighbours, lemma_stage_ends, whole_piece};
use crate::ramp::{
    breakpoints, interior, is_interior, lemma_interior, mix, segment_ends, stages, to_vector,
    ColorStop, Gradient,
};
use vstd::prelude::*;

verus! {

/// A value that is interpolated inside a segment lies between those at its ends, and rises with
/// the position.
pub proof fn law_interpolated_values_rise(a: Binary32, b: Binary32, s0: Binary32, s1: Binary32)
    requires
        a.finite(),
        b.finite(),
        a.value() <= b.value(),
        b.minus(a).finite(),
        is_interior(s0),
        is_interior(s1),
        s0.value() <= s1.value(),
    ensures
        mix(a, b, s0).finite(),
        mix(a, b, s1).finite(),
        a.value() <= mix(a, b, s0).value() <= mix(a, b, s1).value() <= b.value(),
{
    lemma_mix_between(a, b, s0);
    lemma_mix_between(a, b, s1);
    let f = Format::Single;
    let one = Binary32::unit() as int;
    lemma_interior(s0);
    lemma_interior(s1);
    Binary32::lemma_constants(a);
    let d = b.minus(a);
    let dv = d.value();
    b.lemma_minus(a);
    lemma_rounded_sign(f, b.value() - a.value(), 1);
    s0.lemma_times(d);
    s1.lemma_times(d);
    let (t0, t1) = (s0.times(d), s1.times(d));
    let (m0, m1) = (s0.value() * dv, s1.value() * dv);
    assert(m0 <= m1) by (nonlinear_arith)
        requires
            m0 == s0.value() * dv,
            m1 == s1.value() * dv,
            s0.value() <= s1.value(),
            dv >= 0,
    ;
    assert(m0 * one <= m1 * one) by (nonlinear_arith)
        requires
            m0 <= m1,
            one > 0,
    ;
    lemma_rounded_monotone(f, m0, one as nat, m1, one as nat);
    a.lemma_plus(t0);
    a.lemma_plus(t1);
    lemma_rounded_monotone(f, a.value() + t0.value(), 1, a.value() + t1.value(), 1);
}

/// A value that is interpolated inside a segment lies between those at its ends.
proof fn lemma_mix_between(a: Binary32, b: Binary32, s: Binary32)
    requires
        a.finite(),
        b.finite(),
        a.value() <= b.value(),
        b.minus(a).finite(),
        is_interior(s),
    ensures
        s.times(b.minus(a)).finite(),
        mix(a, b, s).finite(),
        a.value() <= mix(a, b, s).value() <= b.value(),
{
    let f = Format::Single;
    let one = Binary32::unit() as int;
    let (va, vb) = (a.value(), b.value());
    let n = vb - va;
    lemma_interior(s);
    Binary32::lemma_constants(a);
    Binary32::lemma_constants(b);
    let sv = s.value();
    b.lemma_minus(a);
    let d = b.minus(a);
    let dv = d.value();
    Binary32::lemma_constants(d);
    lemma_rounded_sign(f, n, 1);
    // The product lies between zero and the difference.
    s.lemma_times(d);
    let t = s.times(d);
    let tv = t.value();
    Binary32::lemma_constants(t);
    lemma_rounded_exact(f, d.bits as nat, one as nat);
    lemma_rounded_sign(f, sv * dv, one as nat);
    assert(0 <= sv * dv <= dv * one) by (nonlinear_arith)
        requires
            0 < sv < one,
            dv >= 0,
    ;
    assert((sv * dv) * one <= (dv * one) * one) by (nonlinear_arith)
        requires
            one > 0,
            sv * dv <= dv * one,
    ;
    lemma_rounded_monotone(f, sv * dv, one as nat, dv * one, one as nat);
    assert(0 <= tv <= dv);
    lemma_mag_order(f, f.body(t.bits as nat), f.inf());
    lemma_mag_order(f, f.body(d.bits as nat), f.inf());
    // The product does not pass the exact difference.
    assert(tv <= n) by {
        if tv > n {
            lemma_whole_error(f, n);
            assert(dv * 0xff_ffff <= n * 0x100_0000);
            assert(n >= 0xff_ffff);
            let m = (sv * dv) as nat;
            lemma_relative_error(f, m, one as nat);
            assert(tv == f.mag(f.round(m, one as nat)));
            assert(tv * one * 0xff_ffff <= m * 0x100_0000);
            assert(tv * 0xff_ffff * 0x10_0000 <= dv * 0xf_ffff * 0x100_0000) by (nonlinear_arith)
                requires
                    tv * one * 0xff_ffff <= (sv * dv) * 0x100_0000,
                    sv * 0x10_0000 <= one * 0xf_ffff,
                    one > 0,
                    dv >= 0,
            {
                assert(tv * one * 0xff_ffff * 0x10_0000 <= (sv * dv) * 0x100_0000 * 0x10_0000);
                assert((sv * dv) * 0x100_0000 * 0x10_0000 == (sv * 0x10_0000) * (dv
                    * 0x100_0000));
                assert((sv * 0x10_0000) * (dv * 0x100_0000) <= (one * 0xf_ffff) * (dv
                    * 0x100_0000));
                assert((one * 0xf_ffff) * (dv * 0x100_0000) == one * (dv * 0xf_ffff
                    * 0x100_0000));
                assert(tv * one * 0xff_ffff * 0x10_0000 == one * (tv * 0xff_ffff * 0x10_0000));
            }
        }
    }
    a.lemma_plus(t);
    let r = a.plus(t);
    let sum = va + tv;
    Binary32::lemma_constants(r);
    lemma_rounded_exact(f, a.bits as nat, 1);
    lemma_rounded_exact(f, b.bits as nat, 1);
    assert(sum * 1 == sum && va * 1 == va && vb * 1 == vb) by (nonlinear_arith);
    lemma_rounded_monotone(f, va, 1, sum, 1);
    lemma_rounded_monotone(f, sum, 1, vb, 1);
    lemma_mag_order(f, f.body(r.bits as nat), f.inf());
    lemma_mag_order(f, f.body(a.bits as nat), f.inf());
    lemma_mag_order(f, f.body(b.bits as nat), f.inf());
}

/// Whether the offsets of a list are numbers, none below the one before it.
pub open spec fn is_in_order(list: Seq<ColorStop>) -> bool {
    &&& does_not_fall(list)
    &&& forall|i: int| 0 <= i < list.len() ==> (#[trigger] list[i]).offset.finite()
}

/// What is in order step by step is in order.
proof fn lemma_steps(list: Seq<ColorStop>)
    requires
        forall|i: int|
            0 <= i < list.len() - 1 ==> (#[trigger] list[i]).offset.value() <= list[i
                + 1].offset.value(),
    ensures
        does_not_fall(list),
    decreases list.len(),
{
    if list.len() > 0 {
        let short = list.drop_last();
        assert forall|i: int| 0 <= i < short.len() - 1 implies (
        #[trigger] short[i]).offset.value() <= short[i + 1].offset.value() by {
            assert(short[i] == list[i] && short[i + 1] == list[i + 1]);
        }
        lemma_steps(short);
        let n = list.len() - 1;
        assert forall|i: int, j: int| 0 <= i < j < list.len() implies (
        #[trigger] list[i]).offset.value() <= (#[trigger] list[j]).offset.value() by {
            assert(short[i] == list[i]);
            if j < n {
                assert(short[j] == list[j]);
            } else {
                assert(list[n - 1].offset.value() <= list[n].offset.value());
                assert(short[n - 1] == list[n - 1]);
            }
        }
    }
}

/// Two neighbouring stops of a cut piece are in order.
proof fn lemma_piece_steps(
    matrix: ColorMatrix,
    left: ColorStop,
    right: ColorStop,
    premultiplied: bool,
    j: int,
)
    requires
        left.offset.finite(),
        right.offset.finite(),
        left.offset.value() <= right.offset.value(),
        right.offset.minus(left.offset).finite(),
        0 <= j < whole_piece(matrix, left, right, premultiplied).len() - 1,
    ensures
        ({
            let stops = whole_piece(matrix, left, right, premultiplied);
            &&& stops[j].offset.finite()
            &&& stops[j + 1].offset.finite()
            &&& stops[j].offset.value() <= stops[j + 1].offset.value()
        }),
{
    let qa = matrix.apply_vector(left.color, premultiplied);
    let qb = matrix.apply_vector(right.color, premultiplied);
    let inner = breakpoints(qa, qb, premultiplied);
    crate::laws::ramp::law_breakpoints_rise(qa, qb, premultiplied);
    let (a, b) = (left.offset, right.offset);
    if 1 <= j {
        assert(is_interior(inner[j - 1].offset));
        lemma_mix_between(a, b, inner[j - 1].offset);
    }
    if j < inner.len() {
        assert(is_interior(inner[j].offset));
        lemma_mix_between(a, b, inner[j].offset);
    }
    if 1 <= j < inner.len() {
        assert(inner[j - 1].offset.value() < inner[j].offset.value());
        law_interpolated_values_rise(a, b, inner[j - 1].offset, inner[j].offset);
    }
}

/// The difference of two numbers from `[0, 1]` is finite.
pub proof fn lemma_span_is_finite(a: Binary32, b: Binary32)
    requires
        a.finite(),
        b.finite(),
        0 <= a.value() <= b.value(),
    ensures
        b.minus(a).finite(),
{
    let f = Format::Single;
    b.lemma_minus(a);
    let d = b.minus(a);
    Binary32::lemma_constants(d);
    Binary32::lemma_constants(b);
    lemma_rounded_exact(f, b.bits as nat, 1);
    let n = b.value() - a.value();
    assert(n * 1 == n && b.value() * 1 == b.value()) by (nonlinear_arith);
    lemma_rounded_monotone(f, n, 1, b.value(), 1);
    lemma_rounded_sign(f, n, 1);
    lemma_mag_order(f, f.body(d.bits as nat), f.inf());
    lemma_mag_order(f, f.body(b.bits as nat), f.inf());
}

/// What every matrix makes of a segment is in order.
pub proof fn lemma_stages_in_order(
    matrices: Seq<ColorMatrix>,
    start: Color,
    end: Color,
    premultiplied: bool,
    n: nat,
)
    ensures
        is_in_order(stages(matrices, segment_ends(start, end), premultiplied, n)),
    decreases n,
{
    let ends = segment_ends(start, end);
    Binary32::lemma_constants(Binary32::zero());
    if n > 0 {
        let k = (n - 1) as nat;
        lemma_stages_in_order(matrices, start, end, premultiplied, k);
        lemma_stage_ends(matrices, ends, premultiplied, k);
        lemma_stage_ends(matrices, ends, premultiplied, n);
        let before = stages(matrices, ends, premultiplied, k);
        let all = stages(matrices, ends, premultiplied, n);
        let m = matrices[k as int];
        let count = (before.len() - 1) as nat;
        assert forall|i: int| 0 <= i < all.len() - 1 implies (#[trigger] all[i]).offset.value()
            <= all[i + 1].offset.value() && all[i].offset.finite() by {
            let (p, j) = lemma_neighbours(m, before, premultiplied, count, i);
            let (left, right) = (before[p], before[p + 1]);
            assert(p == 0 || before[0].offset.value() <= left.offset.value());
            lemma_span_is_finite(left.offset, right.offset);
            lemma_piece_steps(m, left, right, premultiplied, j);
        }
        lemma_steps(all);
        assert forall|i: int| 0 <= i < all.len() implies (#[trigger] all[i]).offset.finite() by {
            if i == all.len() - 1 {
                assert(all.last().offset == Binary32::one());
            }
        }
    }
}

/// A part of a list that is in order is.
proof fn lemma_interior_in_order(s: Seq<ColorStop>)
    requires
        does_not_fall(s),
    ensures
        does_not_fall(interior(s)),
        are_inside(interior(s)),
    decreases s.len(),
{
    if s.len() > 0 {
        let short = s.drop_last();
        assert(does_not_fall(short)) by {
            assert forall|i: int, j: int| 0 <= i < j < short.len() implies (
            #[trigger] short[i]).offset.value() <= (#[trigger] short[j]).offset.value() by {
                assert(short[i] == s[i] && short[j] == s[j]);
            }
        }
        lemma_interior_in_order(short);
        lemma_interior_is_part(short);
        let kept = interior(short);
        let all = interior(s);
        assert forall|i: int, j: int| 0 <= i < j < all.len() implies (
        #[trigger] all[i]).offset.value() <= (#[trigger] all[j]).offset.value() by {
            assert(all[i] == kept[i]);
            if j == kept.len() {
                assert(short.contains(kept[i]));
                let k = choose|k: int| 0 <= k < short.len() && short[k] == kept[i];
                assert(s[k].offset.value() <= s[s.len() - 1].offset.value());
            } else {
                assert(all[j] == kept[j]);
            }
        }
    }
}

/// The breakpoints of a segment are in order.
pub proof fn law_segment_stops_are_in_order(
    chain: ColorMatrixChain,
    start: Color,
    end: Color,
    premultiplied: bool,
)
    ensures
        does_not_fall(chain.segment_stops(start, end, premultiplied)),
        are_inside(chain.segment_stops(start, end, premultiplied)),
{
    let n = chain.matrices().len();
    lemma_stages_in_order(chain.matrices(), start, end, premultiplied, n);
    lemma_interior_in_order(
        stages(chain.matrices(), segment_ends(start, end), premultiplied, n),
    );
}

/// Whether the offsets of a ramp can be interpolated between: they are numbers, none below the
/// one before it, and no two neighbours so far apart that their distance is not finite.
pub open spec fn can_be_subdivided(source: Seq<ColorStop>) -> bool {
    &&& is_in_order(source)
    &&& forall|i: int|
        0 <= i < source.len() - 1 ==> source[i + 1].offset.minus(
            (#[trigger] source[i]).offset,
        ).finite()
}

/// The filtered ramp up to an authored stop is in order.
proof fn lemma_subdivided_in_order(
    chain: ColorMatrixChain,
    source: Seq<ColorStop>,
    premultiplied: bool,
    n: nat,
)
    requires
        can_be_subdivided(source),
        n < source.len(),
    ensures
        is_in_order(chain.subdivided(source, premultiplied, n)),
        chain.subdivided(source, premultiplied, n).len() > 0,
        chain.subdivided(source, premultiplied, n).last().offset == source[n as int].offset,
    decreases n,
{
    let all = chain.subdivided(source, premultiplied, n);
    if n == 0 {
        lemma_steps(all);
    } else {
        let k = (n - 1) as nat;
        lemma_subdivided_in_order(chain, source, premultiplied, k);
        let before = chain.subdivided(source, premultiplied, k);
        let (left, right) = (source[n - 1], source[n as int]);
        let (a, b) = (left.offset, right.offset);
        let (start, end) = (
            to_vector(left.color, premultiplied),
            to_vector(right.color, premultiplied),
        );
        let inner = chain.segment_stops(start, end, premultiplied);
        let more = chain.segment_ramp(left, right, premultiplied);
        law_segment_stops_are_in_order(chain, start, end, premultiplied);
        assert(source[n - 1].offset.value() <= source[n as int].offset.value());
        assert(b.minus(a).finite());
        let m = more.len() - 1;
        assert forall|i: int| 0 <= i < m implies (#[trigger] more[i]).offset.finite()
            && a.value() <= more[i].offset.value() <= b.value() && more[i].offset == mix(
            a,
            b,
            inner[i].offset,
        ) by {
            assert(is_interior(inner[i].offset));
            lemma_mix_between(a, b, inner[i].offset);
        }
        assert(more[m] == chain.filtered_stop(right));
        assert forall|i: int| 0 <= i < all.len() - 1 implies (#[trigger] all[i]).offset.value()
            <= all[i + 1].offset.value() by {
            let j = i - before.len();
            if j < -1 {
                assert(all[i] == before[i] && all[i + 1] == before[i + 1]);
            } else if j == -1 {
                assert(all[i] == before.last() && all[i + 1] == more[0]);
            } else {
                assert(all[i] == more[j] && all[i + 1] == more[j + 1]);
                if j + 1 < m {
                    assert(is_interior(inner[j].offset) && is_interior(inner[j + 1].offset));
                    assert(inner[j].offset.value() <= inner[j + 1].offset.value());
                    law_interpolated_values_rise(a, b, inner[j].offset, inner[j + 1].offset);
                }
            }
        }
        lemma_steps(all);
        assert forall|i: int| 0 <= i < all.len() implies (#[trigger] all[i]).offset.finite() by {
            if i < before.len() {
                assert(all[i] == before[i]);
            } else {
                assert(all[i] == more[i - before.len()]);
            }
        }
    }
}

/// Where the offsets of a gradient do not fall, those of the filtered gradient do not either.
pub proof fn law_filtered_offsets_are_in_order(chain: ColorMatrixChain, gradient: Gradient)
    requires
        can_be_subdivided(gradient.ramp()),
    ensures
        is_in_order(chain.filtered_ramp(gradient)),
{
    let source = gradient.ramp();
    if chain.is_exact_for(gradient) && source.len() >= 2 {
        lemma_subdivided_in_order(
            chain,
            source,
            gradient.premultiplied,
            (source.len() - 1) as nat,
        );
    } else {
        let all = chain.filtered_ramp(gradient);
        assert forall|i: int, j: int| 0 <= i < j < all.len() implies (
        #[trigger] all[i]).offset.value() <= (#[trigger] all[j]).offset.value() by {
            assert(source[i].offset.value() <= source[j].offset.value());
        }
    }
}

} // verus!
