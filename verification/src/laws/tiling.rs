//! Laws of repeated backgrounds.

use crate::ieee::Binary64;
use crate::ieee::error::{lemma_relative_error, lemma_whole_error};
use crate::ieee::facts::{
    lemma_infinity_value, lemma_remainder_exact, lemma_remainder_value, lemma_round_bound,
    lemma_rounded_exact, lemma_rounded_monotone, lemma_rounded_sign, lemma_value_zero,
};
use crate::ieee::model::{lemma_format_constants, lemma_mag_order, lemma_round_nearest, Format};
use crate::tiling::{
    extend, first_visible, is_cullable, last_visible, lemma_distance_is_number, lemma_span,
    space_count, space_stride, spec_culled, spec_gradient_axis_tiling, tiled_area, tiles_ahead,
    AxisTiling, RepeatKeyword,
};
use vstd::prelude::*;

verus! {

/// What rounds below the normal range was below it, up to the last unit.
proof fn lemma_small(f: Format, n: nat, d: nat)
    requires
        d > 0,
        f.mag(f.round(n, d)) < f.hidden(),
    ensures
        n <= d * f.hidden(),
{
    let b = f.round(n, d);
    let h = f.hidden();
    lemma_round_nearest(f, n, d);
    lemma_format_constants(f);
    reveal(Format::is_nearest);
    reveal(Format::mag);
    lemma_mag_order(f, b, h);
    assert(f.mag(h) == h) by {
        crate::ieee::model::lemma_mag_parts(f, h, 0);
        vstd::arithmetic::power2::lemma2_to64();
        assert(0 * h + h == h && h * 1 == h) by (nonlinear_arith);
    }
    assert(b < h);
    lemma_mag_order(f, (b + 1) as nat, h);
    let m = f.mag(b) + f.mag(b + 1);
    assert(2 * n <= d * m);
    assert(d * m <= d * (2 * h)) by (nonlinear_arith)
        requires
            m <= 2 * h,
    ;
    assert(d * (2 * h) == 2 * (d * h)) by (nonlinear_arith);
}

/// The largest offset, in strides, between an edge of the surface and an edge of a tile for
/// which the rounding of their difference stays within one stride.
pub const EXACT_STRIDES: u64 = 0x20_0000_0000_0000;

/// A distance of `n - t` that comes out, after three roundings, at `j` strides or more is at
/// least `j - 2` strides.
proof fn lemma_distance_bound(n: int, t: int, s: int, j: int)
    requires
        s > 0,
        -(EXACT_STRIDES as int) * s <= n <= EXACT_STRIDES * s,
        -0x2_0000_0000 <= j <= 0x2_0000_0000,
        ({
            let f = Format::Double;
            let d1 = f.rounded(n, 1);
            let d2 = f.rounded(d1 - t, 1);
            &&& -f.mag(f.inf()) < d1 < f.mag(f.inf())
            &&& -f.mag(f.inf()) < d2 < f.mag(f.inf())
            &&& f.rounded(d2 * f.one(), s as nat) >= j * f.one()
        }),
    ensures
        n - t >= (j - 2) * s,
{
    let f = Format::Double;
    let p: int = 0x20_0000_0000_0000;
    let one = f.one() as int;
    let d1 = f.rounded(n, 1);
    let m = d1 - t;
    let d2 = f.rounded(m, 1);
    let js = j * s;
    assert(f.hidden() * 2 == p);
    lemma_whole_error(f, n);
    lemma_whole_error(f, m);
    lemma_rounded_sign(f, m, 1);
    vstd::arithmetic::power2::lemma_pow2_pos(1074);
    assert(one >= 4 * f.hidden()) by {
        vstd::arithmetic::power2::lemma2_to64();
        crate::ieee::rounding::lemma_pow2_monotone(54, 1074);
        vstd::arithmetic::power2::lemma2_to64_rest();
    }
    assert((j - 2) * s == js - 2 * s) by (nonlinear_arith)
        requires
            js == j * s,
    ;
    assert(-0x2_0000_0000 * s <= js <= 0x2_0000_0000 * s) by (nonlinear_arith)
        requires
            js == j * s,
            s > 0,
            -0x2_0000_0000 <= j <= 0x2_0000_0000,
    ;
    assert(j <= 0 ==> js <= 0) by (nonlinear_arith)
        requires
            js == j * s,
            s > 0,
    ;
    assert(n >= 0 ==> d1 * 0x1f_ffff_ffff_ffff <= n * 0x20_0000_0000_0000);
    assert(n <= 0 ==> d1 * 0x20_0000_0000_0001 <= n * 0x20_0000_0000_0000);
    assert(m >= 0 ==> d2 * 0x1f_ffff_ffff_ffff <= m * 0x20_0000_0000_0000);
    assert(m <= 0 ==> d2 * 0x20_0000_0000_0001 <= m * 0x20_0000_0000_0000);
    assert(-0x20_0000_0000_0000 * s <= n <= 0x20_0000_0000_0000 * s) by (nonlinear_arith)
        requires
            -(EXACT_STRIDES as int) * s <= n <= EXACT_STRIDES * s,
            EXACT_STRIDES == 0x20_0000_0000_0000,
    ;
    if j >= 1 {
        assert(j * one >= one) by (nonlinear_arith)
            requires
                j >= 1,
                one > 0,
        ;
        lemma_rounded_sign(f, d2 * one, s as nat);
        assert(d2 > 0) by {
            if d2 <= 0 {
                assert(d2 * one <= 0) by (nonlinear_arith)
                    requires
                        d2 <= 0,
                        one > 0,
                ;
            }
        }
        assert(d2 * one >= 0) by (nonlinear_arith)
            requires
                d2 > 0,
                one > 0,
        ;
        lemma_relative_error(f, (d2 * one) as nat, s as nat);
        let q = f.rounded(d2 * one, s as nat);
        assert(js * (p - 1) <= d2 * p) by (nonlinear_arith)
            requires
                q * s * (p - 1) <= (d2 * one) * p,
                q >= j * one,
                js == j * s,
                s > 0,
                p > 1,
                one > 0,
        {
            assert(q * s >= (j * one) * s);
            assert(q * s * (p - 1) >= (j * one) * s * (p - 1));
            assert((j * one) * s * (p - 1) == one * (js * (p - 1)));
            assert((d2 * one) * p == one * (d2 * p));
            assert(one * (js * (p - 1)) <= one * (d2 * p));
        }
    } else if d2 < 0 {
        let a = -d2;
        assert(a * one > 0) by (nonlinear_arith)
            requires
                a > 0,
                one > 0,
        ;
        assert(d2 * one == -(a * one)) by (nonlinear_arith)
            requires
                a == -d2,
        ;
        let n1 = (a * one) as nat;
        let mq = f.mag(f.round(n1, s as nat));
        assert(mq <= -(j * one));
        lemma_relative_error(f, n1, s as nat);
        lemma_round_bound(f, n1, s as nat);
        lemma_infinity_value(f);
        if mq < f.hidden() {
            lemma_small(f, n1, s as nat);
            assert(4 * a <= s) by (nonlinear_arith)
                requires
                    a * one <= s * f.hidden(),
                    one >= 4 * f.hidden(),
                    f.hidden() > 0,
                    a > 0,
            {
                assert(a * one >= a * (4 * f.hidden()));
                assert(a * (4 * f.hidden()) == (4 * a) * f.hidden());
                assert((4 * a) * f.hidden() <= s * f.hidden());
            }
        } else {
            assert(-(j * one) <= 0x2_0000_0000 * one) by (nonlinear_arith)
                requires
                    j >= -0x2_0000_0000,
                    one > 0,
            ;
            assert(0x2_0000_0000 * one < 8 * f.hidden() * f.hidden() * one) by (nonlinear_arith)
                requires
                    f.hidden() == 0x10_0000_0000_0000,
                    one > 0,
            ;
            lemma_mag_order(f, f.round(n1, s as nat), f.inf());
            assert(a * p <= -js * (p + 1)) by (nonlinear_arith)
                requires
                    (a * one) * p <= mq * s * (p + 1),
                    mq <= -(j * one),
                    js == j * s,
                    s > 0,
                    p > 1,
                    one > 0,
            {
                assert(mq * s <= (-(j * one)) * s);
                assert(mq * s * (p + 1) <= (-(j * one)) * s * (p + 1));
                assert((-(j * one)) * s * (p + 1) == one * (-js * (p + 1)));
                assert((a * one) * p == one * (a * p));
                assert(one * (a * p) <= one * (-js * (p + 1)));
            }
        }
    }
}

/// Rounding is symmetric about zero.
proof fn lemma_rounded_opposite(f: Format, n: int, d: nat)
    requires
        d > 0,
    ensures
        f.rounded(-n, d) == -f.rounded(n, d),
{
    crate::ieee::facts::lemma_rounded_zero(f, d);
}

/// An index below a rounded first index is two below the quotient that it came from.
proof fn lemma_before_first(q: Binary64, i: int)
    requires
        !q.nan(),
        0 <= i <= u32::MAX,
        q.floor().minus(Binary64::one()).value() > i * Binary64::unit(),
    ensures
        q.value() >= (i + 2) * Binary64::unit(),
{
    let f = Format::Double;
    let one = Binary64::unit() as int;
    let first = q.floor().minus(Binary64::one());
    Binary64::lemma_constants(q);
    assert(i * one >= 0) by (nonlinear_arith)
        requires
            i >= 0,
            one > 0,
    ;
    if q.finite() {
        let k = q.value() / one;
        q.lemma_floor();
        Binary64::lemma_constants(q.floor());
        if k < i + 2 {
            if q.floor().finite() {
                q.floor().lemma_minus(Binary64::one());
                assert(k * one - one <= i * one) by (nonlinear_arith)
                    requires
                        k <= i + 1,
                        one > 0,
                ;
                lemma_rounded_monotone(f, k * one - one, 1, i * one, 1);
                Binary64::lemma_from_unsigned(i as u64);
                lemma_rounded_exact(f, Binary64::from_unsigned(i as u64).bits as nat, 1);
            } else {
                lemma_whole_bound(q.floor(), k);
                q.floor().lemma_infinite(Binary64::one());
                assert(k * one <= 0) by (nonlinear_arith)
                    requires
                        k <= 0,
                        one > 0,
                ;
            }
        }
        assert(k >= i + 2);
        vstd::arithmetic::div_mod::lemma_fundamental_div_mod(q.value(), one);
        vstd::arithmetic::div_mod::lemma_mod_bound(q.value(), one);
        assert(q.value() >= (i + 2) * one) by (nonlinear_arith)
            requires
                q.value() == one * k + q.value() % one,
                q.value() % one >= 0,
                k >= i + 2,
                one > 0,
        ;
    } else {
        q.lemma_floor_infinite();
        q.lemma_infinite(Binary64::one());
        lemma_infinity_value(f);
        assert(q.value() == f.mag(f.inf()) || q.value() == -f.mag(f.inf()));
        assert(8 * f.hidden() * f.hidden() * one >= (i + 2) * one) by (nonlinear_arith)
            requires
                f.hidden() == 0x10_0000_0000_0000,
                one > 0,
                i <= 0xffff_ffff,
        ;
        assert(8 * f.hidden() * f.hidden() * one >= 0) by (nonlinear_arith)
            requires
                one > 0,
        ;
    }
}

/// A floor or a ceiling that is infinite is not of moderate size.
proof fn lemma_whole_bound(x: Binary64, k: int)
    requires
        !x.nan(),
        !x.finite(),
        x.value() == k * Binary64::unit(),
    ensures
        k >= 0x2_0000_0000 || k <= -0x2_0000_0000,
{
    let f = Format::Double;
    let one = Binary64::unit() as int;
    Binary64::lemma_constants(x);
    lemma_infinity_value(f);
    assert(x.value() == f.mag(f.inf()) || x.value() == -f.mag(f.inf()));
    if -0x2_0000_0000 < k < 0x2_0000_0000 {
        assert(-0x2_0000_0000 * one <= k * one <= 0x2_0000_0000 * one
            && 8 * f.hidden() * f.hidden() * one > 0x2_0000_0000 * one) by (nonlinear_arith)
            requires
                f.hidden() == 0x10_0000_0000_0000,
                one > 0,
                -0x2_0000_0000 < k < 0x2_0000_0000,
        ;
    }
}

/// An index above a rounded last index is two above the quotient that it came from.
proof fn lemma_after_last(q: Binary64, i: int)
    requires
        !q.nan(),
        0 <= i <= u32::MAX,
        q.ceil().plus(Binary64::one()).value() < i * Binary64::unit(),
    ensures
        q.value() <= (i - 2) * Binary64::unit(),
{
    let f = Format::Double;
    let one = Binary64::unit() as int;
    Binary64::lemma_constants(q);
    if q.finite() {
        let k = -((-q.value()) / one);
        q.lemma_ceil();
        Binary64::lemma_constants(q.ceil());
        if k > i - 2 {
            if q.ceil().finite() {
                q.ceil().lemma_plus(Binary64::one());
                assert(k * one + one >= i * one) by (nonlinear_arith)
                    requires
                        k >= i - 1,
                        one > 0,
                ;
                lemma_rounded_monotone(f, i * one, 1, k * one + one, 1);
                Binary64::lemma_from_unsigned(i as u64);
                lemma_rounded_exact(f, Binary64::from_unsigned(i as u64).bits as nat, 1);
            } else {
                lemma_whole_bound(q.ceil(), k);
                q.ceil().lemma_infinite(Binary64::one());
                assert(k * one > i * one) by (nonlinear_arith)
                    requires
                        k > i,
                        one > 0,
                ;
            }
        }
        assert(k <= i - 2);
        let v = -q.value();
        vstd::arithmetic::div_mod::lemma_fundamental_div_mod(v, one);
        vstd::arithmetic::div_mod::lemma_mod_bound(v, one);
        assert(q.value() <= (i - 2) * one) by (nonlinear_arith)
            requires
                v == one * (v / one) + v % one,
                v % one >= 0,
                v == -q.value(),
                k == -(v / one),
                k <= i - 2,
                one > 0,
        ;
    } else {
        q.lemma_floor_infinite();
        q.lemma_infinite(Binary64::one());
        lemma_infinity_value(f);
        assert(q.value() == f.mag(f.inf()) || q.value() == -f.mag(f.inf()));
        assert(8 * f.hidden() * f.hidden() * one >= (i + 2) * one) by (nonlinear_arith)
            requires
                f.hidden() == 0x10_0000_0000_0000,
                one > 0,
                i <= 0xffff_ffff,
        ;
        assert((i + 2) * one >= i * one && -((i + 2) * one) <= (i - 2) * one) by (nonlinear_arith)
            requires
                one > 0,
                i >= 0,
        ;
    }
}

/// Whether tile `i` of a tiling lies beside the surface, in exact arithmetic.
pub open spec fn misses_surface(
    tiling: AxisTiling,
    tile_lo: Binary64,
    tile_hi: Binary64,
    surface_lo: Binary64,
    surface_hi: Binary64,
    i: int,
) -> bool {
    let offset = tiling.translate.value() + i * tiling.stride.value();
    ||| tile_hi.value() + offset <= surface_lo.value()
    ||| tile_lo.value() + offset >= surface_hi.value()
}

/// The index, in the tiling as it was, of the first tile that culling keeps.
pub open spec fn first_kept(
    tiling: AxisTiling,
    tile_lo: Binary64,
    tile_hi: Binary64,
    surface_lo: Binary64,
    surface_hi: Binary64,
) -> int {
    let max_index = Binary64::from_unsigned((tiling.count - 1) as u64);
    let first = first_visible(tiling, tile_hi, surface_lo);
    first.clamp(Binary64::zero(), max_index).value() / (Binary64::unit() as int)
}

/// Whether an edge of the surface and an edge of a tile are close enough, for the stride of
/// the tiling, that their offset is known to within a stride.
pub open spec fn is_within_reach(surface: Binary64, tile: Binary64, tiling: AxisTiling) -> bool {
    let offset = surface.value() - tile.value();
    let reach = EXACT_STRIDES * tiling.stride.value();
    &&& -reach <= offset <= reach
    &&& surface.minus(tile).minus(tiling.translate).finite()
}

/// Whether an edge of the surface is so far from an edge of a tile that no tile of a tiling that
/// starts nearby gets there.
pub open spec fn is_beyond(surface: Binary64, tile: Binary64, tiling: AxisTiling) -> bool {
    let offset = surface.value() - tile.value();
    let reach = EXACT_STRIDES * tiling.stride.value();
    &&& offset <= -reach || reach <= offset
    &&& -reach <= 2 * tiling.translate.value() <= reach
}

/// Whether it is known on which side of an edge of the surface the edges of the tiles are.
pub open spec fn is_measurable(surface: Binary64, tile: Binary64, tiling: AxisTiling) -> bool {
    is_within_reach(surface, tile, tiling) || is_beyond(surface, tile, tiling)
}

/// A clamped index is a whole number of tiles.
pub proof fn lemma_clamped_index(
    x: Binary64,
    k: int,
    low: Binary64,
    at: int,
    max_index: Binary64,
    most: u64,
)
    requires
        !x.nan(),
        x.finite() ==> x.value() == Binary64::rounded(k * Binary64::unit(), 1),
        0 <= at <= most <= u32::MAX,
        low.finite(),
        low.value() == at * Binary64::unit(),
        max_index == Binary64::from_unsigned(most),
    ensures
        x.clamp(low, max_index).value() % (Binary64::unit() as int) == 0,
        low.value() <= x.clamp(low, max_index).value() <= max_index.value(),
        at <= x.clamp(low, max_index).value() / (Binary64::unit() as int) <= most,
{
    let f = Format::Double;
    let one = Binary64::unit() as int;
    let c = x.clamp(low, max_index);
    Binary64::lemma_constants(x);
    Binary64::lemma_from_unsigned(most);
    assert(at * one <= most * one) by (nonlinear_arith)
        requires
            at <= most,
            one > 0,
    ;
    let j: int = if c == low {
        at
    } else if c == max_index {
        most as int
    } else {
        k
    };
    if c != low && c != max_index {
        lemma_mag_order(f, f.body(x.bits as nat), f.inf());
        lemma_mag_order(f, f.body(max_index.bits as nat), f.inf());
        assert(x.finite()) by {
            if !x.finite() {
                assert(x.value() == f.mag(f.inf()) || x.value() == -f.mag(f.inf()));
                assert(max_index.value() < f.mag(f.inf()));
                assert(at * one >= 0) by (nonlinear_arith)
                    requires
                        at >= 0,
                        one > 0,
                ;
            }
        }
        // Past the exact range the index would lie past the end.
        if k > 0x2_0000_0000 {
            assert(0x2_0000_0000 * one <= k * one && most * one < 0x2_0000_0000 * one)
                by (nonlinear_arith)
                requires
                    k > 0x2_0000_0000,
                    most <= 0xffff_ffff,
                    one > 0,
            ;
            Binary64::lemma_from_unsigned(0x2_0000_0000);
            lemma_rounded_exact(f, Binary64::from_unsigned(0x2_0000_0000).bits as nat, 1);
            lemma_rounded_monotone(f, 0x2_0000_0000 * one, 1, k * one, 1);
        } else if k < 0 {
            assert(k * one < 0 && at * one >= 0) by (nonlinear_arith)
                requires
                    k < 0,
                    at >= 0,
                    one > 0,
            ;
            lemma_rounded_sign(f, k * one, 1);
            crate::ieee::facts::lemma_rounded_zero(f, 1);
            assert(x.value() == 0 && at * one == 0);
            lemma_whole_error(f, k * one);
            lemma_infinity_value(f);
            assert(8 * f.hidden() * f.hidden() * one > 0) by (nonlinear_arith)
                requires
                    f.hidden() == 0x10_0000_0000_0000,
                    one > 0,
            ;
            assert(0 <= (k * one) * (2 * f.hidden()));
            assert((k * one) * (2 * f.hidden()) < 0) by (nonlinear_arith)
                requires
                    k * one < 0,
                    f.hidden() == 0x10_0000_0000_0000,
            ;
        } else {
            Binary64::lemma_from_unsigned(k as u64);
            lemma_rounded_exact(f, Binary64::from_unsigned(k as u64).bits as nat, 1);
            assert((k * one) * 1 == k * one) by (nonlinear_arith);
        }
    }
    assert(c.value() == j * one);
    vstd::arithmetic::div_mod::lemma_mod_multiples_basic(j, one);
    vstd::arithmetic::div_mod::lemma_div_by_multiple(j, one);
    assert(at <= j <= most) by (nonlinear_arith)
        requires
            at * one <= j * one <= most * one,
            one > 0,
    ;
}

/// The first and the last index that culling computes, as rounded whole numbers.
pub proof fn lemma_steps(q: Binary64) -> (r: (int, int))
    requires
        !q.nan(),
    ensures
        ({
            let first = q.floor().minus(Binary64::one());
            let last = q.ceil().plus(Binary64::one());
            &&& !first.nan()
            &&& !last.nan()
            &&& first.finite() ==> first.value() == Binary64::rounded(r.0 * Binary64::unit(), 1)
            &&& last.finite() ==> last.value() == Binary64::rounded(r.1 * Binary64::unit(), 1)
        }),
{
    let one = Binary64::unit() as int;
    let unit = Binary64::one();
    Binary64::lemma_constants(q);
    if q.finite() {
        q.lemma_floor();
        q.lemma_ceil();
        let low = q.value() / one;
        let high = -((-q.value()) / one);
        assert(low * one - one == (low - 1) * one) by (nonlinear_arith);
        assert(high * one + one == (high + 1) * one) by (nonlinear_arith);
        if q.floor().finite() {
            q.floor().lemma_minus(unit);
        } else {
            q.floor().lemma_infinite(unit);
        }
        if q.ceil().finite() {
            q.ceil().lemma_plus(unit);
        } else {
            q.ceil().lemma_infinite(unit);
        }
        (low - 1, high + 1)
    } else {
        q.lemma_floor_infinite();
        q.lemma_infinite(unit);
        (0, 0)
    }
}

/// The distance to an edge of the surface that is beyond the tiles, along with the translation.
proof fn lemma_far(surface: Binary64, tile: Binary64, tiling: AxisTiling)
    requires
        surface.finite(),
        tile.finite(),
        tiling.translate.finite(),
        tiling.stride.finite(),
        tiling.stride.value() > 0,
        is_beyond(surface, tile, tiling),
    ensures
        ({
            let n = surface.value() - tile.value();
            let d = surface.minus(tile).minus(tiling.translate);
            &&& !d.nan()
            &&& n > 0 ==> !d.finite() && d.value() > 0 || d.value() >= 0x4_0000_0000_0000
                * tiling.stride.value()
            &&& n < 0 ==> d.value() <= 0
        }),
{
    let f = Format::Double;
    let n = surface.value() - tile.value();
    let (t, s) = (tiling.translate.value(), tiling.stride.value());
    Binary64::lemma_constants(surface);
    lemma_format_constants(f);
    surface.lemma_minus(tile);
    let x = surface.minus(tile);
    Binary64::lemma_constants(x);
    crate::ieee::error::lemma_whole_error(f, n);
    lemma_rounded_sign(f, n, 1);
    assert(f.hidden() == 0x10_0000_0000_0000);
    lemma_mag_order(f, f.body(x.bits as nat), f.inf());
    lemma_mag_order(f, 0, f.inf());
    lemma_value_zero(f, 0);
    if !x.finite() {
        x.lemma_infinite(tiling.translate);
    } else {
        let r = x.value();
        assert(n >= 0 ==> n * 0x20_0000_0000_0000 <= r * 0x20_0000_0000_0001);
        assert(n <= 0 ==> r * 0x20_0000_0000_0001 <= n * 0x20_0000_0000_0000);
        x.lemma_minus(tiling.translate);
        let d = x.minus(tiling.translate);
        Binary64::lemma_constants(d);
        lemma_mag_order(f, f.body(d.bits as nat), f.inf());
        let m = r - t;
        assert(n > 0 ==> m >= 0x8_0000_0000_0000 * s);
        assert(n < 0 ==> m <= 0);
        crate::ieee::error::lemma_whole_error(f, m);
        lemma_rounded_sign(f, m, 1);
        if n > 0 && d.finite() {
            assert(m * 0x20_0000_0000_0000 <= d.value() * 0x20_0000_0000_0001);
        }
    }
}

/// The number of strides to an edge far behind the tiles is more than can be counted.
proof fn lemma_far_behind(surface: Binary64, tile: Binary64, tiling: AxisTiling)
    requires
        surface.finite(),
        tile.finite(),
        tiling.translate.finite(),
        tiling.stride.finite(),
        tiling.stride.value() > 0,
        is_beyond(surface, tile, tiling),
        surface.value() > tile.value(),
    ensures
        last_visible(tiling, tile, surface).value() > u32::MAX * Binary64::unit(),
{
    let f = Format::Double;
    let one = Binary64::unit() as int;
    let s = tiling.stride.value();
    lemma_far(surface, tile, tiling);
    let d = surface.minus(tile).minus(tiling.translate);
    let q = d.over(tiling.stride);
    let most = Binary64::from_unsigned(0x1_0000_0000);
    Binary64::lemma_from_unsigned(0x1_0000_0000);
    Binary64::lemma_constants(d);
    Binary64::lemma_constants(q);
    Binary64::lemma_constants(q.ceil());
    lemma_format_constants(f);
    lemma_mag_order(f, f.body(most.bits as nat), f.inf());
    assert(u32::MAX * one < 0x1_0000_0000 * one) by (nonlinear_arith)
        requires
            one > 0,
    ;
    let last = last_visible(tiling, tile, surface);
    if d.finite() {
        d.lemma_over(tiling.stride);
        let n = d.value() * one;
        let k = 0x1_0000_0000 * one;
        assert(k * s <= n && (k * s) * s <= n * s) by (nonlinear_arith)
            requires
                k == 0x1_0000_0000 * one,
                n == d.value() * one,
                d.value() >= 0x4_0000_0000_0000 * s,
                s > 0,
                one > 0,
        {
            assert(d.value() >= 0x1_0000_0000 * s);
            assert(d.value() * one >= (0x1_0000_0000 * s) * one);
            assert((0x1_0000_0000 * s) * one == k * s);
        }
        lemma_rounded_exact(f, most.bits as nat, s as nat);
        lemma_rounded_monotone(f, k * s, s as nat, n, s as nat);
        assert(q.value() >= k);
    } else {
        d.lemma_infinite(tiling.stride);
    }
    if q.finite() {
        q.lemma_ceil();
        let c = q.ceil();
        let up = -((-q.value()) / one);
        vstd::arithmetic::div_mod::lemma_fundamental_div_mod(-q.value(), one);
        vstd::arithmetic::div_mod::lemma_mod_bound(-q.value(), one);
        assert(up * one >= q.value()) by (nonlinear_arith)
            requires
                -q.value() == one * (-up) + (-q.value()) % one,
                0 <= (-q.value()) % one,
        ;
        if c.finite() {
            c.lemma_plus(Binary64::one());
            let k = c.value();
            assert(k >= 0x1_0000_0000 * one);
            lemma_rounded_exact(f, most.bits as nat, 1);
            assert(most.value() * 1 == most.value() && (k + one) * 1 == k + one)
                by (nonlinear_arith);
            lemma_rounded_monotone(f, most.value(), 1, k + one, 1);
        } else {
            c.lemma_infinite(Binary64::one());
        }
    } else {
        q.lemma_floor_infinite();
        q.lemma_infinite(Binary64::one());
        lemma_mag_order(f, f.body(q.bits as nat), f.inf());
    }
}

/// The number of strides to an edge far ahead of the tiles is not positive.
proof fn lemma_far_ahead(surface: Binary64, tile: Binary64, tiling: AxisTiling)
    requires
        surface.finite(),
        tile.finite(),
        tiling.translate.finite(),
        tiling.stride.finite(),
        tiling.stride.value() > 0,
        is_beyond(surface, tile, tiling),
        surface.value() < tile.value(),
    ensures
        first_visible(tiling, tile, surface).value() <= 0,
{
    let f = Format::Double;
    let one = Binary64::unit() as int;
    let s = tiling.stride.value();
    lemma_far(surface, tile, tiling);
    let d = surface.minus(tile).minus(tiling.translate);
    let q = d.over(tiling.stride);
    Binary64::lemma_constants(d);
    Binary64::lemma_constants(q);
    if d.finite() {
        d.lemma_over(tiling.stride);
        let n = d.value() * one;
        assert(n <= 0) by (nonlinear_arith)
            requires
                n == d.value() * one,
                d.value() <= 0,
                one > 0,
        ;
        lemma_rounded_sign(f, n, s as nat);
    } else {
        d.lemma_infinite(tiling.stride);
    }
    if q.finite() {
        q.lemma_floor();
        let c = q.floor();
        let low = q.value() / one;
        vstd::arithmetic::div_mod::lemma_fundamental_div_mod(q.value(), one);
        vstd::arithmetic::div_mod::lemma_mod_bound(q.value(), one);
        assert(low * one <= q.value()) by (nonlinear_arith)
            requires
                q.value() == one * low + q.value() % one,
                0 <= q.value() % one,
        ;
        if c.finite() {
            c.lemma_minus(Binary64::one());
            lemma_rounded_sign(f, c.value() - one, 1);
        } else {
            c.lemma_infinite(Binary64::one());
        }
    } else {
        q.lemma_floor_infinite();
        q.lemma_infinite(Binary64::one());
    }
}

/// A tile below the computed first index lies before the surface.
proof fn lemma_hidden_before(
    surface: Binary64,
    tile: Binary64,
    tiling: AxisTiling,
    i: int,
)
    requires
        surface.finite(),
        tile.finite(),
        tiling.translate.finite(),
        tiling.stride.finite(),
        tiling.stride.value() > 0,
        is_measurable(surface, tile, tiling),
        0 <= i <= u32::MAX,
        first_visible(tiling, tile, surface).value() > i * Binary64::unit(),
    ensures
        tile.value() + tiling.translate.value() + i * tiling.stride.value() <= surface.value(),
{
    let f = Format::Double;
    Binary64::lemma_constants(surface);
    let s = tiling.stride.value();
    if is_beyond(surface, tile, tiling) {
        assert(0 <= i * s <= u32::MAX * s) by (nonlinear_arith)
            requires
                0 <= i <= u32::MAX,
                s > 0,
        ;
        if surface.value() < tile.value() {
            lemma_far_ahead(surface, tile, tiling);
            assert(i * Binary64::unit() >= 0) by (nonlinear_arith)
                requires
                    i >= 0,
            ;
        }
    } else {
        let d1 = surface.minus(tile);
        let d2 = d1.minus(tiling.translate);
        surface.lemma_minus(tile);
        assert(d1.finite()) by {
            if !d1.finite() {
                d1.lemma_infinite(tiling.translate);
            }
        }
        d1.lemma_minus(tiling.translate);
        d2.lemma_over(tiling.stride);
        lemma_before_first(d2.over(tiling.stride), i);
        lemma_mag_order(f, f.body(d1.bits as nat), f.inf());
        lemma_mag_order(f, f.body(d2.bits as nat), f.inf());
        let n = surface.value() - tile.value();
        assert(-(EXACT_STRIDES as int) * s == -(EXACT_STRIDES * s)) by (nonlinear_arith);
        lemma_distance_bound(n, tiling.translate.value(), s, i + 2);
    }
}

/// A tile above the computed last index lies after the surface.
proof fn lemma_hidden_after(
    surface: Binary64,
    tile: Binary64,
    tiling: AxisTiling,
    i: int,
)
    requires
        surface.finite(),
        tile.finite(),
        tiling.translate.finite(),
        tiling.stride.finite(),
        tiling.stride.value() > 0,
        is_measurable(surface, tile, tiling),
        0 <= i <= u32::MAX,
        last_visible(tiling, tile, surface).value() < i * Binary64::unit(),
    ensures
        tile.value() + tiling.translate.value() + i * tiling.stride.value() >= surface.value(),
{
    let f = Format::Double;
    let one = Binary64::unit();
    Binary64::lemma_constants(surface);
    let s = tiling.stride.value();
    if is_beyond(surface, tile, tiling) {
        assert(0 <= i * s <= u32::MAX * s) by (nonlinear_arith)
            requires
                0 <= i <= u32::MAX,
                s > 0,
        ;
        if surface.value() > tile.value() {
            lemma_far_behind(surface, tile, tiling);
            let unit = Binary64::unit() as int;
            assert(i * unit <= u32::MAX * unit) by (nonlinear_arith)
                requires
                    i <= u32::MAX,
                    unit > 0,
            ;
        }
    } else {
        let d1 = surface.minus(tile);
        let d2 = d1.minus(tiling.translate);
        surface.lemma_minus(tile);
        assert(d1.finite()) by {
            if !d1.finite() {
                d1.lemma_infinite(tiling.translate);
            }
        }
        d1.lemma_minus(tiling.translate);
        d2.lemma_over(tiling.stride);
        lemma_after_last(d2.over(tiling.stride), i);
        lemma_mag_order(f, f.body(d1.bits as nat), f.inf());
        lemma_mag_order(f, f.body(d2.bits as nat), f.inf());
        let t = tiling.translate.value();
        let n = surface.value() - tile.value();
        lemma_rounded_opposite(f, n, 1);
        lemma_rounded_opposite(f, d1.value() - t, 1);
        lemma_rounded_opposite(f, d2.value() * one, s as nat);
        assert((-d2.value()) * one == -(d2.value() * one)) by (nonlinear_arith);
        assert((2 - i) * one == -((i - 2) * one)) by (nonlinear_arith);
        assert(-(EXACT_STRIDES as int) * s == -(EXACT_STRIDES * s)) by (nonlinear_arith);
        assert(-d1.value() - (-t) == -(d1.value() - t));
        lemma_distance_bound(-n, -t, s, 2 - i);
        assert((2 - i - 2) * s == -(i * s)) by (nonlinear_arith);
    }
}

/// Culling can only drop a tile that misses the surface: whatever tile of the tiling is not
/// among those kept lies wholly beside the surface, in exact arithmetic.
pub proof fn law_culling_drops_only_hidden_tiles(
    tiling: AxisTiling,
    tile_lo: Binary64,
    tile_hi: Binary64,
    surface_lo: Binary64,
    surface_hi: Binary64,
    i: int,
)
    requires
        is_measurable(surface_lo, tile_hi, tiling),
        is_measurable(surface_hi, tile_lo, tiling),
        is_cullable(tiling, tile_lo, tile_hi, surface_lo, surface_hi),
        0 <= i < tiling.count,
        ({
            let kept = spec_culled(tiling, tile_lo, tile_hi, surface_lo, surface_hi);
            let first = first_kept(tiling, tile_lo, tile_hi, surface_lo, surface_hi);
            !(first <= i < first + kept.count)
        }),
    ensures
        misses_surface(tiling, tile_lo, tile_hi, surface_lo, surface_hi, i),
{
    let f = Format::Double;
    let one = Binary64::unit() as int;
    let zero = Binary64::zero();
    let most = (tiling.count - 1) as u64;
    let max_index = Binary64::from_unsigned(most);
    let first = first_visible(tiling, tile_hi, surface_lo);
    let last = last_visible(tiling, tile_lo, surface_hi);
    lemma_distance_is_number(surface_lo, tile_hi, tiling.translate, tiling.stride);
    lemma_distance_is_number(surface_hi, tile_lo, tiling.translate, tiling.stride);
    let (kf, _) = lemma_steps(
        surface_lo.minus(tile_hi).minus(tiling.translate).over(tiling.stride),
    );
    let (_, kl) = lemma_steps(
        surface_hi.minus(tile_lo).minus(tiling.translate).over(tiling.stride),
    );
    Binary64::lemma_constants(first);
    Binary64::lemma_from_unsigned(most);
    assert(0 <= i * one <= most * one) by (nonlinear_arith)
        requires
            0 <= i <= most,
            one > 0,
    ;
    assert(0 * one == 0) by (nonlinear_arith);
    let from = first.clamp(zero, max_index);
    lemma_clamped_index(first, kf, zero, 0, max_index, most);
    let a = from.value() / one;
    if last.below(zero) || max_index.below(first) {
    } else {
        vstd::arithmetic::div_mod::lemma_fundamental_div_mod(from.value(), one);
        assert(from.value() == a * one) by (nonlinear_arith)
            requires
                from.value() == one * a + 0,
        ;
        lemma_mag_order(f, f.body(from.bits as nat), f.inf());
        lemma_mag_order(f, f.body(max_index.bits as nat), f.inf());
        assert(!from.nan());
        assert(from.finite());
        lemma_clamped_index(last, kl, from, a, max_index, most);
        let to = last.clamp(from, max_index);
        let b = to.value() / one;
        vstd::arithmetic::div_mod::lemma_fundamental_div_mod(to.value(), one);
        assert(to.value() == b * one) by (nonlinear_arith)
            requires
                to.value() == one * b + 0,
        ;
        lemma_span(from, to, max_index, most);
        to.lemma_minus(from);
        Binary64::lemma_from_unsigned((b - a) as u64);
        lemma_rounded_exact(f, Binary64::from_unsigned((b - a) as u64).bits as nat, 1);
        assert(b * one - a * one == (b - a) * one && ((b - a) * one) * 1 == (b - a) * one)
            by (nonlinear_arith);
        let span = to.minus(from);
        assert(span.value() == (b - a) * one);
        span.lemma_sign();
        vstd::arithmetic::div_mod::lemma_div_by_multiple(b - a, one);
        assert(span.to_unsigned(u32::MAX as u64) == b - a) by {
            lemma_mag_order(f, f.body(span.bits as nat), f.inf());
            crate::ieee::facts::lemma_value_zero(f, span.bits as nat);
        }
        if i < a {
            assert(i * one < a * one) by (nonlinear_arith)
                requires
                    i < a,
                    one > 0,
            ;
        } else {
            assert(i > b);
            assert(i * one > b * one) by (nonlinear_arith)
                requires
                    i > b,
                    one > 0,
            ;
        }
    }
    if first.value() > i * one {
        lemma_hidden_before(surface_lo, tile_hi, tiling, i);
    } else {
        assert(last.value() < i * one);
        lemma_hidden_after(surface_hi, tile_lo, tiling, i);
    }
}

/// Culling only ever removes tiles, keeps the size and the stride of the others, and leaves
/// a tiling alone when any bound is not finite.
pub proof fn law_culling_only_narrows(
    tiling: AxisTiling,
    tile_lo: Binary64,
    tile_hi: Binary64,
    surface_lo: Binary64,
    surface_hi: Binary64,
)
    ensures
        ({
            let kept = spec_culled(tiling, tile_lo, tile_hi, surface_lo, surface_hi);
            &&& kept.count <= tiling.count
            &&& kept.rect_len == tiling.rect_len
            &&& kept.stride == tiling.stride
            &&& !surface_lo.finite() || !surface_hi.finite() ==> kept == tiling
        }),
{
    if is_cullable(tiling, tile_lo, tile_hi, surface_lo, surface_hi) {
        let most = (tiling.count - 1) as u64;
        let max_index = Binary64::from_unsigned(most);
        let zero = Binary64::zero();
        let first = first_visible(tiling, tile_hi, surface_lo);
        let last = last_visible(tiling, tile_lo, surface_hi);
        lemma_distance_is_number(surface_lo, tile_hi, tiling.translate, tiling.stride);
        lemma_distance_is_number(surface_hi, tile_lo, tiling.translate, tiling.stride);
        lemma_steps(surface_lo.minus(tile_hi).minus(tiling.translate).over(tiling.stride));
        lemma_steps(surface_hi.minus(tile_lo).minus(tiling.translate).over(tiling.stride));
        Binary64::lemma_from_unsigned(most);
        Binary64::lemma_constants(first);
        max_index.lemma_sign();
        let from = first.clamp(zero, max_index);
        if !last.below(zero) && !max_index.below(first) {
            lemma_span(from, last.clamp(from, max_index), max_index, most);
        }
    }
}

/// Tiling starts ahead of the area by less than a tile or, where rounding goes up, by a
/// whole one; never behind it.
pub proof fn law_extend_is_within_a_tile(offset: Binary64, length: Binary64)
    requires
        offset.finite(),
        length.finite(),
        length.value() > 0,
    ensures
        !extend(offset, length).nan(),
        0 <= extend(offset, length).value() <= length.value(),
{
    let f = Format::Double;
    let over = offset.modulo(length);
    offset.lemma_modulo(length);
    over.lemma_sign();
    Binary64::lemma_constants(length);
    if Binary64::zero().below(over) {
        length.lemma_minus(over);
        let d = length.value() - over.value();
        lemma_rounded_exact(f, length.bits as nat, 1);
        assert(length.value() * 1 == length.value() && d * 1 == d) by (nonlinear_arith);
        lemma_rounded_monotone(f, d, 1, length.value(), 1);
        lemma_rounded_sign(f, d, 1);
    } else {
        over.lemma_negated();
    }
}

/// A repeated tile is never narrower than one device pixel and is laid edge to edge, and a
/// tile that is not repeated is drawn once at its own size.
pub proof fn law_repeated_tiles_are_at_least_a_pixel(
    repeat: RepeatKeyword,
    origin_start: Binary64,
    origin_len: Binary64,
    clip_start: Binary64,
    clip_len: Binary64,
    bg_pos: Binary64,
    tile_len: Binary64,
)
    ensures
        ({
            let tiling = spec_gradient_axis_tiling(
                repeat,
                origin_start,
                origin_len,
                clip_start,
                clip_len,
                bg_pos,
                tile_len,
            );
            match repeat {
                RepeatKeyword::Repeat | RepeatKeyword::Round => {
                    &&& Binary64::one().at_most(tiling.rect_len)
                    &&& tiling.stride == tiling.rect_len
                },
                RepeatKeyword::Space => {
                    &&& Binary64::one().at_most(tiling.rect_len)
                    &&& tiling.count >= 1
                },
                RepeatKeyword::NoRepeat => {
                    &&& tiling.rect_len == tile_len
                    &&& tiling.count == 1
                },
            }
        }),
{
    Binary64::lemma_constants(tile_len);
}

/// Repeated tiles start at or before the area they have to cover.
pub proof fn law_tiling_starts_at_or_before_the_area(
    repeat: RepeatKeyword,
    origin_start: Binary64,
    origin_len: Binary64,
    clip_start: Binary64,
    clip_len: Binary64,
    bg_pos: Binary64,
    tile_len: Binary64,
)
    requires
        repeat is Repeat || repeat is Round,
        tile_len.finite(),
        ({
            let (area_start, _) = tiled_area(origin_start, origin_len, clip_start, clip_len);
            &&& area_start.finite()
            &&& origin_start.minus(area_start).plus(bg_pos).finite()
        }),
    ensures
        ({
            let (area_start, _) = tiled_area(origin_start, origin_len, clip_start, clip_len);
            let tiling = spec_gradient_axis_tiling(
                repeat,
                origin_start,
                origin_len,
                clip_start,
                clip_len,
                bg_pos,
                tile_len,
            );
            tiling.translate.at_most(area_start)
        }),
{
    let f = Format::Double;
    let repeated = tile_len.max(Binary64::one());
    let (area_start, _) = tiled_area(origin_start, origin_len, clip_start, clip_len);
    Binary64::lemma_constants(tile_len);
    Binary64::lemma_constants(area_start);
    let offset = origin_start.minus(area_start).plus(bg_pos);
    law_extend_is_within_a_tile(offset, repeated);
    let ahead = extend(offset, repeated);
    lemma_mag_order(f, f.body(ahead.bits as nat), f.body(repeated.bits as nat));
    crate::ieee::facts::lemma_value_zero(f, ahead.bits as nat);
    area_start.lemma_minus(ahead);
    lemma_rounded_exact(f, area_start.bits as nat, 1);
    let d = area_start.value() - ahead.value();
    assert(area_start.value() * 1 == area_start.value() && d * 1 == d) by (nonlinear_arith);
    lemma_rounded_monotone(f, d, 1, area_start.value(), 1);
}

/// Tiles that start `extend` ahead have a boundary at the offset: the offset and the way
/// ahead together are a whole number of tiles, in exact arithmetic, wherever taking the
/// remainder from the length needs no rounding.
pub proof fn law_extend_lands_on_a_boundary(offset: Binary64, length: Binary64)
    requires
        offset.finite(),
        length.finite(),
        length.value() > 0,
        Binary64::zero().below(offset.modulo(length)) ==> length.minus(
            offset.modulo(length),
        ).value() == length.value() - offset.modulo(length).value(),
    ensures
        (offset.value() + extend(offset, length).value()) % length.value() == 0,
{
    let f = Format::Double;
    let over = offset.modulo(length);
    Binary64::lemma_constants(offset);
    Binary64::lemma_constants(length);
    offset.lemma_modulo(length);
    reveal(Binary64::spec_modulo);
    let (a, b) = (f.size(offset.bits as nat), f.size(length.bits as nat));
    crate::ieee::facts::lemma_remainder_exact(f, offset.bits as nat, length.bits as nat);
    crate::ieee::facts::lemma_remainder_value(f, offset.bits as nat, length.bits as nat);
    length.lemma_sign();
    over.lemma_sign();
    over.lemma_negated();
    vstd::arithmetic::div_mod::lemma_fundamental_div_mod(a as int, b as int);
    let (q, r) = ((a / b) as int, (a % b) as int);
    assert(f.size(over.bits as nat) == r);
    crate::ieee::facts::lemma_value_zero(f, over.bits as nat);
    let sum = offset.value() + extend(offset, length).value();
    if Binary64::zero().below(over) {
        assert(sum == (q + 1) * b) by (nonlinear_arith)
            requires
                sum == a + (b - r),
                a == b * q + r,
        ;
        vstd::arithmetic::div_mod::lemma_mod_multiples_basic(q + 1, b as int);
    } else if offset.negative() {
        assert(sum == (-q) * b) by (nonlinear_arith)
            requires
                sum == -a + r,
                a == b * q + r,
        ;
        vstd::arithmetic::div_mod::lemma_mod_multiples_basic(-q, b as int);
    } else {
        assert(r == 0);
        assert(sum == q * b) by (nonlinear_arith)
            requires
                sum == a,
                a == b * q + r,
                r == 0,
        ;
        vstd::arithmetic::div_mod::lemma_mod_multiples_basic(q, b as int);
    }
}

/// The extent that repeated tiles have to cover: the area, and how far ahead of it they start.
pub open spec fn tiled_extent(
    origin_start: Binary64,
    origin_len: Binary64,
    clip_start: Binary64,
    clip_len: Binary64,
    bg_pos: Binary64,
    tile: Binary64,
) -> Binary64 {
    let (area_start, area_len) = tiled_area(origin_start, origin_len, clip_start, clip_len);
    area_len.plus(tiles_ahead(origin_start, area_start, bg_pos, tile))
}

/// Repeated tiles, laid edge to edge, cover the extent they have to, in exact arithmetic and
/// up to one part in `2^53` of it: what their number is rounded by.
pub proof fn law_repeated_tiles_cover_the_area(
    repeat: RepeatKeyword,
    origin_start: Binary64,
    origin_len: Binary64,
    clip_start: Binary64,
    clip_len: Binary64,
    bg_pos: Binary64,
    tile_len: Binary64,
)
    requires
        repeat is Repeat || repeat is Round,
        tile_len.finite(),
        ({
            let tile = tile_len.max(Binary64::one());
            let covered = tiled_extent(
                origin_start,
                origin_len,
                clip_start,
                clip_len,
                bg_pos,
                tile,
            );
            &&& covered.finite()
            &&& covered.value() > 0
            // The quotient neither vanishes nor is too large to count.
            &&& covered.over(tile).value() > 0
            &&& covered.over(tile).value() <= u32::MAX * Binary64::unit()
        }),
    ensures
        ({
            let tile = tile_len.max(Binary64::one());
            let tiling = spec_gradient_axis_tiling(
                repeat,
                origin_start,
                origin_len,
                clip_start,
                clip_len,
                bg_pos,
                tile_len,
            );
            tiling.count * tiling.stride.value() * 0x20_0000_0000_0001 >= tiled_extent(
                origin_start,
                origin_len,
                clip_start,
                clip_len,
                bg_pos,
                tile,
            ).value() * 0x20_0000_0000_0000
        }),
{
    let f = Format::Double;
    let one = Binary64::unit() as int;
    let tile = tile_len.max(Binary64::one());
    let covered = tiled_extent(origin_start, origin_len, clip_start, clip_len, bg_pos, tile);
    Binary64::lemma_constants(tile);
    let q = covered.over(tile);
    covered.lemma_over(tile);
    let (l, t) = (covered.value(), tile.value());
    // The quotient is finite, being moderate.
    lemma_mag_order(f, f.body(q.bits as nat), f.inf());
    lemma_infinity_value(f);
    assert(u32::MAX * one < 8 * f.hidden() * f.hidden() * one) by (nonlinear_arith)
        requires
            f.hidden() == 0x10_0000_0000_0000,
            one > 0,
    ;
    assert(q.finite());
    q.lemma_ceil();
    let k = -((-q.value()) / one);
    vstd::arithmetic::div_mod::lemma_fundamental_div_mod(-q.value(), one);
    vstd::arithmetic::div_mod::lemma_mod_bound(-q.value(), one);
    assert(q.value() <= k * one && 1 <= k <= u32::MAX) by (nonlinear_arith)
        requires
            -q.value() == one * (-k) + (-q.value()) % one,
            0 <= (-q.value()) % one < one,
            0 < q.value() <= u32::MAX * one,
            one > 0,
    ;
    let c = q.ceil();
    c.lemma_sign();
    assert(k * one > 0) by (nonlinear_arith)
        requires
            k >= 1,
            one > 0,
    ;
    lemma_mag_order(f, f.body(c.bits as nat), f.inf());
    assert(k * one <= u32::MAX * one) by (nonlinear_arith)
        requires
            k <= u32::MAX,
            one > 0,
    ;
    vstd::arithmetic::div_mod::lemma_div_by_multiple(k, one);
    assert(c.to_unsigned(u32::MAX as u64) == k);
    assert(l * one > 0) by (nonlinear_arith)
        requires
            l > 0,
            one > 0,
    ;
    let n = (l * one) as nat;
    let m = q.value();
    lemma_relative_error(f, n, t as nat);
    lemma_mag_order(f, f.round(n, t as nat), f.inf());
    if m < f.hidden() {
        // A tiny quotient: a single tile covers it.
        lemma_small(f, n, t as nat);
        assert(one >= f.hidden()) by {
            vstd::arithmetic::power2::lemma2_to64_rest();
            crate::ieee::rounding::lemma_pow2_monotone(52, 1074);
            vstd::arithmetic::power2::lemma2_to64();
        }
        assert(l <= t) by (nonlinear_arith)
            requires
                l * one <= t * f.hidden(),
                one >= f.hidden(),
                f.hidden() > 0,
                l > 0,
        {
            assert(l * one >= l * f.hidden());
            assert(l * f.hidden() <= t * f.hidden());
        }
        assert(k * t * 0x20_0000_0000_0001 >= l * 0x20_0000_0000_0000) by (nonlinear_arith)
            requires
                l <= t,
                l > 0,
                k >= 1,
        {
            assert(k * t >= t);
        }
    } else {
        assert(k * t * 0x20_0000_0000_0001 >= l * 0x20_0000_0000_0000) by (nonlinear_arith)
            requires
                (l * one) * 0x20_0000_0000_0000 <= m * t * 0x20_0000_0000_0001,
                m <= k * one,
                one > 0,
                t > 0,
        {
            assert(m * t <= (k * one) * t);
            assert((l * one) * 0x20_0000_0000_0000 == one * (l * 0x20_0000_0000_0000));
            assert((k * one) * t * 0x20_0000_0000_0001 == one * (k * t * 0x20_0000_0000_0001));
            assert(one * (l * 0x20_0000_0000_0000) <= one * (k * t * 0x20_0000_0000_0001));
        }
    }
}

/// Tiles that `space` puts apart do not overlap, and there is at least one.
pub proof fn law_spaced_tiles_do_not_overlap(area: Binary64, size: Binary64)
    requires
        area.finite() && area.value() >= 0,
        size.finite() && size.value() > 0,
    ensures
        space_count(area, size) >= 1,
        size.at_most(space_stride(area, size)),
{
    let f = Format::Double;
    let zero = Binary64::zero();
    let count = space_count(area, size);
    let leftover = area.modulo(size);
    Binary64::lemma_constants(size);
    Binary64::lemma_constants(leftover);
    area.lemma_modulo(size);
    leftover.lemma_sign();
    area.lemma_sign();
    let gap = if count > 1 {
        leftover.over(Binary64::from_unsigned((count - 1) as u64))
    } else {
        zero
    };
    assert(!gap.nan() && gap.value() >= 0) by {
        if count > 1 {
            let parts = Binary64::from_unsigned((count - 1) as u64);
            Binary64::lemma_from_unsigned((count - 1) as u64);
            assert((count - 1) * Binary64::unit() > 0) by (nonlinear_arith)
                requires
                    count > 1,
                    Binary64::unit() > 0,
            ;
            leftover.lemma_over(parts);
            assert(leftover.value() >= 0) by {
                if leftover.negative() {
                    // Only a zero has the sign of a zero.
                    lemma_value_zero(f, area.bits as nat);
                    reveal(Binary64::spec_modulo);
                    lemma_remainder_value(f, area.bits as nat, size.bits as nat);
                    lemma_remainder_exact(f, area.bits as nat, size.bits as nat);
                    vstd::arithmetic::div_mod::lemma_small_mod(0, f.size(size.bits as nat));
                }
            }
            assert(leftover.value() * Binary64::unit() >= 0) by (nonlinear_arith)
                requires
                    leftover.value() >= 0,
                    Binary64::unit() > 0,
            ;
            lemma_rounded_sign(f, leftover.value() * Binary64::unit(), parts.value() as nat);
        }
    }
    if gap.finite() {
        gap.lemma_plus(size);
        lemma_rounded_exact(f, size.bits as nat, 1);
        let (v, t) = (size.value(), gap.value() + size.value());
        assert(v * 1 == v && t * 1 == t) by (nonlinear_arith);
        lemma_rounded_monotone(f, v, 1, t, 1);
    } else {
        gap.lemma_infinite(size);
        lemma_mag_order(f, f.body(size.bits as nat), f.inf());
    }
}

} // verus!
