//! Culling moves no tile: two surfaces agree on what both show.

use crate::element::ElementCx;
use crate::geometry::Rect;
use crate::ieee::Binary64;
use crate::ieee::facts::lemma_rounded_exact;
use crate::ieee::model::{lemma_mag_order, Format};
use crate::laws::tiling::{
    first_kept, is_measurable, law_culling_drops_only_hidden_tiles, lemma_clamped_index,
    lemma_steps, misses_surface,
};
use crate::layers::{LayerGeometry, LayerPlacement, LayerTiles};
use crate::tiling::{
    first_visible, is_cullable, last_visible, lemma_distance_is_number, lemma_span, spec_culled,
    AxisTiling,
};
use vstd::prelude::*;

verus! {

/// One axis of a tile and one axis of the surface it is culled to.
pub struct AxisView {
    pub tile_lo: Binary64,
    pub tile_hi: Binary64,
    pub surface_lo: Binary64,
    pub surface_hi: Binary64,
}

/// What is left of a tiling on a surface.
pub open spec fn kept(tiling: AxisTiling, view: AxisView) -> AxisTiling {
    spec_culled(tiling, view.tile_lo, view.tile_hi, view.surface_lo, view.surface_hi)
}

/// The index, in the tiling as it was, of the first tile that is kept.
pub open spec fn first_index(tiling: AxisTiling, view: AxisView) -> int {
    if is_cullable(tiling, view.tile_lo, view.tile_hi, view.surface_lo, view.surface_hi) {
        first_kept(tiling, view.tile_lo, view.tile_hi, view.surface_lo, view.surface_hi)
    } else {
        0
    }
}

/// Where tile `i` of a tiling stands, in exact arithmetic.
pub open spec fn place_of_tile(tiling: AxisTiling, i: int) -> int {
    tiling.translate.value() + i * tiling.stride.value()
}

/// Whether tile `i` of a tiling lies beside the surface.
pub open spec fn is_hidden(tiling: AxisTiling, view: AxisView, i: int) -> bool {
    misses_surface(tiling, view.tile_lo, view.tile_hi, view.surface_lo, view.surface_hi, i)
}

/// Whether a distance is a number that can be held.
pub open spec fn is_held(n: int) -> bool {
    exists|x: Binary64| x.finite() && #[trigger] x.value() == n
}

/// Whether nothing is rounded where a tiling is moved to the first tile that is kept.
pub open spec fn is_moved_exactly(tiling: AxisTiling, view: AxisView) -> bool {
    let first = first_index(tiling, view);
    is_held(first * tiling.stride.value()) && is_held(place_of_tile(tiling, first))
}

/// Whether the edges of the surface are close enough for what is kept to be known.
pub open spec fn is_near(tiling: AxisTiling, view: AxisView) -> bool {
    is_cullable(tiling, view.tile_lo, view.tile_hi, view.surface_lo, view.surface_hi)
        ==> is_measurable(view.surface_lo, view.tile_hi, tiling) && is_measurable(
        view.surface_hi,
        view.tile_lo,
        tiling,
    )
}

/// A number that has the value of a finite one is finite.
proof fn lemma_finite(x: Binary64, y: Binary64)
    requires
        !x.nan(),
        y.finite(),
        x.value() == y.value(),
    ensures
        x.finite(),
{
    let f = Format::Double;
    Binary64::lemma_constants(x);
    Binary64::lemma_constants(y);
    lemma_mag_order(f, f.body(x.bits as nat), f.inf());
    lemma_mag_order(f, f.body(y.bits as nat), f.inf());
}

/// Where the first tile that is kept comes from, and where it is put.
proof fn lemma_first_kept(tiling: AxisTiling, view: AxisView) -> (from: Binary64)
    requires
        is_cullable(tiling, view.tile_lo, view.tile_hi, view.surface_lo, view.surface_hi),
        kept(tiling, view).count > 0,
    ensures
        from.finite(),
        from.value() == first_index(tiling, view) * Binary64::unit(),
        0 <= first_index(tiling, view),
        first_index(tiling, view) + kept(tiling, view).count <= tiling.count,
        kept(tiling, view).translate == tiling.translate.plus(from.times(tiling.stride)),
        kept(tiling, view).stride == tiling.stride,
        kept(tiling, view).rect_len == tiling.rect_len,
        tiling.stride.value() > 0,
        first_index(tiling, view) > 0 ==> from == first_visible(
            tiling,
            view.tile_hi,
            view.surface_lo,
        ),
{
    let f = Format::Double;
    let one = Binary64::unit() as int;
    let zero = Binary64::zero();
    let most = (tiling.count - 1) as u64;
    let max_index = Binary64::from_unsigned(most);
    let first = first_visible(tiling, view.tile_hi, view.surface_lo);
    let last = last_visible(tiling, view.tile_lo, view.surface_hi);
    let (t, s) = (tiling.translate, tiling.stride);
    lemma_distance_is_number(view.surface_lo, view.tile_hi, t, s);
    lemma_distance_is_number(view.surface_hi, view.tile_lo, t, s);
    let (kf, _) = lemma_steps(view.surface_lo.minus(view.tile_hi).minus(t).over(s));
    let (_, kl) = lemma_steps(view.surface_hi.minus(view.tile_lo).minus(t).over(s));
    Binary64::lemma_constants(first);
    Binary64::lemma_from_unsigned(most);
    assert(0 * one == 0) by (nonlinear_arith);
    let from = first.clamp(zero, max_index);
    lemma_clamped_index(first, kf, zero, 0, max_index, most);
    let a = from.value() / one;
    vstd::arithmetic::div_mod::lemma_fundamental_div_mod(from.value(), one);
    assert(from.value() == a * one) by (nonlinear_arith)
        requires
            from.value() == one * a + 0,
    ;
    lemma_mag_order(f, f.body(from.bits as nat), f.inf());
    lemma_mag_order(f, f.body(max_index.bits as nat), f.inf());
    assert(from.finite());
    lemma_clamped_index(last, kl, from, a, max_index, most);
    let to = last.clamp(from, max_index);
    let b = to.value() / one;
    vstd::arithmetic::div_mod::lemma_fundamental_div_mod(to.value(), one);
    assert(to.value() == b * one) by (nonlinear_arith)
        requires
            to.value() == one * b + 0,
    ;
    lemma_span(from, to, max_index, most);
    to.lemma_minus(from);
    Binary64::lemma_from_unsigned((b - a) as u64);
    lemma_rounded_exact(f, Binary64::from_unsigned((b - a) as u64).bits as nat, 1);
    assert(b * one - a * one == (b - a) * one && ((b - a) * one) * 1 == (b - a) * one)
        by (nonlinear_arith);
    let span = to.minus(from);
    assert(span.value() == (b - a) * one);
    span.lemma_sign();
    vstd::arithmetic::div_mod::lemma_div_by_multiple(b - a, one);
    assert(span.to_unsigned(u32::MAX as u64) == b - a) by {
        lemma_mag_order(f, f.body(span.bits as nat), f.inf());
        crate::ieee::facts::lemma_value_zero(f, span.bits as nat);
    }
    from
}

/// Tile `i` of those that are kept stands where tile `first + i` of the tiling stood, which was a
/// tile of it, wherever that place can be held.
pub proof fn law_kept_tiles_stay_in_place(tiling: AxisTiling, view: AxisView, i: int)
    requires
        is_moved_exactly(tiling, view),
        0 <= i < kept(tiling, view).count,
    ensures
        0 <= first_index(tiling, view) + i < tiling.count,
        place_of_tile(kept(tiling, view), i) == place_of_tile(
            tiling,
            first_index(tiling, view) + i,
        ),
        kept(tiling, view).rect_len == tiling.rect_len,
        kept(tiling, view).stride == tiling.stride,
{
    if is_cullable(tiling, view.tile_lo, view.tile_hi, view.surface_lo, view.surface_hi) {
        let f = Format::Double;
        let one = Binary64::unit() as int;
        let (t, s) = (tiling.translate, tiling.stride);
        let from = lemma_first_kept(tiling, view);
        let a = first_index(tiling, view);
        Binary64::lemma_constants(from);
        let step = choose|x: Binary64| x.finite() && #[trigger] x.value() == a * s.value();
        let place = choose|x: Binary64|
            x.finite() && #[trigger] x.value() == t.value() + a * s.value();
        from.lemma_times(s);
        let moved = from.times(s);
        let sv = s.value();
        assert((a * one) * sv == (a * sv) * one) by (nonlinear_arith);
        lemma_rounded_exact(f, step.bits as nat, one as nat);
        assert(moved.value() == a * sv);
        lemma_finite(moved, step);
        t.lemma_plus(moved);
        lemma_rounded_exact(f, place.bits as nat, 1);
        assert(place.value() * 1 == place.value()) by (nonlinear_arith);
        assert((a + i) * sv == a * sv + i * sv) by (nonlinear_arith);
    }
}

/// How far the tiles that are kept may have drifted from where they stood, in parts of `2^52`: by
/// two roundings, of the way to the first of them and of the place it is put at.
pub open spec fn drift(tiling: AxisTiling, view: AxisView) -> int {
    let t = tiling.translate.value();
    (if t < 0 {
        -t
    } else {
        t
    }) + 3 * (first_index(tiling, view) * tiling.stride.value())
}

/// Whether two places are no further apart than so many parts of `2^52`.
pub open spec fn is_within(a: int, b: int, drift: int) -> bool {
    -drift <= (a - b) * 0x10_0000_0000_0000 <= drift
}

/// Rounding a sum or a whole multiple moves it by at most one part in `2^52`.
proof fn lemma_rounding(n: int)
    requires
        -Format::Double.mag(Format::Double.inf()) < Format::Double.rounded(n, 1)
            < Format::Double.mag(Format::Double.inf()),
    ensures
        ({
            let r = Format::Double.rounded(n, 1);
            &&& n >= 0 ==> r >= 0 && -n <= (r - n) * 0x10_0000_0000_0000 <= n
            &&& n <= 0 ==> r <= 0 && n <= (r - n) * 0x10_0000_0000_0000 <= -n
        }),
{
    let f = Format::Double;
    crate::ieee::model::lemma_format_constants(f);
    crate::ieee::error::lemma_whole_error(f, n);
    crate::ieee::facts::lemma_rounded_sign(f, n, 1);
    assert(f.hidden() == 0x10_0000_0000_0000);
    let r = f.rounded(n, 1);
    assert(n >= 0 ==> r * 0x1f_ffff_ffff_ffff <= n * 0x20_0000_0000_0000);
    assert(n <= 0 ==> n * 0x20_0000_0000_0000 <= r * 0x1f_ffff_ffff_ffff);
    assert(n >= 0 ==> n * 0x20_0000_0000_0000 <= r * 0x20_0000_0000_0001);
    assert(n <= 0 ==> r * 0x20_0000_0000_0001 <= n * 0x20_0000_0000_0000);
}

/// Tile `i` of those that are kept stands where tile `first + i` of the tiling stood, up to two
/// roundings.
pub proof fn law_kept_tiles_stay_in_place_up_to_rounding(
    tiling: AxisTiling,
    view: AxisView,
    i: int,
)
    requires
        0 <= i < kept(tiling, view).count,
    ensures
        0 <= first_index(tiling, view) + i < tiling.count,
        is_within(
            place_of_tile(kept(tiling, view), i),
            place_of_tile(tiling, first_index(tiling, view) + i),
            drift(tiling, view),
        ),
        kept(tiling, view).rect_len == tiling.rect_len,
        kept(tiling, view).stride == tiling.stride,
{
    if is_cullable(tiling, view.tile_lo, view.tile_hi, view.surface_lo, view.surface_hi) {
        let f = Format::Double;
        let one = Binary64::unit() as int;
        let (t, s) = (tiling.translate, tiling.stride);
        let (tv, sv) = (t.value(), s.value());
        let from = lemma_first_kept(tiling, view);
        let a = first_index(tiling, view);
        Binary64::lemma_constants(from);
        Binary64::lemma_constants(s);
        from.lemma_times(s);
        let moved = from.times(s);
        let put = t.plus(moved);
        let n = a * sv;
        assert(n >= 0) by (nonlinear_arith)
            requires
                n == a * sv,
                a >= 0,
                sv > 0,
        ;
        assert((a * one) * sv == n * one) by (nonlinear_arith)
            requires
                n == a * sv,
        ;
        assert((n * one) * 1 == n * one) by (nonlinear_arith);
        crate::ieee::facts::lemma_rounded_monotone(f, n * one, one as nat, n, 1);
        crate::ieee::facts::lemma_rounded_monotone(f, n, 1, n * one, one as nat);
        let m = moved.value();
        assert(m == f.rounded(n, 1));
        Binary64::lemma_constants(moved);
        Binary64::lemma_constants(put);
        lemma_moved_is_finite(tiling, view, from);
        lemma_bounds(moved);
        lemma_bounds(put);
        t.lemma_plus(moved);
        lemma_rounding(n);
        lemma_rounding(tv + m);
        assert((a + i) * sv == a * sv + i * sv) by (nonlinear_arith);
        lemma_drift(tv, n, m, put.value());
    }
}

proof fn lemma_drift(t: int, n: int, m: int, r: int)
    requires
        n >= 0,
        m >= 0,
        -n <= (m - n) * 0x10_0000_0000_0000 <= n,
        t + m >= 0 ==> -(t + m) <= (r - (t + m)) * 0x10_0000_0000_0000 <= t + m,
        t + m <= 0 ==> t + m <= (r - (t + m)) * 0x10_0000_0000_0000 <= -(t + m),
    ensures
        t >= 0 ==> is_within(r, t + n, t + 3 * n),
        t <= 0 ==> is_within(r, t + n, -t + 3 * n),
{
}

/// The way to the first tile that is kept, and the place it is put at, are finite: the tile is no
/// further than the surface.
proof fn lemma_moved_is_finite(tiling: AxisTiling, view: AxisView, from: Binary64)
    requires
        is_cullable(tiling, view.tile_lo, view.tile_hi, view.surface_lo, view.surface_hi),
        from.finite(),
        from.value() == first_index(tiling, view) * Binary64::unit(),
        0 <= first_index(tiling, view) < tiling.count,
        tiling.stride.value() > 0,
        first_index(tiling, view) > 0 ==> from == first_visible(
            tiling,
            view.tile_hi,
            view.surface_lo,
        ),
    ensures
        from.times(tiling.stride).finite(),
        tiling.translate.plus(from.times(tiling.stride)).finite(),
{
    let f = Format::Double;
    let one = Binary64::unit() as int;
    let (t, s) = (tiling.translate, tiling.stride);
    let (tv, sv) = (t.value(), s.value());
    let a = first_index(tiling, view);
    let n = a * sv;
    Binary64::lemma_constants(from);
    Binary64::lemma_constants(s);
    Binary64::lemma_constants(t);
    from.lemma_times(s);
    let moved = from.times(s);
    assert((a * one) * sv == n * one) by (nonlinear_arith)
        requires
            n == a * sv,
    ;
    assert((n * one) * 1 == n * one) by (nonlinear_arith);
    crate::ieee::facts::lemma_rounded_monotone(f, n * one, one as nat, n, 1);
    crate::ieee::facts::lemma_rounded_monotone(f, n, 1, n * one, one as nat);
    let m = moved.value();
    assert(m == f.rounded(n, 1));
    assert(n >= 0) by (nonlinear_arith)
        requires
            n == a * sv,
            a >= 0,
            sv > 0,
    ;
    lemma_rounded_exact(f, t.bits as nat, 1);
    if a == 0 {
        assert(n == 0) by (nonlinear_arith)
            requires
                n == a * sv,
                a == 0,
        ;
        crate::ieee::facts::lemma_rounded_zero(f, 1);
        lemma_finite(moved, Binary64::zero());
        t.lemma_plus(moved);
        assert(tv * 1 == tv) by (nonlinear_arith);
        lemma_finite(t.plus(moved), t);
    } else {
        let x = view.surface_lo.minus(view.tile_hi);
        let d = x.minus(t);
        let q = d.over(s);
        lemma_distance_is_number(view.surface_lo, view.tile_hi, t, s);
        view.surface_lo.lemma_minus(view.tile_hi);
        if !x.finite() {
            x.lemma_infinite(t);
        } else {
            x.lemma_minus(t);
        }
        if !d.finite() {
            d.lemma_infinite(s);
        } else {
            d.lemma_over(s);
        }
        if !q.finite() {
            q.lemma_floor_infinite();
            q.lemma_infinite(Binary64::one());
        }
        q.lemma_floor();
        let low = q.value() / one;
        if !q.floor().finite() {
            q.floor().lemma_infinite(Binary64::one());
        }
        q.floor().lemma_minus(Binary64::one());
        lemma_floor_of_index(q, low, a);
        let (dv, qv, xv) = (d.value(), q.value(), x.value());
        Binary64::lemma_constants(d);
        Binary64::lemma_constants(x);
        lemma_bounds(q);
        lemma_bounds(d);
        crate::ieee::error::lemma_rounding_error(f, dv * one, sv as nat);
        crate::ieee::model::lemma_format_constants(f);
        assert(f.hidden() == 0x10_0000_0000_0000);
        lemma_unit_is_large();
        lemma_rounding(xv - tv);
        assert(a <= u32::MAX);
        lemma_way(a, sv, dv, qv, one);
        // The way is not past the distance.
        lemma_rounded_exact(f, d.bits as nat, 1);
        assert(n * 1 == n && dv * 1 == dv) by (nonlinear_arith);
        crate::ieee::facts::lemma_rounded_monotone(f, n, 1, dv, 1);
        crate::ieee::facts::lemma_rounded_sign(f, n, 1);
        lemma_finite_between(moved, Binary64::zero(), d);
        lemma_bounds(moved);
        lemma_rounding(n);
        lemma_place(a, sv, n, m, dv, xv - tv);
        // Nor is the place past the surface.
        t.lemma_plus(moved);
        lemma_rounded_exact(f, x.bits as nat, 1);
        assert((tv + m) * 1 == tv + m && tv * 1 == tv && xv * 1 == xv) by (nonlinear_arith);
        crate::ieee::facts::lemma_rounded_monotone(f, tv, 1, tv + m, 1);
        crate::ieee::facts::lemma_rounded_monotone(f, tv + m, 1, xv, 1);
        lemma_finite_between(t.plus(moved), t, x);
    }
}

/// One is many units.
pub proof fn lemma_unit_is_large()
    ensures
        Binary64::unit() >= 0x10_0000_0000_0000,
{
    vstd::arithmetic::power2::lemma_pow2_adds(52, 1022);
    vstd::arithmetic::power2::lemma_pow2_pos(1022);
    vstd::arithmetic::power2::lemma2_to64();
    vstd::arithmetic::power2::lemma2_to64_rest();
    let p = vstd::arithmetic::power2::pow2(1022) as int;
    assert(0x10_0000_0000_0000 * p >= 0x10_0000_0000_0000) by (nonlinear_arith)
        requires
            p >= 1,
    ;
}

/// A number between two finite ones is finite.
proof fn lemma_finite_between(x: Binary64, a: Binary64, b: Binary64)
    requires
        !x.nan(),
        a.finite(),
        b.finite(),
        a.value() <= x.value() <= b.value(),
    ensures
        x.finite(),
{
    let f = Format::Double;
    Binary64::lemma_constants(x);
    lemma_bounds(a);
    lemma_bounds(b);
    lemma_mag_order(f, f.body(x.bits as nat), f.inf());
}

/// An index that came of a floor, less one, is the floor less one.
proof fn lemma_floor_of_index(q: Binary64, low: int, a: int)
    requires
        q.finite(),
        low == q.value() / (Binary64::unit() as int),
        0 < a <= u32::MAX,
        a * Binary64::unit() == Binary64::rounded(
            low * Binary64::unit() - Binary64::one().value(),
            1,
        ),
    ensures
        (a + 1) * Binary64::unit() <= q.value() < (a + 2) * Binary64::unit(),
{
    let f = Format::Double;
    let one = Binary64::unit() as int;
    Binary64::lemma_constants(q);
    assert(low * one - one == (low - 1) * one) by (nonlinear_arith);
    let (below, above) = (
        Binary64::from_unsigned((a - 1) as u64),
        Binary64::from_unsigned((a + 1) as u64),
    );
    Binary64::lemma_from_unsigned((a - 1) as u64);
    Binary64::lemma_from_unsigned((a + 1) as u64);
    lemma_rounded_exact(f, below.bits as nat, 1);
    lemma_rounded_exact(f, above.bits as nat, 1);
    let n = (low - 1) * one;
    assert(n * 1 == n && ((a - 1) * one) * 1 == (a - 1) * one && ((a + 1) * one) * 1 == (a + 1)
        * one) by (nonlinear_arith);
    assert((a - 1) * one < a * one < (a + 1) * one) by (nonlinear_arith)
        requires
            one > 0,
    ;
    if low - 1 < a {
        assert(n <= (a - 1) * one) by (nonlinear_arith)
            requires
                n == (low - 1) * one,
                low - 1 <= a - 1,
                one > 0,
        ;
        crate::ieee::facts::lemma_rounded_monotone(f, n, 1, (a - 1) * one, 1);
    }
    if low - 1 > a {
        assert((a + 1) * one <= n) by (nonlinear_arith)
            requires
                n == (low - 1) * one,
                low - 1 >= a + 1,
                one > 0,
        ;
        crate::ieee::facts::lemma_rounded_monotone(f, (a + 1) * one, 1, n, 1);
    }
    assert(low == a + 1);
    vstd::arithmetic::div_mod::lemma_fundamental_div_mod(q.value(), one);
    vstd::arithmetic::div_mod::lemma_mod_bound(q.value(), one);
    assert(one * (a + 1) == (a + 1) * one && (a + 2) * one == (a + 1) * one + one)
        by (nonlinear_arith);
}

/// So many strides are three quarters of one short of the distance.
proof fn lemma_way(a: int, s: int, d: int, q: int, one: int)
    requires
        0 < a <= u32::MAX,
        s > 0,
        one >= 0x10_0000_0000_0000,
        (a + 1) * one <= q < (a + 2) * one,
        ({
            let size = if d * one < 0 {
                -(d * one)
            } else {
                d * one
            };
            let slack = if s == 1 {
                0
            } else {
                s * 0x10_0000_0000_0000
            };
            -(size + slack) <= (q * s - d * one) * 0x1f_ffff_ffff_ffff <= size + slack
        }),
    ensures
        4 * (a * s) + 3 * s <= 4 * d,
        d <= (a + 3) * s,
        a * s <= d,
{
    let (bd, bs, bq) = (d * one, s * one, q * s);
    let n = a * s;
    assert(s * 0x10_0000_0000_0000 <= bs) by (nonlinear_arith)
        requires
            bs == s * one,
            s > 0,
            one >= 0x10_0000_0000_0000,
    ;
    let p = n * one;
    assert(p + bs <= bq <= p + 2 * bs) by (nonlinear_arith)
        requires
            (a + 1) * one <= q < (a + 2) * one,
            bq == q * s,
            bs == s * one,
            n == a * s,
            p == n * one,
            s > 0,
    {
        assert(((a + 1) * one) * s <= q * s <= ((a + 2) * one) * s);
        assert(((a + 1) * one) * s == p + bs);
        assert(((a + 2) * one) * s == p + 2 * bs);
    }
    assert(p <= 0xffff_ffff * bs) by (nonlinear_arith)
        requires
            p == n * one,
            n == a * s,
            bs == s * one,
            a <= 0xffff_ffff,
            s > 0,
            one > 0,
    {
        assert(p == a * bs);
        assert(bs > 0);
    }
    assert(p >= 0) by (nonlinear_arith)
        requires
            p == n * one,
            n == a * s,
            a > 0,
            s > 0,
            one > 0,
    ;
    assert(bd >= 0);
    assert((bq - bd) * 0x1f_ffff_ffff_ffff <= bd + bs);
    assert((bd - bq) * 0x1f_ffff_ffff_ffff <= bd + bs);
    assert(bd <= p + 3 * bs);
    assert(4 * p + 3 * bs <= 4 * bd);
    assert((4 * n + 3 * s) * one == 4 * p + 3 * bs && (4 * d) * one == 4 * bd && (n + 3 * s) * one
        == p + 3 * bs) by (nonlinear_arith)
        requires
            p == n * one,
            bs == s * one,
            bd == d * one,
    ;
    let (u, v, w) = (4 * n + 3 * s, 4 * d, n + 3 * s);
    assert(u <= v) by (nonlinear_arith)
        requires
            u * one <= v * one,
            one > 0,
    ;
    assert(d <= w) by (nonlinear_arith)
        requires
            d * one <= w * one,
            one > 0,
    ;
    assert(w == (a + 3) * s) by (nonlinear_arith)
        requires
            w == n + 3 * s,
            n == a * s,
    ;
}

/// Rounding the way and the distance does not take up what the way is short of it.
proof fn lemma_place(a: int, s: int, n: int, m: int, d: int, x: int)
    requires
        0 < a <= u32::MAX,
        s > 0,
        n == a * s,
        4 * n + 3 * s <= 4 * d,
        d <= (a + 3) * s,
        -n <= (m - n) * 0x10_0000_0000_0000 <= n,
        x >= 0 ==> -x <= (d - x) * 0x10_0000_0000_0000 <= x,
        x <= 0 ==> d <= 0,
    ensures
        m <= x,
{
    assert(n <= 0xffff_ffff * s) by (nonlinear_arith)
        requires
            n == a * s,
            a <= 0xffff_ffff,
            s > 0,
    ;
    assert((a + 3) * s == n + 3 * s) by (nonlinear_arith)
        requires
            n == a * s,
    ;
    assert(n > 0) by (nonlinear_arith)
        requires
            n == a * s,
            a > 0,
            s > 0,
    ;
    assert(x > 0);
    assert(x <= 2 * d);
    assert(4 * (m - n) <= s);
    assert(4 * (d - x) <= s);
}

/// A finite number is less than infinity.
pub proof fn lemma_bounds(x: Binary64)
    requires
        x.finite(),
    ensures
        -Format::Double.mag(Format::Double.inf()) < x.value() < Format::Double.mag(
            Format::Double.inf(),
        ),
{
    let f = Format::Double;
    crate::ieee::model::lemma_format_constants(f);
    Binary64::lemma_constants(x);
    lemma_mag_order(f, f.body(x.bits as nat), f.inf());
}

/// A tile that a surface shows is among those that are kept for it.
pub proof fn law_shown_tiles_are_kept(tiling: AxisTiling, view: AxisView, i: int)
    requires
        is_near(tiling, view),
        0 <= i < tiling.count,
        !is_hidden(tiling, view, i),
    ensures
        first_index(tiling, view) <= i < first_index(tiling, view) + kept(tiling, view).count,
{
    if is_cullable(tiling, view.tile_lo, view.tile_hi, view.surface_lo, view.surface_hi) {
        let first = first_index(tiling, view);
        if !(first <= i < first + kept(tiling, view).count) {
            law_culling_drops_only_hidden_tiles(
                tiling,
                view.tile_lo,
                view.tile_hi,
                view.surface_lo,
                view.surface_hi,
                i,
            );
        }
    }
}

/// Two surfaces agree on what both show: a tile that is kept for one, and that the other shows,
/// is kept for the other too, and stands at the same place.
pub proof fn law_two_surfaces_agree(tiling: AxisTiling, here: AxisView, there: AxisView, i: int)
    requires
        is_moved_exactly(tiling, here),
        is_moved_exactly(tiling, there),
        is_near(tiling, there),
        0 <= i < kept(tiling, here).count,
        !is_hidden(tiling, there, first_index(tiling, here) + i),
    ensures
        ({
            let j = first_index(tiling, here) + i - first_index(tiling, there);
            &&& 0 <= j < kept(tiling, there).count
            &&& place_of_tile(kept(tiling, there), j) == place_of_tile(kept(tiling, here), i)
        }),
{
    law_kept_tiles_stay_in_place(tiling, here, i);
    let k = first_index(tiling, here) + i;
    law_shown_tiles_are_kept(tiling, there, k);
    law_kept_tiles_stay_in_place(tiling, there, k - first_index(tiling, there));
}

/// Two surfaces agree on what both show, up to rounding: a tile that is kept for one, and that the
/// other shows, is kept for the other too, and stands at the same place but for the roundings on
/// the way there.
pub proof fn law_two_surfaces_agree_up_to_rounding(
    tiling: AxisTiling,
    here: AxisView,
    there: AxisView,
    i: int,
)
    requires
        is_near(tiling, there),
        0 <= i < kept(tiling, here).count,
        !is_hidden(tiling, there, first_index(tiling, here) + i),
    ensures
        ({
            let j = first_index(tiling, here) + i - first_index(tiling, there);
            &&& 0 <= j < kept(tiling, there).count
            &&& is_within(
                place_of_tile(kept(tiling, there), j),
                place_of_tile(kept(tiling, here), i),
                drift(tiling, here) + drift(tiling, there),
            )
        }),
{
    law_kept_tiles_stay_in_place_up_to_rounding(tiling, here, i);
    let k = first_index(tiling, here) + i;
    law_shown_tiles_are_kept(tiling, there, k);
    law_kept_tiles_stay_in_place_up_to_rounding(tiling, there, k - first_index(tiling, there));
}

/// The columns of a layer's tiles and a surface.
pub open spec fn columns(tiles: LayerTiles, surface: Rect) -> AxisView {
    let rect = tiles.tile_rect();
    AxisView {
        tile_lo: rect.x0,
        tile_hi: rect.x1,
        surface_lo: surface.x0,
        surface_hi: surface.x1,
    }
}

/// The rows of a layer's tiles and a surface.
pub open spec fn rows(tiles: LayerTiles, surface: Rect) -> AxisView {
    let rect = tiles.tile_rect();
    AxisView {
        tile_lo: rect.y0,
        tile_hi: rect.y1,
        surface_lo: surface.y0,
        surface_hi: surface.y1,
    }
}

/// Two surfaces agree on the tiles of a layer that both show: the tile in column `column` and row
/// `row` of those painted on one surface is painted on any other that shows it, in the same size
/// and at the same place.
pub proof fn law_two_surfaces_agree_on_a_layer(
    cx: ElementCx,
    layer: LayerPlacement,
    geometry: LayerGeometry,
    here: Rect,
    there: Rect,
    row: int,
    column: int,
)
    requires
        cx.visible_tiles(layer, geometry, here) is Some,
        ({
            let all = cx.lattice(layer, geometry);
            let painted = cx.visible_tiles(layer, geometry, here)->0;
            &&& is_moved_exactly(all.x, columns(all, here))
            &&& is_moved_exactly(all.x, columns(all, there))
            &&& is_near(all.x, columns(all, there))
            &&& is_moved_exactly(all.y, rows(all, here))
            &&& is_moved_exactly(all.y, rows(all, there))
            &&& is_near(all.y, rows(all, there))
            &&& 0 <= column < painted.x.count
            &&& 0 <= row < painted.y.count
            &&& !is_hidden(
                all.x,
                columns(all, there),
                first_index(all.x, columns(all, here)) + column,
            )
            &&& !is_hidden(all.y, rows(all, there), first_index(all.y, rows(all, here)) + row)
        }),
    ensures
        cx.visible_tiles(layer, geometry, there) is Some,
        ({
            let all = cx.lattice(layer, geometry);
            let painted = cx.visible_tiles(layer, geometry, here)->0;
            let other = cx.visible_tiles(layer, geometry, there)->0;
            let c = first_index(all.x, columns(all, here)) + column - first_index(
                all.x,
                columns(all, there),
            );
            let r = first_index(all.y, rows(all, here)) + row - first_index(
                all.y,
                rows(all, there),
            );
            &&& other.tile_rect() == painted.tile_rect()
            &&& 0 <= c < other.x.count
            &&& 0 <= r < other.y.count
            &&& place_of_tile(other.x, c) == place_of_tile(painted.x, column)
            &&& place_of_tile(other.y, r) == place_of_tile(painted.y, row)
        }),
{
    let all = cx.lattice(layer, geometry);
    law_two_surfaces_agree(all.x, columns(all, here), columns(all, there), column);
    law_two_surfaces_agree(all.y, rows(all, here), rows(all, there), row);
}

/// Two surfaces agree on the tiles of a layer that both show, up to rounding: the tile in column
/// `column` and row `row` of those painted on one surface is painted on any other that shows it, in
/// the same size and at the same place but for the roundings on the way there.
pub proof fn law_two_surfaces_agree_on_a_layer_up_to_rounding(
    cx: ElementCx,
    layer: LayerPlacement,
    geometry: LayerGeometry,
    here: Rect,
    there: Rect,
    row: int,
    column: int,
)
    requires
        cx.visible_tiles(layer, geometry, here) is Some,
        ({
            let all = cx.lattice(layer, geometry);
            let painted = cx.visible_tiles(layer, geometry, here)->0;
            &&& is_near(all.x, columns(all, there))
            &&& is_near(all.y, rows(all, there))
            &&& 0 <= column < painted.x.count
            &&& 0 <= row < painted.y.count
            &&& !is_hidden(
                all.x,
                columns(all, there),
                first_index(all.x, columns(all, here)) + column,
            )
            &&& !is_hidden(all.y, rows(all, there), first_index(all.y, rows(all, here)) + row)
        }),
    ensures
        cx.visible_tiles(layer, geometry, there) is Some,
        ({
            let all = cx.lattice(layer, geometry);
            let painted = cx.visible_tiles(layer, geometry, here)->0;
            let other = cx.visible_tiles(layer, geometry, there)->0;
            let c = first_index(all.x, columns(all, here)) + column - first_index(
                all.x,
                columns(all, there),
            );
            let r = first_index(all.y, rows(all, here)) + row - first_index(
                all.y,
                rows(all, there),
            );
            &&& other.tile_rect() == painted.tile_rect()
            &&& 0 <= c < other.x.count
            &&& 0 <= r < other.y.count
            &&& is_within(
                place_of_tile(other.x, c),
                place_of_tile(painted.x, column),
                drift(all.x, columns(all, here)) + drift(all.x, columns(all, there)),
            )
            &&& is_within(
                place_of_tile(other.y, r),
                place_of_tile(painted.y, row),
                drift(all.y, rows(all, here)) + drift(all.y, rows(all, there)),
            )
        }),
{
    let all = cx.lattice(layer, geometry);
    law_two_surfaces_agree_up_to_rounding(
        all.x,
        columns(all, here),
        columns(all, there),
        column,
    );
    law_two_surfaces_agree_up_to_rounding(all.y, rows(all, here), rows(all, there), row);
}

/// Whether tile `i` of a tiling covers a place, in exact arithmetic.
pub open spec fn is_covered(tiling: AxisTiling, view: AxisView, i: int, at: int) -> bool {
    view.tile_lo.value() + place_of_tile(tiling, i) <= at < view.tile_hi.value() + place_of_tile(
        tiling,
        i,
    )
}

/// Whether a place is on the surface.
pub open spec fn is_on_surface(view: AxisView, at: int) -> bool {
    view.surface_lo.value() <= at < view.surface_hi.value()
}

/// What a point shows does not depend on the surface: wherever a tile of a layer covers a point
/// that is on two surfaces, both keep the tile, and the point is at the same place within it on
/// both, but for the roundings on the way there.
pub proof fn law_a_point_shows_the_same_on_two_surfaces(
    cx: ElementCx,
    layer: LayerPlacement,
    geometry: LayerGeometry,
    here: Rect,
    there: Rect,
    row: int,
    column: int,
    x: int,
    y: int,
)
    requires
        cx.visible_tiles(layer, geometry, here) is Some,
        ({
            let all = cx.lattice(layer, geometry);
            &&& is_near(all.x, columns(all, here)) && is_near(all.x, columns(all, there))
            &&& is_near(all.y, rows(all, here)) && is_near(all.y, rows(all, there))
            &&& 0 <= column < all.x.count
            &&& 0 <= row < all.y.count
            &&& is_covered(all.x, columns(all, here), column, x)
            &&& is_covered(all.y, rows(all, here), row, y)
            &&& is_on_surface(columns(all, here), x) && is_on_surface(columns(all, there), x)
            &&& is_on_surface(rows(all, here), y) && is_on_surface(rows(all, there), y)
        }),
    ensures
        cx.visible_tiles(layer, geometry, there) is Some,
        ({
            let all = cx.lattice(layer, geometry);
            let (p, q) = (
                cx.visible_tiles(layer, geometry, here)->0,
                cx.visible_tiles(layer, geometry, there)->0,
            );
            let (a, b) = (
                column - first_index(all.x, columns(all, here)),
                column - first_index(all.x, columns(all, there)),
            );
            let (c, d) = (
                row - first_index(all.y, rows(all, here)),
                row - first_index(all.y, rows(all, there)),
            );
            &&& p.tile_rect() == q.tile_rect()
            &&& 0 <= a < p.x.count && 0 <= b < q.x.count
            &&& 0 <= c < p.y.count && 0 <= d < q.y.count
            &&& is_within(
                x - place_of_tile(p.x, a),
                x - place_of_tile(q.x, b),
                drift(all.x, columns(all, here)) + drift(all.x, columns(all, there)),
            )
            &&& is_within(
                y - place_of_tile(p.y, c),
                y - place_of_tile(q.y, d),
                drift(all.y, rows(all, here)) + drift(all.y, rows(all, there)),
            )
        }),
{
    let all = cx.lattice(layer, geometry);
    lemma_shown_at_a_point(all.x, columns(all, here), columns(all, there), column, x);
    lemma_shown_at_a_point(all.y, rows(all, here), rows(all, there), row, y);
}

proof fn lemma_shown_at_a_point(
    tiling: AxisTiling,
    here: AxisView,
    there: AxisView,
    i: int,
    at: int,
)
    requires
        here.tile_lo == there.tile_lo && here.tile_hi == there.tile_hi,
        is_near(tiling, here),
        is_near(tiling, there),
        0 <= i < tiling.count,
        is_covered(tiling, here, i, at),
        is_on_surface(here, at),
        is_on_surface(there, at),
    ensures
        ({
            let (a, b) = (i - first_index(tiling, here), i - first_index(tiling, there));
            &&& 0 <= a < kept(tiling, here).count
            &&& 0 <= b < kept(tiling, there).count
            &&& kept(tiling, here).rect_len == kept(tiling, there).rect_len
            &&& is_within(
                at - place_of_tile(kept(tiling, here), a),
                at - place_of_tile(kept(tiling, there), b),
                drift(tiling, here) + drift(tiling, there),
            )
        }),
{
    law_shown_tiles_are_kept(tiling, here, i);
    law_shown_tiles_are_kept(tiling, there, i);
    law_kept_tiles_stay_in_place_up_to_rounding(tiling, here, i - first_index(tiling, here));
    law_kept_tiles_stay_in_place_up_to_rounding(tiling, there, i - first_index(tiling, there));
}

} // verus!
