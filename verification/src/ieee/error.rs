//! How far rounding moves a value.

use super::facts::{lemma_rounded_sign, lemma_rounded_zero};
use super::model::{
    lemma_format_constants, lemma_mag_order, lemma_mag_parts, lemma_round_nearest,
    lemma_split_pattern, Format,
};
use vstd::arithmetic::power2::{lemma_pow2_pos, pow2};
use vstd::prelude::*;

verus! {

/// Neighbouring magnitudes are one unit apart, or close in proportion.
proof fn lemma_gap(f: Format, b: nat)
    ensures
        f.mag(b) < f.mag(b + 1),
        f.mag(b + 1) - f.mag(b) == 1 || (f.mag(b + 1) - f.mag(b)) * f.hidden() <= f.mag(b),
{
    let (q, e) = lemma_split_pattern(f, b);
    lemma_mag_parts(f, q, e);
    lemma_mag_parts(f, q + 1, e);
    assert(e * f.hidden() + (q + 1) == b + 1);
    lemma_pow2_pos(e);
    let p = pow2(e);
    let h = f.hidden();
    assert((q + 1) * p - q * p == p) by (nonlinear_arith);
    if e == 0 {
        vstd::arithmetic::power2::lemma2_to64();
    } else {
        assert(p * h <= q * p) by (nonlinear_arith)
            requires
                q >= h,
        ;
    }
}

/// Rounding `n / d` moves it by at most half of one part in `hidden`; of whole units, or of
/// anything that does not round below the normal range.
pub proof fn lemma_relative_error(f: Format, n: nat, d: nat)
    requires
        d > 0,
    ensures
        ({
            let b = f.round(n, d);
            let m = f.mag(b);
            let h = f.hidden();
            d == 1 || m >= h ==> {
                &&& m * d * (2 * h - 1) <= n * (2 * h)
                &&& b < f.inf() ==> n * (2 * h) <= m * d * (2 * h + 1)
            }
        }),
{
    let b = f.round(n, d);
    let m = f.mag(b);
    let h = f.hidden();
    lemma_round_nearest(f, n, d);
    lemma_format_constants(f);
    reveal(Format::is_nearest);
    if d == 1 || m >= h {
        if b > 0 {
            let t = f.mag((b - 1) as nat);
            lemma_gap(f, (b - 1) as nat);
            assert(2 * n >= d * (t + m));
            if (m - t) * h <= m {
                assert(m * d * (2 * h - 1) <= n * (2 * h)) by (nonlinear_arith)
                    requires
                        2 * n >= d * (t + m),
                        (m - t) * h <= m,
                        h > 0,
                        d > 0,
                {
                    assert(2 * n * h >= d * (t + m) * h);
                    assert(d * (t + m) * h == d * (2 * m * h - (m - t) * h));
                    assert(d * (2 * m * h - (m - t) * h) >= d * (2 * m * h - m));
                    assert(d * (2 * m * h - m) == m * d * (2 * h - 1));
                }
            } else {
                assert(m - t == 1);
                assert(d == 1) by {
                    if m >= h {
                        assert((m - t) * h == h) by (nonlinear_arith)
                            requires
                                m - t == 1,
                        ;
                    }
                }
                assert(d * (t + m) == t + m) by (nonlinear_arith)
                    requires
                        d == 1,
                ;
                assert(n >= m);
                assert(m * d * (2 * h - 1) <= n * (2 * h)) by (nonlinear_arith)
                    requires
                        n >= m,
                        d == 1,
                        h > 0,
                ;
            }
        } else {
            super::facts::lemma_value_zero(f, 0);
            assert(m * d * (2 * h - 1) <= n * (2 * h)) by (nonlinear_arith)
                requires
                    m == 0,
                    h > 0,
            ;
        }
        if b < f.inf() {
            let t = f.mag(b + 1);
            lemma_gap(f, b);
            assert(2 * n <= d * (m + t));
            if (t - m) * h <= m {
                assert(n * (2 * h) <= m * d * (2 * h + 1)) by (nonlinear_arith)
                    requires
                        2 * n <= d * (m + t),
                        (t - m) * h <= m,
                        h > 0,
                        d > 0,
                {
                    assert(2 * n * h <= d * (m + t) * h);
                    assert(d * (m + t) * h == d * (2 * m * h + (t - m) * h));
                    assert(d * (2 * m * h + (t - m) * h) <= d * (2 * m * h + m));
                    assert(d * (2 * m * h + m) == m * d * (2 * h + 1));
                }
            } else {
                assert(t - m == 1);
                assert(d == 1) by {
                    if m >= h {
                        assert((t - m) * h == h) by (nonlinear_arith)
                            requires
                                t - m == 1,
                        ;
                    }
                }
                assert(d * (m + t) == m + t) by (nonlinear_arith)
                    requires
                        d == 1,
                ;
                assert(n <= m);
                assert(n * (2 * h) <= m * d * (2 * h + 1)) by (nonlinear_arith)
                    requires
                        n <= m,
                        d == 1,
                        h > 0,
                ;
            }
        }
    }
}

/// A whole number of units, and what it rounds to, in either sign.
pub proof fn lemma_whole_error(f: Format, n: int)
    ensures
        ({
            let r = f.rounded(n, 1);
            let p = 2 * f.hidden();
            &&& n >= 0 ==> r * (p - 1) <= n * p
            &&& n <= 0 ==> n * p <= r * (p - 1)
            &&& n >= 0 && r < f.mag(f.inf()) ==> n * p <= r * (p + 1)
            &&& n <= 0 && -r < f.mag(f.inf()) ==> r * (p + 1) <= n * p
        }),
{
    let h = f.hidden();
    let p = 2 * h;
    let a = (if n < 0 {
        -n
    } else {
        n
    }) as nat;
    lemma_relative_error(f, a, 1);
    lemma_rounded_sign(f, n, 1);
    lemma_rounded_zero(f, 1);
    let b = f.round(a, 1);
    let m = f.mag(b);
    lemma_mag_order(f, b, f.inf());
    super::facts::lemma_round_bound(f, a, 1);
    assert(m * 1 * (p - 1) == m * (p - 1) && m * 1 * (p + 1) == m * (p + 1)) by (nonlinear_arith);
    let im = m as int;
    let ip = p as int;
    assert((-im) * (ip - 1) == -(im * (ip - 1)) && (-im) * (ip + 1) == -(im * (ip + 1)))
        by (nonlinear_arith);
    let ia = a as int;
    assert((-ia) * ip == -(ia * ip)) by (nonlinear_arith);
}

/// How far rounding moves a fraction of units: by one part in `2 * hidden - 1` of it, and by half a
/// unit where that is more.
pub proof fn lemma_rounding_error(f: Format, n: int, d: nat)
    requires
        d > 0,
        -f.mag(f.inf()) < f.rounded(n, d) < f.mag(f.inf()),
    ensures
        ({
            let e = f.rounded(n, d) * d - n;
            let size = if n < 0 {
                -n
            } else {
                n
            };
            let slack = if d == 1 {
                0
            } else {
                d * f.hidden()
            };
            -(size + slack) <= e * (2 * f.hidden() - 1) <= size + slack
        }),
{
    let h = f.hidden() as int;
    let a = (if n < 0 {
        -n
    } else {
        n
    }) as nat;
    let b = f.round(a, d);
    let m = f.mag(b) as int;
    let id = d as int;
    lemma_format_constants(f);
    lemma_mag_order(f, b, f.inf());
    super::facts::lemma_round_bound(f, a, d);
    lemma_relative_error(f, a, d);
    let e = m * id - a;
    assert(id * h >= 0) by (nonlinear_arith)
        requires
            id > 0,
            h > 0,
    ;
    if d == 1 || m >= h {
        assert(m * d * (2 * h - 1) <= a * (2 * h));
        assert(a * (2 * h) <= m * d * (2 * h + 1));
        let ia = a as int;
        assert(-ia <= e * (2 * h - 1) <= ia) by (nonlinear_arith)
            requires
                e == m * id - ia,
                (m * id) * (2 * h - 1) <= ia * (2 * h),
                ia * (2 * h) <= (m * id) * (2 * h + 1),
                h >= 1,
                ia >= 0,
        {
            let t = m * id;
            assert(e * (2 * h - 1) == t * (2 * h - 1) - ia * (2 * h) + ia);
            assert(e * (2 * h + 1) == t * (2 * h + 1) - ia * (2 * h) - ia);
            assert(e * (2 * h + 1) >= -ia);
            if e < 0 {
                assert(e * (2 * h - 1) == e * (2 * h + 1) - 2 * e);
            }
        }
    } else {
        lemma_round_nearest(f, a, d);
        reveal(Format::is_nearest);
        lemma_gap(f, b);
        assert(f.mag(b + 1) - f.mag(b) == 1) by {
            let g = f.mag(b + 1) - f.mag(b);
            if g != 1 {
                assert(g * h >= h) by (nonlinear_arith)
                    requires
                        g >= 1,
                        h > 0,
                ;
            }
        }
        assert(id * (m + (m + 1)) == 2 * (m * id) + id) by (nonlinear_arith);
        assert(2 * e >= -id);
        if b > 0 {
            lemma_gap(f, (b - 1) as nat);
            let t = f.mag((b - 1) as nat) as int;
            assert(m - t == 1) by {
                let g = m - t;
                if g != 1 {
                    assert(g * h >= h) by (nonlinear_arith)
                        requires
                            g >= 1,
                            h > 0,
                    ;
                }
            }
            assert(id * ((m - 1) + m) == 2 * (m * id) - id) by (nonlinear_arith);
            assert(2 * e <= id);
        } else {
            super::facts::lemma_value_zero(f, 0);
            assert(m * id == 0) by (nonlinear_arith)
                requires
                    m == 0,
            ;
        }
        assert(-(id * h) <= e * (2 * h - 1) <= id * h) by (nonlinear_arith)
            requires
                -id <= 2 * e <= id,
                h >= 1,
                id > 0,
        {
            assert((2 * e) * (2 * h - 1) <= id * (2 * h - 1));
            assert((2 * e) * (2 * h - 1) >= -(id * (2 * h - 1)));
        }
    }
    let r = f.rounded(n, d);
    if n < 0 {
        assert(r == -m);
        assert(r * id - n == -e) by (nonlinear_arith)
            requires
                r == -m,
                e == m * id - a,
                n == -(a as int),
        ;
        assert((-e) * (2 * h - 1) == -(e * (2 * h - 1))) by (nonlinear_arith);
    }
}

} // verus!
