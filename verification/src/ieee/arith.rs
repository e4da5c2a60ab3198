//! The operations on patterns.

use super::model::{
    lemma_format_constants, lemma_mag_order, lemma_mag_parts, lemma_round_exact,
    lemma_round_positive, lemma_round_zero, Format,
};
use super::rounding::{
    bit_length, hidden, infinity, lemma_pow2_monotone, lemma_top, over, power, round_parts, spans,
    under, TOP,
};
use vstd::arithmetic::power2::{
    lemma2_to64, lemma2_to64_rest, lemma_pow2_adds, lemma_pow2_pos, lemma_pow2_unfold, pow2,
};
use vstd::prelude::*;

verus! {

/// The sign bit of the format.
fn sign_bit(f: Format) -> (r: u64)
    ensures
        r == f.sign_bit(),
{
    match f {
        Format::Single => 0x8000_0000,
        Format::Double => 0x8000_0000_0000_0000,
    }
}

/// Units in one, as a power of two.
fn unit_exponent(f: Format) -> (r: u32)
    ensures
        r == f.unit_exponent(),
{
    match f {
        Format::Single => 149,
        Format::Double => 1074,
    }
}

pub(crate) fn negative(f: Format, x: u64) -> (r: bool)
    ensures
        r == f.negative(x as nat),
{
    x >= sign_bit(f)
}

pub(crate) fn body(f: Format, x: u64) -> (r: u64)
    ensures
        r == f.body(x as nat),
        f.valid(x as nat) ==> r < f.sign_bit(),
{
    let s: u64 = sign_bit(f);
    if x >= s {
        x - s
    } else {
        x
    }
}

pub(crate) fn signed(f: Format, negative: bool, b: u64) -> (r: u64)
    requires
        b < f.sign_bit(),
    ensures
        r == f.signed(negative, b as nat),
        f.valid(r as nat),
        f.body(r as nat) == b,
        f.negative(r as nat) == negative,
{
    if negative {
        b + sign_bit(f)
    } else {
        b
    }
}

fn nan(f: Format) -> (r: u64)
    ensures
        r == f.nan(),
        f.valid(r as nat),
        f.is_nan(r as nat),
{
    infinity(f) + hidden(f) / 2
}

/// Significand and exponent of an unsigned pattern.
fn split(f: Format, b: u64) -> (r: (u64, u32))
    requires
        b < f.sign_bit(),
    ensures
        r.0 < 2 * f.hidden(),
        r.0 >= f.hidden() || r.1 == 0,
        b == r.1 * f.hidden() + r.0,
        f.mag(b as nat) == r.0 * pow2(r.1 as nat),
        r.0 == 0 <==> b == 0,
        r.1 <= 2047,
{
    let h: u64 = hidden(f);
    proof {
        lemma_format_constants(f);
    }
    if b < h {
        proof {
            assert(0nat * f.hidden() == 0) by (nonlinear_arith);
            lemma_mag_parts(f, b as nat, 0);
            assert(0u32 * f.hidden() == 0) by (nonlinear_arith);
        }
        (b, 0)
    } else {
        let q: u64 = h + b % h;
        let e: u64 = b / h - 1;
        proof {
            vstd::arithmetic::div_mod::lemma_fundamental_div_mod(b as int, h as int);
            assert(e * h + q == b) by (nonlinear_arith)
                requires
                    b == h * (b / h) + b % h,
                    q == h + b % h,
                    e == b / h - 1,
            ;
            lemma_mag_parts(f, q as nat, e as nat);
        }
        (q, e as u32)
    }
}

/// The pattern of `m` times two to the `e` units.
fn from_parts(f: Format, m: u128, e: u32) -> (b: u64)
    requires
        m < TOP,
        e <= 4000,
    ensures
        b == f.round(m as nat * pow2(e as nat), 1),
        b <= f.inf(),
{
    if m == 0 {
        proof {
            assert(0nat * pow2(e as nat) == 0) by (nonlinear_arith);
            lemma_round_zero(f, 1);
        }
        return 0;
    }
    let ghost n = m as nat * pow2(e as nat);
    proof {
        lemma2_to64();
        lemma_pow2_pos(e as nat);
        assert(n * 1 == n && m as nat * pow2(e as nat) * 1 == n) by (nonlinear_arith)
            requires
                n == m as nat * pow2(e as nat),
        ;
        assert((m as nat + 1) * pow2(e as nat) * 1 > n) by (nonlinear_arith)
            requires
                n == m as nat * pow2(e as nat),
                pow2(e as nat) > 0,
        ;
        assert(under(e as int) == 1);
        assert(n * under(e as int) == n) by (nonlinear_arith)
            requires
                under(e as int) == 1,
        ;
    }
    round_parts(f, m, e as i32, false, Ghost(n), Ghost(1nat))
}

/// `x * y` for finite operands.
fn product_finite(f: Format, a: u64, b: u64) -> (r: u64)
    requires
        a < f.inf(),
        b < f.inf(),
    ensures
        r == f.round(f.mag(a as nat) * f.mag(b as nat), f.one()),
        r <= f.inf(),
{
    proof {
        lemma_format_constants(f);
        lemma_pow2_pos(f.unit_exponent());
    }
    let (q1, e1) = split(f, a);
    let (q2, e2) = split(f, b);
    let ghost n = f.mag(a as nat) * f.mag(b as nat);
    if q1 == 0 || q2 == 0 {
        proof {
            assert(n == 0) by (nonlinear_arith)
                requires
                    n == (q1 * pow2(e1 as nat)) * (q2 * pow2(e2 as nat)),
                    q1 == 0 || q2 == 0,
            ;
            lemma_round_zero(f, f.one());
        }
        return 0;
    }
    assert(0 < q1 * q2 < 0x20_0000_0000_0000 * 0x20_0000_0000_0000) by (nonlinear_arith)
        requires
            0 < q1 < 0x20_0000_0000_0000,
            0 < q2 < 0x20_0000_0000_0000,
    ;
    let m: u128 = (q1 as u128) * (q2 as u128);
    let u: u32 = unit_exponent(f);
    let k: i32 = e1 as i32 + e2 as i32 - u as i32;
    proof {
        let p1 = pow2(e1 as nat);
        let p2 = pow2(e2 as nat);
        let a1 = over(k as int);
        let c1 = under(k as int);
        let one = f.one();
        lemma2_to64();
        lemma_pow2_adds(e1 as nat, e2 as nat);
        assert(a1 * one == (p1 * p2) * c1) by {
            if k >= 0 {
                lemma_pow2_adds(k as nat, u as nat);
                assert((p1 * p2) * 1 == p1 * p2) by (nonlinear_arith);
            } else {
                lemma_pow2_adds((e1 + e2) as nat, (-k) as nat);
                assert(1 * one == one) by (nonlinear_arith);
            }
        }
        assert(n == m * (p1 * p2)) by (nonlinear_arith)
            requires
                n == (q1 * p1) * (q2 * p2),
                m == q1 * q2,
        ;
        assert(m * a1 * one == n * c1) by (nonlinear_arith)
            requires
                n == m * (p1 * p2),
                a1 * one == (p1 * p2) * c1,
        ;
        lemma_pow2_pos((if k >= 0 {
            k
        } else {
            0
        }) as nat);
        assert((m + 1) * a1 * one > m * a1 * one) by (nonlinear_arith)
            requires
                a1 > 0,
                one > 0,
        ;
    }
    round_parts(f, m, k, false, Ghost(n), Ghost(f.one()))
}

/// `x * y`
pub(crate) fn product(f: Format, x: u64, y: u64) -> (r: u64)
    requires
        f.valid(x as nat),
        f.valid(y as nat),
    ensures
        r == f.product(x as nat, y as nat),
        f.valid(r as nat),
{
    let a: u64 = body(f, x);
    let b: u64 = body(f, y);
    let inf: u64 = infinity(f);
    let s: bool = negative(f, x) != negative(f, y);
    if a > inf || b > inf {
        nan(f)
    } else if a == inf || b == inf {
        if a == 0 || b == 0 {
            nan(f)
        } else {
            signed(f, s, inf)
        }
    } else {
        signed(f, s, product_finite(f, a, b))
    }
}

/// `x / y` for finite operands that are not zero.
fn quotient_finite(f: Format, a: u64, b: u64) -> (r: u64)
    requires
        a < f.inf(),
        0 < b < f.inf(),
    ensures
        r == f.round(f.mag(a as nat) * f.one(), f.mag(b as nat)),
        r <= f.inf(),
{
    proof {
        lemma_format_constants(f);
    }
    let (q1, e1) = split(f, a);
    let (q2, e2) = split(f, b);
    let ghost n = f.mag(a as nat) * f.one();
    let ghost d = f.mag(b as nat);
    proof {
        lemma_pow2_pos(e2 as nat);
        assert(d > 0) by (nonlinear_arith)
            requires
                d == q2 * pow2(e2 as nat),
                q2 > 0,
                pow2(e2 as nat) > 0,
        ;
    }
    if q1 == 0 {
        proof {
            assert(n == 0) by (nonlinear_arith)
                requires
                    n == (q1 * pow2(e1 as nat)) * f.one(),
                    q1 == 0,
            ;
            lemma_round_zero(f, d);
        }
        return 0;
    }
    let len: u32 = bit_length(q1 as u128);
    proof {
        lemma2_to64();
        lemma2_to64_rest();
        if len > 64 {
            lemma_pow2_monotone(64, (len - 1) as nat);
        }
    }
    let g: u32 = 126 - len;
    let w: u128 = power(g);
    let ghost wg = w as nat;
    proof {
        lemma_pow2_adds(len as nat, g as nat);
        lemma_pow2_adds((len - 1) as nat, g as nat);
        lemma_pow2_unfold(127);
        lemma_pow2_unfold(126);
        lemma_top();
        assert(q1 * wg < pow2(126)) by (nonlinear_arith)
            requires
                q1 < pow2(len as nat),
                pow2(len as nat) * wg == pow2(126),
                wg > 0,
        ;
        assert(q1 * wg >= pow2(125)) by (nonlinear_arith)
            requires
                q1 >= pow2((len - 1) as nat),
                pow2((len - 1) as nat) * wg == pow2(125),
        ;
    }
    let top: u128 = (q1 as u128) * w;
    let m: u128 = top / (q2 as u128);
    let r: u128 = top % (q2 as u128);
    let lost: bool = r != 0;
    let u: u32 = unit_exponent(f);
    let k: i32 = e1 as i32 + u as i32 - e2 as i32 - g as i32;
    proof {
        vstd::arithmetic::div_mod::lemma_fundamental_div_mod(top as int, q2 as int);
        assert(m * q2 + r == top) by (nonlinear_arith)
            requires
                top == q2 * m + r,
        ;
        assert(m <= top) by (nonlinear_arith)
            requires
                m * q2 + r == top,
                q2 >= 1,
        ;
        lemma_pow2_adds(71, 54);
        assert(m >= 2 * f.hidden()) by (nonlinear_arith)
            requires
                m * q2 + r == top,
                r < q2,
                q2 < 0x20_0000_0000_0000,
                top >= pow2(71) * pow2(54),
                pow2(54) == 0x40_0000_0000_0000,
                pow2(71) > 0x100_0000_0000_0000,
                f.hidden() <= 0x10_0000_0000_0000,
        ;
        let p1 = pow2(e1 as nat);
        let p2 = pow2(e2 as nat);
        let one = f.one();
        let a1 = over(k as int);
        let c1 = under(k as int);
        let pp = (p1 * one) * c1;
        lemma_pow2_adds(e1 as nat, u as nat);
        lemma_pow2_adds(e2 as nat, g as nat);
        assert(a1 * (p2 * wg) == pp) by {
            if k >= 0 {
                lemma_pow2_adds(k as nat, (e2 + g) as nat);
                assert((p1 * one) * 1 == p1 * one) by (nonlinear_arith);
            } else {
                lemma_pow2_adds((e1 + u) as nat, (-k) as nat);
                assert(1 * (p2 * wg) == p2 * wg) by (nonlinear_arith);
            }
        }
        let lo = m * a1 * d;
        let hi = (m + 1) * a1 * d;
        let mid = n * c1;
        assert(mid == q1 * pp) by (nonlinear_arith)
            requires
                mid == n * c1,
                n == (q1 * p1) * one,
                pp == (p1 * one) * c1,
        ;
        assert(lo * wg == (m * q2) * pp) by (nonlinear_arith)
            requires
                lo == m * a1 * d,
                d == q2 * p2,
                a1 * (p2 * wg) == pp,
        ;
        assert(hi * wg == ((m + 1) * q2) * pp) by (nonlinear_arith)
            requires
                hi == (m + 1) * a1 * d,
                d == q2 * p2,
                a1 * (p2 * wg) == pp,
        ;
        assert(mid * wg == top * pp) by (nonlinear_arith)
            requires
                mid == q1 * pp,
                top == q1 * wg,
        ;
        assert((m + 1) * q2 == m * q2 + q2) by (nonlinear_arith);
        lemma_pow2_pos((if k >= 0 {
            0
        } else {
            -k
        }) as nat);
        lemma_pow2_pos((e1 + u) as nat);
        assert(pp > 0) by (nonlinear_arith)
            requires
                pp == (p1 * one) * c1,
                p1 * one > 0,
                c1 > 0,
        ;
        assert((m * q2) * pp <= top * pp && top * pp < ((m + 1) * q2) * pp) by (nonlinear_arith)
            requires
                m * q2 <= top,
                top < (m + 1) * q2,
                pp > 0,
        ;
        assert(m * q2 < top ==> (m * q2) * pp < top * pp) by (nonlinear_arith)
            requires
                pp > 0,
        ;
        assert(lo <= mid && mid < hi) by (nonlinear_arith)
            requires
                lo * wg <= mid * wg,
                mid * wg < hi * wg,
                wg > 0,
        ;
        assert(lost <==> mid != lo) by {
            if lost {
                assert(lo * wg < mid * wg);
            } else {
                assert(lo == mid) by (nonlinear_arith)
                    requires
                        lo * wg == mid * wg,
                        wg > 0,
                ;
            }
        }
    }
    round_parts(f, m, k, lost, Ghost(n), Ghost(d))
}

/// `x / y`
pub(crate) fn quotient(f: Format, x: u64, y: u64) -> (r: u64)
    requires
        f.valid(x as nat),
        f.valid(y as nat),
    ensures
        r == f.quotient(x as nat, y as nat),
        f.valid(r as nat),
{
    let a: u64 = body(f, x);
    let b: u64 = body(f, y);
    let inf: u64 = infinity(f);
    let s: bool = negative(f, x) != negative(f, y);
    if a > inf || b > inf {
        nan(f)
    } else if a == inf {
        if b == inf {
            nan(f)
        } else {
            signed(f, s, inf)
        }
    } else if b == inf {
        signed(f, s, 0)
    } else if b == 0 {
        if a == 0 {
            nan(f)
        } else {
            signed(f, s, inf)
        }
    } else {
        signed(f, s, quotient_finite(f, a, b))
    }
}

/// The sum of a larger and a smaller magnitude of one sign, or their difference.
///
/// `e1 >= e2` and both operands are given by significand and exponent. The result is
/// the pattern of the magnitude and whether the second operand was the larger.
fn combine(f: Format, q1: u64, e1: u32, q2: u64, e2: u32, subtract: bool) -> (r: (u64, bool))
    requires
        q1 < 2 * f.hidden(),
        q2 < 2 * f.hidden(),
        q1 >= f.hidden() || e1 == 0,
        e2 <= e1 <= 2047,
    ensures
        ({
            let x = q1 as nat * pow2(e1 as nat);
            let y = q2 as nat * pow2(e2 as nat);
            let s = if subtract {
                x - y
            } else {
                (x + y) as int
            };
            &&& r.1 <==> s < 0
            &&& r.0 == f.round((if s < 0 {
                -s
            } else {
                s
            }) as nat, 1)
        }),
        r.0 <= f.inf(),
{
    let ghost x = q1 as nat * pow2(e1 as nat);
    let ghost y = q2 as nat * pow2(e2 as nat);
    let diff: u32 = e1 - e2;
    proof {
        lemma_format_constants(f);
        lemma2_to64();
        lemma2_to64_rest();
        lemma_pow2_pos(e2 as nat);
    }
    if diff <= 70 {
        let w: u128 = power(diff);
        let ghost p2 = pow2(e2 as nat);
        proof {
            lemma_pow2_adds(diff as nat, e2 as nat);
            lemma_pow2_monotone(diff as nat, 70);
            lemma_pow2_adds(63, 7);
            lemma_top();
            lemma_pow2_adds(70, 57);
            assert(q1 * w < 0x20_0000_0000_0000 * pow2(70)) by (nonlinear_arith)
                requires
                    q1 < 0x20_0000_0000_0000,
                    w <= pow2(70),
                    w > 0,
            ;
            assert(x == (q1 * w) * p2) by (nonlinear_arith)
                requires
                    x == q1 * (w * p2),
            ;
        }
        let m1: u128 = (q1 as u128) * w;
        if !subtract {
            proof {
                assert((m1 + q2) * p2 == x + y) by (nonlinear_arith)
                    requires
                        x == m1 * p2,
                        y == q2 * p2,
                ;
            }
            (from_parts(f, m1 + q2 as u128, e2), false)
        } else if m1 >= q2 as u128 {
            proof {
                assert((m1 - q2) * p2 == x - y) by (nonlinear_arith)
                    requires
                        x == m1 * p2,
                        y == q2 * p2,
                ;
                assert((m1 - q2) * p2 >= 0) by (nonlinear_arith)
                    requires
                        m1 >= q2,
                        p2 > 0,
                ;
            }
            (from_parts(f, m1 - q2 as u128, e2), false)
        } else {
            proof {
                assert((q2 - m1) * p2 == y - x) by (nonlinear_arith)
                    requires
                        x == m1 * p2,
                        y == q2 * p2,
                ;
                assert((q2 - m1) * p2 > 0) by (nonlinear_arith)
                    requires
                        m1 < q2,
                        p2 > 0,
                ;
            }
            (from_parts(f, q2 as u128 - m1, e2), true)
        }
    } else {
        // The smaller operand lies below the sixteenth bit past the larger one's last.
        let k: u32 = e1 - 16;
        let m1: u128 = (q1 as u128) * 0x1_0000;
        let ghost pk = pow2(k as nat);
        proof {
            lemma_pow2_adds(16, k as nat);
            assert(x == m1 * pk) by (nonlinear_arith)
                requires
                    x == q1 * (0x1_0000 * pk),
                    m1 == q1 * 0x1_0000,
            ;
            lemma_pow2_adds(54, e2 as nat);
            lemma_pow2_monotone((54 + e2) as nat, k as nat);
            assert(y < pk) by (nonlinear_arith)
                requires
                    y == q2 * pow2(e2 as nat),
                    q2 < 0x20_0000_0000_0000,
                    0x40_0000_0000_0000 * pow2(e2 as nat) <= pk,
                    pow2(e2 as nat) > 0,
            ;
            assert(x >= pk) by (nonlinear_arith)
                requires
                    x == m1 * pk,
                    m1 >= 1,
            ;
            assert(y == 0 <==> q2 == 0) by (nonlinear_arith)
                requires
                    y == q2 * pow2(e2 as nat),
                    pow2(e2 as nat) > 0,
            ;
            assert((m1 + 1) * pk == x + pk) by (nonlinear_arith)
                requires
                    x == m1 * pk,
            ;
            assert((m1 - 1) * pk == x - pk) by (nonlinear_arith)
                requires
                    x == m1 * pk,
            ;
            assert(under(k as int) == 1);
            assert(over(k as int) == pk);
        }
        if q2 == 0 {
            (from_parts(f, m1, k), false)
        } else if !subtract {
            proof {
                let n = x + y;
                assert(n * 1 == n && m1 * pk * 1 == m1 * pk && (m1 + 1) * pk * 1 == (m1 + 1) * pk)
                    by (nonlinear_arith);
                assert(spans(m1 as nat, k as int, true, n, 1));
            }
            (round_parts(f, m1, k as i32, true, Ghost((x + y) as nat), Ghost(1nat)), false)
        } else {
            proof {
                let n = (x - y) as nat;
                assert(n * 1 == n && m1 * pk * 1 == m1 * pk && (m1 - 1) * pk * 1 == (m1 - 1) * pk)
                    by (nonlinear_arith);
                assert(spans((m1 - 1) as nat, k as int, true, n, 1));
            }
            (round_parts(f, m1 - 1, k as i32, true, Ghost((x - y) as nat), Ghost(1nat)), false)
        }
    }
}

/// `x + y`
pub(crate) fn sum(f: Format, x: u64, y: u64) -> (r: u64)
    requires
        f.valid(x as nat),
        f.valid(y as nat),
    ensures
        r == f.sum(x as nat, y as nat),
        f.valid(r as nat),
{
    let a: u64 = body(f, x);
    let b: u64 = body(f, y);
    let inf: u64 = infinity(f);
    let sx: bool = negative(f, x);
    let sy: bool = negative(f, y);
    if a > inf || b > inf {
        return nan(f);
    }
    if a == inf {
        if b == inf && sx != sy {
            return nan(f);
        }
        return x;
    }
    if b == inf {
        return y;
    }
    let (q1, e1) = split(f, a);
    let (q2, e2) = split(f, b);
    let subtract: bool = sx != sy;
    let first_is_low: bool = e1 < e2;
    let (m, flipped) = if first_is_low {
        combine(f, q2, e2, q1, e1, subtract)
    } else {
        combine(f, q1, e1, q2, e2, subtract)
    };
    let ghost vx = f.value(x as nat);
    let ghost vy = f.value(y as nat);
    let ghost s = vx + vy;
    // The sign of the operand that `combine` started from, turned over when the other
    // one was larger.
    let lead: bool = if first_is_low {
        sy
    } else {
        sx
    };
    let sign: bool = lead != flipped;
    if m == 0 {
        proof {
            if s != 0 {
                lemma_round_positive(f, (if s < 0 {
                    -s
                } else {
                    s
                }) as nat);
            }
        }
        signed(f, sx && sy, 0)
    } else {
        proof {
            if s == 0 {
                lemma_round_zero(f, 1);
            }
        }
        signed(f, sign, m)
    }
}

/// What is left of `q1` times two to the `diff` modulo `q2`.
fn modulo_scaled(q1: u64, diff: u32, q2: u64) -> (r: u64)
    requires
        0 < q2 < 0x8000_0000_0000_0000,
    ensures
        r as nat == (q1 as nat * pow2(diff as nat)) % (q2 as nat),
        r < q2,
{
    let mut r: u64 = q1 % q2;
    let mut i: u32 = 0;
    proof {
        lemma2_to64();
        assert(q1 as nat * pow2(0) == q1) by (nonlinear_arith)
            requires
                pow2(0) == 1,
        ;
    }
    while i < diff
        invariant
            i <= diff,
            0 < q2 < 0x8000_0000_0000_0000,
            r < q2,
            r as nat == (q1 as nat * pow2(i as nat)) % (q2 as nat),
        decreases diff - i,
    {
        let ghost x = q1 as nat * pow2(i as nat);
        proof {
            vstd::arithmetic::div_mod::lemma_mul_mod_noop_right(2, x as int, q2 as int);
            lemma_pow2_unfold((i + 1) as nat);
            assert(q1 as nat * pow2((i + 1) as nat) == 2 * x) by (nonlinear_arith)
                requires
                    x == q1 as nat * pow2(i as nat),
                    pow2((i + 1) as nat) == 2 * pow2(i as nat),
            ;
        }
        r = (2 * r) % q2;
        i = i + 1;
    }
    r
}

/// The remainder of one finite magnitude by another.
fn remainder_finite(f: Format, a: u64, b: u64) -> (r: u64)
    requires
        a < f.inf(),
        0 < b < f.inf(),
    ensures
        r == f.round(f.mag(a as nat) % f.mag(b as nat), 1),
        r <= f.inf(),
{
    proof {
        lemma_format_constants(f);
        lemma_mag_order(f, a as nat, b as nat);
        lemma_mag_order(f, 0, b as nat);
    }
    if a < b {
        proof {
            vstd::arithmetic::div_mod::lemma_small_mod(f.mag(a as nat), f.mag(b as nat));
            lemma_round_exact(f, a as nat, 1);
            assert(f.mag(a as nat) * 1 == f.mag(a as nat)) by (nonlinear_arith);
        }
        return a;
    }
    let (q1, e1) = split(f, a);
    let (q2, e2) = split(f, b);
    assert(e2 <= e1) by {
        if e1 < e2 {
            let h = f.hidden();
            assert(e2 * h >= e1 * h + h) by (nonlinear_arith)
                requires
                    e2 >= e1 + 1,
            ;
        }
    }
    let r: u64 = modulo_scaled(q1, e1 - e2, q2);
    proof {
        let diff = (e1 - e2) as nat;
        let x = q1 as nat * pow2(diff);
        let p2 = pow2(e2 as nat);
        lemma_pow2_pos(e2 as nat);
        lemma_pow2_adds(diff, e2 as nat);
        assert(f.mag(a as nat) == p2 * x) by (nonlinear_arith)
            requires
                f.mag(a as nat) == q1 as nat * pow2(e1 as nat),
                pow2(diff) * p2 == pow2(e1 as nat),
                x == q1 as nat * pow2(diff),
        ;
        assert(f.mag(b as nat) == p2 * (q2 as nat)) by (nonlinear_arith)
            requires
                f.mag(b as nat) == q2 as nat * p2,
        ;
        vstd::arithmetic::div_mod::lemma_truncate_middle(x as int, p2 as int, q2 as int);
        assert(p2 * (r as nat) == r as nat * p2) by (nonlinear_arith);
    }
    from_parts(f, r as u128, e2)
}

/// `x % y`
pub(crate) fn remainder(f: Format, x: u64, y: u64) -> (r: u64)
    requires
        f.valid(x as nat),
        f.valid(y as nat),
    ensures
        r == f.remainder(x as nat, y as nat),
        f.valid(r as nat),
{
    let a: u64 = body(f, x);
    let b: u64 = body(f, y);
    let inf: u64 = infinity(f);
    if a > inf || b > inf || a == inf || b == 0 {
        nan(f)
    } else if b == inf {
        x
    } else {
        signed(f, negative(f, x), remainder_finite(f, a, b))
    }
}

/// `-x`
pub(crate) fn opposite(f: Format, x: u64) -> (r: u64)
    requires
        f.valid(x as nat),
    ensures
        r == f.opposite(x as nat),
        f.valid(r as nat),
{
    signed(f, !negative(f, x), body(f, x))
}

/// `x - y`
pub(crate) fn difference(f: Format, x: u64, y: u64) -> (r: u64)
    requires
        f.valid(x as nat),
        f.valid(y as nat),
    ensures
        r == f.difference(x as nat, y as nat),
        f.valid(r as nat),
{
    let z: u64 = opposite(f, y);
    sum(f, x, z)
}

/// `x < y`
pub(crate) fn less(f: Format, x: u64, y: u64) -> (r: bool)
    ensures
        r == f.less(x as nat, y as nat),
{
    let a: u64 = body(f, x);
    let b: u64 = body(f, y);
    let inf: u64 = infinity(f);
    proof {
        lemma_mag_order(f, a as nat, b as nat);
        lemma_mag_order(f, 0, a as nat);
        lemma_mag_order(f, 0, b as nat);
        lemma_mag_zero(f);
    }
    if a > inf || b > inf {
        return false;
    }
    if negative(f, x) {
        if negative(f, y) {
            b < a
        } else {
            a > 0 || b > 0
        }
    } else if negative(f, y) {
        false
    } else {
        a < b
    }
}

/// `x == y`
pub(crate) fn equal(f: Format, x: u64, y: u64) -> (r: bool)
    ensures
        r == f.equal(x as nat, y as nat),
{
    let a: u64 = body(f, x);
    let b: u64 = body(f, y);
    let inf: u64 = infinity(f);
    proof {
        lemma_mag_order(f, a as nat, b as nat);
        lemma_mag_order(f, 0, a as nat);
        lemma_mag_order(f, 0, b as nat);
        lemma_mag_zero(f);
    }
    a <= inf && b <= inf && a == b && (a == 0 || negative(f, x) == negative(f, y))
}

/// `x <= y`
pub(crate) fn at_most(f: Format, x: u64, y: u64) -> (r: bool)
    ensures
        r == f.at_most(x as nat, y as nat),
{
    less(f, x, y) || equal(f, x, y)
}

/// The whole ones in a finite magnitude below two to the precision ones, whether
/// anything is left over, and whether that is at least a half.
fn whole_part(f: Format, q: u64, e: u32) -> (r: (u64, bool, bool))
    requires
        q < 2 * f.hidden(),
        e < f.unit_exponent(),
    ensures
        ({
            let m = q as nat * pow2(e as nat);
            &&& r.0 as nat == m / f.one()
            &&& r.1 <==> m % f.one() != 0
            &&& r.2 <==> 2 * (m % f.one()) >= f.one()
        }),
        r.0 <= q,
{
    let sh: u32 = unit_exponent(f) - e;
    let ghost m = q as nat * pow2(e as nat);
    let ghost pe = pow2(e as nat);
    let ghost ps = pow2(sh as nat);
    proof {
        lemma_pow2_adds(e as nat, sh as nat);
        lemma_pow2_pos(e as nat);
        lemma_pow2_pos(sh as nat);
        lemma2_to64();
        lemma2_to64_rest();
        vstd::arithmetic::div_mod::lemma_truncate_middle(q as int, pe as int, ps as int);
        assert(pe * (q as nat) == m) by (nonlinear_arith)
            requires
                m == q as nat * pe,
        ;
        vstd::arithmetic::div_mod::lemma_div_multiples_vanish_quotient(
            pe as int,
            q as int,
            ps as int,
        );
        let rest = q as nat % ps;
        assert(m % f.one() == pe * rest);
        assert(m / f.one() == q as nat / ps);
        assert(pe * rest != 0 <==> rest != 0) by (nonlinear_arith)
            requires
                pe > 0,
        ;
        assert(2 * (pe * rest) >= pe * ps <==> 2 * rest >= ps) by (nonlinear_arith)
            requires
                pe > 0,
        ;
    }
    if sh > 64 {
        proof {
            lemma_pow2_monotone(64, sh as nat);
            vstd::arithmetic::div_mod::lemma_small_mod(q as nat, ps);
            vstd::arithmetic::div_mod::lemma_basic_div(q as int, ps as int);
        }
        (0, q != 0, false)
    } else {
        let w: u128 = power(sh);
        let whole: u128 = (q as u128) / w;
        let rest: u128 = (q as u128) % w;
        proof {
            assert(whole <= q) by (nonlinear_arith)
                requires
                    whole == q as u128 / w,
                    w >= 1,
            ;
        }
        (whole as u64, rest != 0, rest >= w - rest)
    }
}

/// A magnitude whose exponent is at least that of one is a whole number of ones.
pub(crate) proof fn lemma_high_is_whole(f: Format, q: nat, e: nat)
    requires
        e >= f.unit_exponent(),
    ensures
        (q * pow2(e)) % f.one() == 0,
        (q * pow2(e)) / f.one() == q * pow2((e - f.unit_exponent()) as nat),
        ((q * pow2(e)) / f.one()) * f.one() == q * pow2(e),
{
    let up = (e - f.unit_exponent()) as nat;
    lemma_pow2_adds(up, f.unit_exponent());
    lemma_pow2_pos(f.unit_exponent());
    let k = q * pow2(up);
    assert(q * pow2(e) == k * f.one()) by (nonlinear_arith)
        requires
            k == q * pow2(up),
            pow2(up) * f.one() == pow2(e),
    ;
    vstd::arithmetic::div_mod::lemma_mod_multiples_basic(k as int, f.one() as int);
    vstd::arithmetic::div_mod::lemma_div_by_multiple(k as int, f.one() as int);
}

/// Zero has no magnitude.
pub(crate) proof fn lemma_mag_zero(f: Format)
    ensures
        f.mag(0) == 0,
{
    reveal(Format::mag);
    lemma_format_constants(f);
}

/// The largest whole number that is not above `x`.
pub(crate) fn floor(f: Format, x: u64) -> (r: u64)
    requires
        f.valid(x as nat),
    ensures
        r == f.floor(x as nat),
        f.valid(r as nat),
{
    let b: u64 = body(f, x);
    if b >= infinity(f) {
        return x;
    }
    let s: bool = negative(f, x);
    let (q, e) = split(f, b);
    let ghost m = f.mag(b as nat);
    let ghost one = f.one();
    proof {
        lemma_pow2_pos(f.unit_exponent());
        lemma_negative_floor(m, one);
    }
    if e >= unit_exponent(f) {
        proof {
            lemma_high_is_whole(f, q as nat, e as nat);
            lemma_round_exact(f, b as nat, 1);
            assert(m * 1 == m) by (nonlinear_arith);
        }
        x
    } else {
        let (whole, part, _half) = whole_part(f, q, e);
        let k: u64 = if s && part {
            whole + 1
        } else {
            whole
        };
        signed(f, s, from_parts(f, k as u128, unit_exponent(f)))
    }
}

/// The floor of a negated quotient.
pub(crate) proof fn lemma_negative_floor(m: nat, one: nat)
    requires
        one > 0,
    ensures
        m as int / one as int >= 0,
        (-(m as int)) / (one as int) == -((m / one) as int) - (if m % one == 0 {
            0int
        } else {
            1int
        }),
{
    vstd::arithmetic::div_mod::lemma_fundamental_div_mod(m as int, one as int);
    let k = (m / one) as int;
    let r = (m % one) as int;
    vstd::arithmetic::div_mod::lemma_div_pos_is_pos(m as int, one as int);
    if r == 0 {
        assert(-(m as int) == (-k) * one) by (nonlinear_arith)
            requires
                m == one * k,
        ;
        vstd::arithmetic::div_mod::lemma_fundamental_div_mod_converse(
            -(m as int),
            one as int,
            -k,
            0,
        );
    } else {
        assert(-(m as int) == (-k - 1) * one + (one - r)) by (nonlinear_arith)
            requires
                m == one * k + r,
        ;
        vstd::arithmetic::div_mod::lemma_fundamental_div_mod_converse(
            -(m as int),
            one as int,
            -k - 1,
            one - r,
        );
    }
}

/// The smallest whole number that is not below `x`.
pub(crate) fn ceil(f: Format, x: u64) -> (r: u64)
    requires
        f.valid(x as nat),
    ensures
        r == f.ceil(x as nat),
        f.valid(r as nat),
{
    opposite(f, floor(f, opposite(f, x)))
}

/// The whole number nearest to `x`, halves going away from zero.
pub(crate) fn nearest_whole(f: Format, x: u64) -> (r: u64)
    requires
        f.valid(x as nat),
    ensures
        r == f.nearest_whole(x as nat),
        f.valid(r as nat),
{
    let b: u64 = body(f, x);
    if b >= infinity(f) {
        return x;
    }
    let s: bool = negative(f, x);
    let (q, e) = split(f, b);
    let ghost m = f.mag(b as nat);
    let ghost one = f.one();
    proof {
        lemma_pow2_pos(f.unit_exponent());
        let k = m / one;
        let r = m % one;
        vstd::arithmetic::div_mod::lemma_fundamental_div_mod(m as int, one as int);
        if 2 * r >= one {
            assert(2 * m + one == (k + 1) * (2 * one) + (2 * r - one)) by (nonlinear_arith)
                requires
                    m == one * k + r,
            ;
            vstd::arithmetic::div_mod::lemma_fundamental_div_mod_converse(
                (2 * m + one) as int,
                (2 * one) as int,
                (k + 1) as int,
                2 * r - one,
            );
        } else {
            assert(2 * m + one == k * (2 * one) + (2 * r + one)) by (nonlinear_arith)
                requires
                    m == one * k + r,
            ;
            vstd::arithmetic::div_mod::lemma_fundamental_div_mod_converse(
                (2 * m + one) as int,
                (2 * one) as int,
                k as int,
                (2 * r + one) as int,
            );
        }
    }
    if e >= unit_exponent(f) {
        proof {
            lemma_high_is_whole(f, q as nat, e as nat);
            lemma_round_exact(f, b as nat, 1);
            assert(m * 1 == m) by (nonlinear_arith);
        }
        x
    } else {
        let (whole, _part, half) = whole_part(f, q, e);
        let k: u64 = if half {
            whole + 1
        } else {
            whole
        };
        signed(f, s, from_parts(f, k as u128, unit_exponent(f)))
    }
}

/// Whether `x` is finite and has no fractional part.
pub(crate) fn is_integral(f: Format, x: u64) -> (r: bool)
    requires
        f.valid(x as nat),
    ensures
        r == f.is_integral(x as nat),
{
    let b: u64 = body(f, x);
    if b >= infinity(f) {
        return false;
    }
    let (q, e) = split(f, b);
    if e >= unit_exponent(f) {
        proof {
            lemma_high_is_whole(f, q as nat, e as nat);
        }
        true
    } else {
        let (_whole, part, _half) = whole_part(f, q, e);
        !part
    }
}

/// The whole part of `x`, saturating at zero and at `most`.
pub(crate) fn to_unsigned(f: Format, x: u64, most: u64) -> (r: u64)
    requires
        f.valid(x as nat),
    ensures
        r == f.to_unsigned(x as nat, most as nat),
{
    let b: u64 = body(f, x);
    let inf: u64 = infinity(f);
    if b > inf || negative(f, x) {
        return 0;
    }
    if b == inf {
        return most;
    }
    let (q, e) = split(f, b);
    let u: u32 = unit_exponent(f);
    if e >= u {
        proof {
            lemma_high_is_whole(f, q as nat, e as nat);
            lemma_format_constants(f);
            lemma2_to64();
            lemma2_to64_rest();
        }
        let up: u32 = e - u;
        if up >= 64 {
            proof {
                lemma_pow2_monotone(64, up as nat);
                assert(q as nat * pow2(up as nat) > most) by (nonlinear_arith)
                    requires
                        q >= 1,
                        pow2(up as nat) > most,
                ;
            }
            return most;
        }
        let w: u128 = power(up);
        proof {
            lemma_pow2_monotone(up as nat, 64);
            assert(q * w < 0x20_0000_0000_0000 * 0x1_0000_0000_0000_0000) by (nonlinear_arith)
                requires
                    q < 0x20_0000_0000_0000,
                    w <= 0x1_0000_0000_0000_0000,
                    w > 0,
            ;
        }
        let v: u128 = (q as u128) * w;
        if v > most as u128 {
            most
        } else {
            v as u64
        }
    } else {
        let (whole, _part, _half) = whole_part(f, q, e);
        if whole > most {
            most
        } else {
            whole
        }
    }
}

/// The pattern of a whole number.
pub(crate) fn from_unsigned(f: Format, k: u64) -> (r: u64)
    ensures
        r == f.whole(false, k as nat),
        f.valid(r as nat),
{
    proof {
        lemma_format_constants(f);
        lemma_top();
        lemma_pow2_monotone(64, 127);
    }
    signed(f, false, from_parts(f, k as u128, unit_exponent(f)))
}

/// A single-precision pattern as a double-precision one.
pub(crate) fn widened(x: u64) -> (r: u64)
    requires
        Format::Single.valid(x as nat),
    ensures
        r == super::ops::widened(x as nat),
        Format::Double.valid(r as nat),
{
    let b: u64 = body(Format::Single, x);
    let s: bool = negative(Format::Single, x);
    let inf: u64 = infinity(Format::Single);
    if b > inf {
        nan(Format::Double)
    } else if b == inf {
        signed(Format::Double, s, infinity(Format::Double))
    } else {
        let (q, e) = split(Format::Single, b);
        proof {
            lemma_pow2_adds(e as nat, 925);
            assert(q as nat * pow2((e + 925) as nat) == (q as nat * pow2(e as nat)) * pow2(925))
                by (nonlinear_arith)
                requires
                    pow2((e + 925) as nat) == pow2(e as nat) * pow2(925),
            ;
            lemma_top();
            lemma_pow2_monotone(64, 127);
        }
        signed(Format::Double, s, from_parts(Format::Double, q as u128, e + 925))
    }
}

/// A double-precision pattern rounded to single precision.
pub(crate) fn narrowed(x: u64) -> (r: u64)
    requires
        Format::Double.valid(x as nat),
    ensures
        r == super::ops::narrowed(x as nat),
        Format::Single.valid(r as nat),
{
    let b: u64 = body(Format::Double, x);
    let s: bool = negative(Format::Double, x);
    let inf: u64 = infinity(Format::Double);
    if b > inf {
        return nan(Format::Single);
    }
    if b == inf {
        return signed(Format::Single, s, infinity(Format::Single));
    }
    let (q, e) = split(Format::Double, b);
    let ghost n = Format::Double.mag(b as nat);
    let ghost d = pow2(925);
    proof {
        lemma_pow2_pos(925);
        lemma_format_constants(Format::Single);
    }
    if q == 0 {
        proof {
            lemma_mag_zero(Format::Double);
            lemma_round_zero(Format::Single, d);
        }
        return signed(Format::Single, s, 0);
    }
    let k: i32 = e as i32 - 925;
    proof {
        lemma2_to64();
        let a1 = over(k as int);
        let c1 = under(k as int);
        let pe = pow2(e as nat);
        assert(a1 * d == pe * c1) by {
            if k >= 0 {
                lemma_pow2_adds(k as nat, 925);
                assert(pe * 1 == pe) by (nonlinear_arith);
            } else {
                lemma_pow2_adds(e as nat, (-k) as nat);
                assert(1 * d == d) by (nonlinear_arith);
            }
        }
        assert(q * a1 * d == n * c1) by (nonlinear_arith)
            requires
                n == q * pe,
                a1 * d == pe * c1,
        ;
        lemma_pow2_pos((if k >= 0 {
            k
        } else {
            0
        }) as nat);
        assert((q + 1) * a1 * d > q * a1 * d) by (nonlinear_arith)
            requires
                a1 > 0,
                d > 0,
        ;
        lemma_top();
        lemma_pow2_monotone(64, 127);
    }
    let m: u64 = round_parts(Format::Single, q as u128, k, false, Ghost(n), Ghost(d));
    signed(Format::Single, s, m)
}

} // verus!
