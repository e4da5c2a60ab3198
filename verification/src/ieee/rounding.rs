//! Rounding of an exactly known quotient to the nearest pattern.

use super::model::{
    lemma_format_constants, lemma_nearest_from_parts, lemma_round_is, Format,
};
use vstd::arithmetic::power2::{
    lemma2_to64, lemma2_to64_rest, lemma_pow2_adds, lemma_pow2_pos, lemma_pow2_strictly_increases,
    lemma_pow2_unfold, pow2,
};
use vstd::prelude::*;

verus! {

/// Two to the 127.
pub(crate) const TOP: u128 = 0x8000_0000_0000_0000_0000_0000_0000_0000;

pub(crate) proof fn lemma_top()
    ensures
        TOP == pow2(127),
{
    lemma2_to64();
    lemma2_to64_rest();
    lemma_pow2_adds(63, 64);
}

/// `pow2` is monotone.
pub(crate) proof fn lemma_pow2_monotone(a: nat, b: nat)
    requires
        a <= b,
    ensures
        pow2(a) <= pow2(b),
{
    if a < b {
        lemma_pow2_strictly_increases(a, b);
    }
}

/// Two to the `t`.
pub(crate) fn power(t: u32) -> (r: u128)
    requires
        t <= 127,
    ensures
        r == pow2(t as nat),
        r <= TOP,
        r >= 1,
{
    let s: u128 = (127 - t) as u128;
    proof {
        vstd::bits::lemma_u128_shr_is_div(TOP, s);
        lemma_top();
        lemma_pow2_adds(t as nat, s as nat);
        lemma_pow2_pos(s as nat);
        vstd::arithmetic::div_mod::lemma_div_multiples_vanish(
            pow2(t as nat) as int,
            pow2(s as nat) as int,
        );
        assert(pow2(s as nat) * pow2(t as nat) == pow2(127)) by (nonlinear_arith)
            requires
                pow2(t as nat) * pow2(s as nat) == pow2(127),
        ;
        lemma_pow2_pos(t as nat);
        lemma_pow2_monotone(t as nat, 127);
    }
    TOP >> s
}

/// The number of bits of `m`.
pub(crate) fn bit_length(m: u128) -> (r: u32)
    requires
        m > 0,
    ensures
        1 <= r <= 128,
        pow2((r - 1) as nat) <= m < pow2(r as nat),
        m < TOP ==> r <= 127,
{
    let mut x: u128 = m;
    let mut low: u32 = 0;
    let mut s: u32 = 64;
    proof {
        lemma2_to64();
        lemma2_to64_rest();
        lemma_pow2_adds(64, 64);
    }
    while s > 0
        invariant
            s == 64 || s == 32 || s == 16 || s == 8 || s == 4 || s == 2 || s == 1 || s == 0,
            0 < x < pow2((if s == 0 {
                1
            } else {
                2 * s
            }) as nat),
            low + (if s == 0 {
                1
            } else {
                2 * s
            }) <= 128,
            x * pow2(low as nat) <= m < (x + 1) * pow2(low as nat),
        decreases s,
    {
        let w: u128 = power(s);
        let ghost wide = w as nat;
        if x >= w {
            let y: u128 = x / w;
            proof {
                lemma_pow2_adds(s as nat, s as nat);
                lemma_pow2_adds(s as nat, low as nat);
                let p = pow2(low as nat);
                assert(p * wide == pow2((low + s) as nat)) by (nonlinear_arith)
                    requires
                        wide * p == pow2((low + s) as nat),
                ;
                assert(y > 0 && y < wide && y * wide <= x && x + 1 <= (y + 1) * wide)
                    by (nonlinear_arith)
                    requires
                        y == x / w,
                        w == wide,
                        wide > 0,
                        wide <= x < wide * wide,
                ;
                assert(y * (p * wide) <= x * p) by (nonlinear_arith)
                    requires
                        y * wide <= x,
                ;
                assert((x + 1) * p <= (y + 1) * (p * wide)) by (nonlinear_arith)
                    requires
                        x + 1 <= (y + 1) * wide,
                ;
            }
            x = y;
            low = low + s;
        }
        s = s / 2;
    }
    proof {
        assert(x == 1);
        assert(1 * pow2(low as nat) == pow2(low as nat)) by (nonlinear_arith);
        lemma_pow2_unfold((low + 1) as nat);
        assert((1 + 1) * pow2(low as nat) == pow2((low + 1) as nat)) by (nonlinear_arith)
            requires
                pow2((low + 1) as nat) == 2 * pow2(low as nat),
        ;
        lemma_top();
        if m < TOP && low >= 127 {
            lemma_pow2_monotone(127, low as nat);
        }
    }
    low + 1
}

/// What `k` contributes to the numerator.
pub(crate) open spec fn over(k: int) -> nat {
    pow2((if k >= 0 {
        k
    } else {
        0
    }) as nat)
}

/// What `k` contributes to the denominator.
pub(crate) open spec fn under(k: int) -> nat {
    pow2((if k >= 0 {
        0
    } else {
        -k
    }) as nat)
}

/// `n / d` lies in `[m, m + 1)` times two to the `k`, at the lower end exactly when
/// nothing was lost.
pub(crate) open spec fn spans(m: nat, k: int, lost: bool, n: nat, d: nat) -> bool {
    &&& m * over(k) * d <= n * under(k)
    &&& n * under(k) < (m + 1) * over(k) * d
    &&& lost <==> n * under(k) != m * over(k) * d
}

/// Arithmetic behind discarding the `t` low bits of `m`.
proof fn lemma_discard(m: nat, k: int, lost: bool, t: nat, n: nat, d: nat)
    requires
        d > 0,
        t > 0,
        k + t >= 0,
        spans(m, k, lost, n, d),
    ensures
        ({
            let w = pow2(t);
            let q = m / w;
            let r = m % w;
            let half = pow2((t - 1) as nat);
            let u = pow2((k + t) as nat);
            &&& q * u * d <= n < (q + 1) * u * d
            &&& (r > half || (r == half && lost)) ==> 2 * n > (2 * q + 1) * u * d
            &&& (r == half && !lost) ==> 2 * n == (2 * q + 1) * u * d
            &&& r < half ==> 2 * n < (2 * q + 1) * u * d
        }),
{
    let w = pow2(t);
    let q = m / w;
    let r = m % w;
    let half = pow2((t - 1) as nat);
    let u = pow2((k + t) as nat);
    let a = over(k);
    let c = under(k);
    lemma_pow2_pos(t);
    lemma_pow2_pos((if k >= 0 {
        0
    } else {
        -k
    }) as nat);
    lemma_pow2_pos((if k >= 0 {
        k
    } else {
        0
    }) as nat);
    lemma_pow2_unfold(t);
    vstd::arithmetic::div_mod::lemma_fundamental_div_mod(m as int, w as int);
    lemma2_to64();
    assert(u * c == a * w) by {
        if k >= 0 {
            lemma_pow2_adds(k as nat, t);
            assert(u * 1 == u) by (nonlinear_arith);
        } else {
            lemma_pow2_adds((k + t) as nat, (-k) as nat);
            assert(1 * w == w) by (nonlinear_arith);
        }
    }
    let ad = a * d;
    assert(m == q * w + r) by (nonlinear_arith)
        requires
            m == w * q + r,
    ;
    // Everything below compares after multiplying through by `c`.
    assert(m * a * d == m * ad) by (nonlinear_arith)
        requires
            ad == a * d,
    ;
    assert((m + 1) * a * d == (m + 1) * ad) by (nonlinear_arith)
        requires
            ad == a * d,
    ;
    assert(ad > 0) by (nonlinear_arith)
        requires
            ad == a * d,
            a > 0,
            d > 0,
    ;
    let nc = n * c;
    assert(q * u * d * c == (q * w) * ad) by (nonlinear_arith)
        requires
            u * c == a * w,
            ad == a * d,
    ;
    assert((q + 1) * u * d * c == ((q + 1) * w) * ad) by (nonlinear_arith)
        requires
            u * c == a * w,
            ad == a * d,
    ;
    assert((2 * q + 1) * u * d * c == ((2 * q + 1) * w) * ad) by (nonlinear_arith)
        requires
            u * c == a * w,
            ad == a * d,
    ;
    assert((q + 1) * w == q * w + w) by (nonlinear_arith);
    assert((2 * q + 1) * w == 2 * (q * w) + w) by (nonlinear_arith);
    assert((q * w) * ad <= m * ad) by (nonlinear_arith)
        requires
            m == q * w + r,
    ;
    assert((m + 1) * ad <= ((q + 1) * w) * ad) by (nonlinear_arith)
        requires
            m + 1 <= (q + 1) * w,
    ;
    assert(q * u * d * c <= n * c);
    assert(q * u * d <= n) by (nonlinear_arith)
        requires
            q * u * d * c <= n * c,
            c > 0,
    ;
    assert(n < (q + 1) * u * d) by (nonlinear_arith)
        requires
            n * c < (q + 1) * u * d * c,
            c > 0,
    ;
    let mid = (2 * q + 1) * u * d;
    let midw = (2 * q + 1) * w;
    if r > half {
        assert(midw * ad < (2 * m) * ad) by (nonlinear_arith)
            requires
                midw < 2 * m,
                ad > 0,
        ;
        assert((2 * m) * ad == 2 * (m * ad)) by (nonlinear_arith);
    }
    if r == half {
        assert(midw == 2 * m);
        assert((2 * m) * ad == 2 * (m * ad)) by (nonlinear_arith);
    }
    if r < half {
        assert((2 * (m + 1)) * ad <= midw * ad) by (nonlinear_arith)
            requires
                2 * (m + 1) <= midw,
        ;
        assert((2 * (m + 1)) * ad == 2 * ((m + 1) * ad)) by (nonlinear_arith);
    }
    assert(2 * nc > mid * c ==> 2 * n > mid) by (nonlinear_arith)
        requires
            nc == n * c,
            c > 0,
    ;
    assert(2 * nc < mid * c ==> 2 * n < mid) by (nonlinear_arith)
        requires
            nc == n * c,
            c > 0,
    ;
    assert(2 * nc == mid * c ==> 2 * n == mid) by (nonlinear_arith)
        requires
            nc == n * c,
            c > 0,
    ;
}

/// Precision of the format.
pub(crate) fn precision(f: Format) -> (r: u32)
    ensures
        r == f.precision(),
{
    match f {
        Format::Single => 24,
        Format::Double => 53,
    }
}

/// Smallest normal significand of the format.
pub(crate) fn hidden(f: Format) -> (r: u64)
    ensures
        r == f.hidden(),
{
    match f {
        Format::Single => 0x80_0000,
        Format::Double => 0x10_0000_0000_0000,
    }
}

/// The pattern of infinity.
pub(crate) fn infinity(f: Format) -> (r: u64)
    ensures
        r == f.inf(),
{
    match f {
        Format::Single => 0x7f80_0000,
        Format::Double => 0x7ff0_0000_0000_0000,
    }
}

/// Assembles exponent, significand and carry, saturating at infinity.
fn assemble(f: Format, q: u64, e: u32, up: bool) -> (b: u64)
    requires
        q < 2 * f.hidden(),
        e <= 9000,
    ensures
        ({
            let b0 = e as nat * f.hidden() + q as nat + (if up {
                1nat
            } else {
                0nat
            });
            b as nat == (if b0 > f.inf() {
                f.inf()
            } else {
                b0
            })
        }),
{
    let h: u64 = hidden(f);
    let inf: u64 = infinity(f);
    assert(e * h <= 9000 * 0x10_0000_0000_0000) by (nonlinear_arith)
        requires
            e <= 9000,
            h <= 0x10_0000_0000_0000,
    ;
    let wide: u128 = (e as u128) * (h as u128) + (q as u128) + (if up {
        1u128
    } else {
        0u128
    });
    if wide > inf as u128 {
        inf
    } else {
        wide as u64
    }
}

/// Rounds `n / d` units, known to lie in `[m, m + 1)` times two to the `k`.
pub(crate) fn round_parts(
    f: Format,
    m: u128,
    k: i32,
    lost: bool,
    Ghost(n): Ghost<nat>,
    Ghost(d): Ghost<nat>,
) -> (b: u64)
    requires
        d > 0,
        0 < m < TOP,
        -8000 <= k <= 8000,
        lost ==> m >= 2 * f.hidden(),
        spans(m as nat, k as int, lost, n, d),
    ensures
        b == f.round(n, d),
        b <= f.inf(),
{
    let p: u32 = precision(f);
    let len: u32 = bit_length(m);
    let by_len: i32 = len as i32 - p as i32;
    let by_unit: i32 = -k;
    let t: i32 = if by_len > by_unit {
        by_len
    } else {
        by_unit
    };
    proof {
        lemma_format_constants(f);
        lemma_top();
        lemma_pow2_unfold(f.precision());
    }
    let ghost h = f.hidden();
    assert(pow2(f.precision()) == 2 * h);
    if t <= 0 {
        // Every bit fits: move the significand up as far as the exponent allows.
        let room: u32 = (p as i32 - len as i32) as u32;
        let s: u32 = if room < k as u32 {
            room
        } else {
            k as u32
        };
        let e: u32 = k as u32 - s;
        let w: u128 = power(s);
        proof {
            lemma_pow2_adds(s as nat, (len - 1) as nat);
            lemma_pow2_adds(s as nat, len as nat);
            lemma_pow2_monotone((s + len) as nat, f.precision());
            let ws = w as nat;
            assert(m * ws < pow2((s + len) as nat)) by (nonlinear_arith)
                requires
                    m < pow2(len as nat),
                    ws * pow2(len as nat) == pow2((s + len) as nat),
                    ws > 0,
            ;
            assert(m * ws >= pow2((s + len - 1) as nat)) by (nonlinear_arith)
                requires
                    m >= pow2((len - 1) as nat),
                    ws * pow2((len - 1) as nat) == pow2((s + len - 1) as nat),
            ;
            assert(m * ws < 2 * h);
            if s == room {
                assert(m * ws >= h);
            } else {
                assert(e == 0);
            }
            assert(!lost) by {
                if lost {
                    lemma_pow2_monotone(len as nat, f.precision());
                }
            }
            lemma2_to64();
            lemma_pow2_adds(s as nat, e as nat);
            let q = (m * ws) as nat;
            let u = pow2(e as nat);
            assert(m * pow2(k as nat) * d == n) by {
                assert(n * 1 == n) by (nonlinear_arith);
            }
            assert(q * u * d == n) by (nonlinear_arith)
                requires
                    m * pow2(k as nat) * d == n,
                    q == m * ws,
                    ws * u == pow2(k as nat),
            ;
            lemma_pow2_pos(e as nat);
            assert(n < (q + 1) * u * d) by (nonlinear_arith)
                requires
                    q * u * d == n,
                    u > 0,
                    d > 0,
            ;
            assert(2 * n < (2 * q + 1) * u * d) by (nonlinear_arith)
                requires
                    q * u * d == n,
                    u > 0,
                    d > 0,
            ;
            lemma_nearest_from_parts(f, q, e as nat, false, n, d);
        }
        let q: u64 = (m * w) as u64;
        let b: u64 = assemble(f, q, e, false);
        proof {
            lemma_round_is(f, b as nat, n, d);
        }
        b
    } else if t > 127 {
        // The magnitude is below half a unit.
        proof {
            let ghost tn = t as nat;
            lemma_discard(m as nat, k as int, lost, tn, n, d);
            lemma_pow2_monotone(127, (tn - 1) as nat);
            lemma_pow2_monotone(127, tn);
            vstd::arithmetic::div_mod::lemma_small_mod(m as nat, pow2(tn));
            vstd::arithmetic::div_mod::lemma_basic_div(m as int, pow2(tn) as int);
            assert(k + t == 0);
            lemma_nearest_from_parts(f, 0, 0, false, n, d);
            assert(0nat * f.hidden() == 0) by (nonlinear_arith);
            lemma_round_is(f, 0, n, d);
        }
        0
    } else {
        let w: u128 = power(t as u32);
        let half: u128 = power((t - 1) as u32);
        let q: u128 = m / w;
        let r: u128 = m % w;
        let up: bool = r > half || (r == half && (lost || q % 2 == 1));
        let e: u32 = (k + t) as u32;
        proof {
            let tn = t as nat;
            lemma_discard(m as nat, k as int, lost, tn, n, d);
            vstd::arithmetic::div_mod::lemma_fundamental_div_mod(m as int, w as int);
            // The quotient has at most `precision` bits, and exactly that many where
            // the length decided.
            assert(q < 2 * h) by {
                assert(len - t <= p);
                if len as int - t >= 0 {
                    lemma_pow2_adds(tn, (len - t) as nat);
                    lemma_pow2_monotone((len - t) as nat, p as nat);
                    let y = pow2((len - t) as nat);
                    assert(q < y) by (nonlinear_arith)
                        requires
                            m < w * y,
                            m >= w * q,
                            w > 0,
                    ;
                } else {
                    lemma_pow2_monotone(len as nat, tn);
                    assert(q < 1) by (nonlinear_arith)
                        requires
                            m < w,
                            m >= w * q,
                            w > 0,
                    ;
                }
            }
            if e > 0 {
                assert(t == by_len);
                lemma_pow2_adds(tn, (p - 1) as nat);
                assert(w * (q + 1) == w * q + w) by (nonlinear_arith);
                assert(q >= h) by (nonlinear_arith)
                    requires
                        m >= w * h,
                        m < w * (q + 1),
                        w > 0,
                ;
            }
            lemma_nearest_from_parts(f, q as nat, e as nat, up, n, d);
        }
        let b: u64 = assemble(f, q as u64, e, up);
        proof {
            lemma_round_is(f, b as nat, n, d);
        }
        b
    }
}

} // verus!
