//! The mathematical model of the two binary interchange formats.
//!
//! Stripped of its sign, a floating-point datum is a natural number: the exponent
//! field followed by the fraction field. Those numbers, read in order, enumerate the
//! representable magnitudes in increasing order, so "the next float up" is the next
//! natural number and "ties to even" is evenness of that number. Magnitudes are
//! measured in the smallest positive subnormal of the format, which makes every
//! representable magnitude a natural number as well.

use vstd::arithmetic::power2::pow2;
use vstd::prelude::*;

verus! {

/// A binary interchange format.
#[derive(Clone, Copy, Debug, PartialEq, Eq, Structural)]
pub enum Format {
    /// 32 bits: 24 bits of precision.
    Single,
    /// 64 bits: 53 bits of precision.
    Double,
}

impl Format {
    /// Number of bits in a normal significand, the leading one included.
    pub open spec fn precision(self) -> nat {
        match self {
            Format::Single => 24,
            Format::Double => 53,
        }
    }

    /// The smallest significand of a normal number: two to the `precision - 1`.
    pub open spec fn hidden(self) -> nat {
        match self {
            Format::Single => 0x80_0000,
            Format::Double => 0x10_0000_0000_0000,
        }
    }

    /// The unsigned pattern of infinity; every finite pattern lies below it and every
    /// NaN above it.
    pub open spec fn inf(self) -> nat {
        match self {
            Format::Single => 0x7f80_0000,
            Format::Double => 0x7ff0_0000_0000_0000,
        }
    }

    /// The sign bit.
    pub open spec fn sign_bit(self) -> nat {
        match self {
            Format::Single => 0x8000_0000,
            Format::Double => 0x8000_0000_0000_0000,
        }
    }

    /// Number of units (smallest subnormals) in one, as a power of two.
    pub open spec fn unit_exponent(self) -> nat {
        match self {
            Format::Single => 149,
            Format::Double => 1074,
        }
    }

    /// Number of units in one.
    pub open spec fn one(self) -> nat {
        pow2(self.unit_exponent())
    }

    /// The magnitude, in units, of an unsigned pattern. Infinity and the patterns above
    /// it get the magnitude that the enumeration would continue with.
    #[verifier::opaque]
    pub open spec fn mag(self, b: nat) -> nat {
        let h = self.hidden();
        if b < h {
            b
        } else {
            (h + b % h) * pow2((b / h - 1) as nat)
        }
    }

    /// Whether `b` is the unsigned pattern nearest to `n / d` units, ties going to the
    /// even pattern and everything past the midpoint above the largest finite magnitude
    /// going to infinity.
    #[verifier::opaque]
    pub open spec fn is_nearest(self, b: nat, n: nat, d: nat) -> bool {
        &&& b <= self.inf()
        &&& b < self.inf() ==> {
            let twice_mid = d * (self.mag(b) + self.mag(b + 1));
            2 * n < twice_mid || (2 * n == twice_mid && b % 2 == 0)
        }
        &&& b > 0 ==> {
            let twice_mid = d * (self.mag((b - 1) as nat) + self.mag(b));
            2 * n > twice_mid || (2 * n == twice_mid && b % 2 == 0)
        }
    }

    /// The unsigned pattern that `n / d` units round to.
    pub open spec fn round(self, n: nat, d: nat) -> nat {
        choose|b: nat| self.is_nearest(b, n, d)
    }
}

/// Powers of two that the formats are built from.
pub proof fn lemma_format_constants(f: Format)
    ensures
        f.hidden() == pow2((f.precision() - 1) as nat),
        f.hidden() % 2 == 0,
        f.inf() % 2 == 0,
        f.inf() % f.hidden() == 0,
        f.hidden() >= 4,
        f.inf() < f.sign_bit(),
        f.inf() > 2 * f.hidden(),
        f.inf() / f.hidden() == 0xff || f.inf() / f.hidden() == 0x7ff,
{
    vstd::arithmetic::power2::lemma2_to64();
    vstd::arithmetic::power2::lemma2_to64_rest();
}

/// The magnitude of the pattern with significand `q` and exponent `e`.
pub proof fn lemma_mag_parts(f: Format, q: nat, e: nat)
    requires
        q <= 2 * f.hidden(),
        q >= f.hidden() || e == 0,
    ensures
        f.mag(e * f.hidden() + q) == q * pow2(e),
{
    reveal(Format::mag);
    lemma_format_constants(f);
    let h = f.hidden();
    let b = e * h + q;
    vstd::arithmetic::power2::lemma2_to64();
    if q < h {
        assert(e * h == 0) by (nonlinear_arith)
            requires
                e == 0,
        ;
        assert(q * pow2(e) == q) by (nonlinear_arith)
            requires
                pow2(e) == 1,
        ;
    } else if q < 2 * h {
        vstd::arithmetic::div_mod::lemma_fundamental_div_mod_converse(
            b as int,
            h as int,
            (e + 1) as int,
            (q - h) as int,
        );
        assert((e + 1) * h + (q - h) == b) by (nonlinear_arith)
            requires
                b == e * h + q,
        ;
    } else {
        assert((e + 2) * h == b) by (nonlinear_arith)
            requires
                b == e * h + 2 * h,
        ;
        vstd::arithmetic::div_mod::lemma_fundamental_div_mod_converse(
            b as int,
            h as int,
            (e + 2) as int,
            0,
        );
        vstd::arithmetic::power2::lemma_pow2_unfold((e + 1) as nat);
        assert(h * (2 * pow2(e)) == (2 * h) * pow2(e)) by (nonlinear_arith);
    }
}

/// Every pattern has a significand and an exponent.
pub proof fn lemma_split_pattern(f: Format, b: nat) -> (r: (nat, nat))
    ensures
        r.0 < 2 * f.hidden(),
        r.0 >= f.hidden() || r.1 == 0,
        b == r.1 * f.hidden() + r.0,
        f.mag(b) == r.0 * pow2(r.1),
{
    lemma_format_constants(f);
    let h = f.hidden();
    if b < h {
        assert(0nat * h == 0) by (nonlinear_arith);
        lemma_mag_parts(f, b, 0);
        (b, 0)
    } else {
        vstd::arithmetic::div_mod::lemma_fundamental_div_mod(b as int, h as int);
        let q = h + b % h;
        assert(b / h >= 1) by (nonlinear_arith)
            requires
                b >= h,
                h > 0,
                b == h * (b / h) + b % h,
                b % h < h,
        ;
        let e = (b / h - 1) as nat;
        assert(e * h + q == b) by (nonlinear_arith)
            requires
                b == h * (b / h) + b % h,
                q == h + b % h,
                e == b / h - 1,
        ;
        lemma_mag_parts(f, q, e);
        (q, e)
    }
}

/// Consecutive patterns of one exponent are one unit in the last place apart.
pub proof fn lemma_mag_step(f: Format, b: nat)
    ensures
        f.mag(b) < f.mag(b + 1),
{
    let (q, e) = lemma_split_pattern(f, b);
    lemma_mag_parts(f, q, e);
    lemma_mag_parts(f, q + 1, e);
    assert(e * f.hidden() + (q + 1) == b + 1);
    vstd::arithmetic::power2::lemma_pow2_pos(e);
    assert(q * pow2(e) < (q + 1) * pow2(e)) by (nonlinear_arith)
        requires
            pow2(e) > 0,
    ;
}

/// Patterns enumerate magnitudes in increasing order.
pub proof fn lemma_mag_increasing(f: Format, a: nat, b: nat)
    requires
        a < b,
    ensures
        f.mag(a) < f.mag(b),
    decreases b - a,
{
    lemma_mag_step(f, a);
    if a + 1 < b {
        lemma_mag_increasing(f, a + 1, b);
    }
}

/// Order of patterns and order of magnitudes agree.
pub proof fn lemma_mag_order(f: Format, a: nat, b: nat)
    ensures
        a < b <==> f.mag(a) < f.mag(b),
        a == b <==> f.mag(a) == f.mag(b),
{
    if a < b {
        lemma_mag_increasing(f, a, b);
    }
    if b < a {
        lemma_mag_increasing(f, b, a);
    }
}

/// At most one pattern is nearest.
pub proof fn lemma_nearest_unique(f: Format, a: nat, b: nat, n: nat, d: nat)
    requires
        d > 0,
        f.is_nearest(a, n, d),
        f.is_nearest(b, n, d),
    ensures
        a == b,
{
    if a < b {
        lemma_nearest_not_below(f, a, b, n, d);
    } else if b < a {
        lemma_nearest_not_below(f, b, a, n, d);
    }
}

/// Nothing above a nearest pattern is nearest too.
proof fn lemma_nearest_not_below(f: Format, a: nat, b: nat, n: nat, d: nat)
    requires
        d > 0,
        a < b,
        f.is_nearest(a, n, d),
    ensures
        !f.is_nearest(b, n, d),
{
    reveal(Format::is_nearest);
    let lo = f.mag(a) + f.mag(a + 1);
    let hi = f.mag((b - 1) as nat) + f.mag(b);
    lemma_mag_order(f, a, (b - 1) as nat);
    lemma_mag_order(f, (a + 1) as nat, b);
    assert(lo <= hi && (a + 1 < b ==> lo < hi));
    assert(d * lo <= d * hi) by (nonlinear_arith)
        requires
            lo <= hi,
    ;
    assert(lo < hi ==> d * lo < d * hi) by (nonlinear_arith)
        requires
            d > 0,
    ;
}

/// A pattern that is nearest is what rounding gives.
pub proof fn lemma_round_is(f: Format, b: nat, n: nat, d: nat)
    requires
        d > 0,
        f.is_nearest(b, n, d),
    ensures
        f.round(n, d) == b,
{
    lemma_nearest_unique(f, f.round(n, d), b, n, d);
}

/// Rounding from a significand `q`, an exponent `e` and the position of `n / d` between
/// the two candidates.
pub proof fn lemma_nearest_from_parts(f: Format, q: nat, e: nat, up: bool, n: nat, d: nat)
    requires
        d > 0,
        q < 2 * f.hidden(),
        q >= f.hidden() || e == 0,
        q * pow2(e) * d <= n < (q + 1) * pow2(e) * d,
        up <==> 2 * n > (2 * q + 1) * pow2(e) * d || (2 * n == (2 * q + 1) * pow2(e) * d && q % 2
            == 1),
    ensures
        ({
            let b0 = e * f.hidden() + q + (if up {
                1nat
            } else {
                0nat
            });
            let b = if b0 > f.inf() {
                f.inf()
            } else {
                b0
            };
            f.is_nearest(b, n, d)
        }),
{
    reveal(Format::is_nearest);
    lemma_format_constants(f);
    let h = f.hidden();
    let low = e * h + q;
    lemma_mag_parts(f, q, e);
    lemma_mag_parts(f, q + 1, e);
    assert(e * h + (q + 1) == low + 1);
    let m0 = f.mag(low);
    let m1 = f.mag(low + 1);
    lemma_mag_step(f, low);
    lemma_mag_step(f, low + 1);
    assert(m0 == q * pow2(e) && m1 == (q + 1) * pow2(e));
    assert(m0 + m1 == (2 * q + 1) * pow2(e)) by (nonlinear_arith)
        requires
            m0 == q * pow2(e),
            m1 == (q + 1) * pow2(e),
    ;
    assert(d * (m0 + m1) == (2 * q + 1) * pow2(e) * d) by (nonlinear_arith)
        requires
            m0 + m1 == (2 * q + 1) * pow2(e),
    ;
    assert(m0 * d <= n < m1 * d);
    assert((e * h) % 2 == 0) by {
        assert(h == 2 * (h / 2));
        assert(e * h == 2 * (e * (h / 2))) by (nonlinear_arith)
            requires
                h == 2 * (h / 2),
        ;
    }
    assert(low % 2 == q % 2);
    if low >= f.inf() {
        lemma_mag_order(f, f.inf(), low);
        lemma_mag_order(f, (f.inf() - 1) as nat, f.inf());
        let s = f.mag((f.inf() - 1) as nat) + f.mag(f.inf());
        assert(d * s < 2 * n) by (nonlinear_arith)
            requires
                s < 2 * m0,
                m0 * d <= n,
                d > 0,
        ;
    } else if up {
        let b = low + 1;
        if b < f.inf() {
            let s = f.mag(b) + f.mag(b + 1);
            assert(2 * n < d * s) by (nonlinear_arith)
                requires
                    n < m1 * d,
                    s > 2 * m1,
                    d > 0,
            ;
        }
        assert((b - 1) as nat == low);
    } else {
        if low > 0 {
            lemma_mag_order(f, (low - 1) as nat, low);
            let s = f.mag((low - 1) as nat) + f.mag(low);
            assert(d * s < 2 * n) by (nonlinear_arith)
                requires
                    s < 2 * m0,
                    m0 * d <= n,
                    d > 0,
            ;
        }
    }
}

/// The exponent at which `n / d` is rounded, found by going down from any exponent that
/// is large enough.
proof fn lemma_exponent_from(f: Format, n: nat, d: nat, e: nat) -> (r: nat)
    requires
        d > 0,
        n < 2 * f.hidden() * pow2(e) * d,
    ensures
        n < 2 * f.hidden() * pow2(r) * d,
        n >= f.hidden() * pow2(r) * d || r == 0,
    decreases e,
{
    if e == 0 || n >= f.hidden() * pow2(e) * d {
        e
    } else {
        vstd::arithmetic::power2::lemma_pow2_unfold(e);
        let below = (e - 1) as nat;
        assert(2 * f.hidden() * pow2(below) * d == f.hidden() * pow2(e) * d) by (nonlinear_arith)
            requires
                pow2(e) == 2 * pow2(below),
        ;
        lemma_exponent_from(f, n, d, below)
    }
}

/// Two to the `n` is above `n`.
proof fn lemma_pow2_above(n: nat)
    ensures
        n < pow2(n),
    decreases n,
{
    if n == 0 {
        vstd::arithmetic::power2::lemma2_to64();
    } else {
        lemma_pow2_above((n - 1) as nat);
        vstd::arithmetic::power2::lemma_pow2_unfold(n);
    }
}

/// Every quotient has a nearest pattern, so rounding is total.
pub proof fn lemma_round_nearest(f: Format, n: nat, d: nat)
    requires
        d > 0,
    ensures
        f.is_nearest(f.round(n, d), n, d),
{
    lemma_format_constants(f);
    lemma_pow2_above(n);
    assert(n < 2 * f.hidden() * pow2(n) * d) by (nonlinear_arith)
        requires
            n < pow2(n),
            f.hidden() >= 1,
            d >= 1,
    ;
    let e = lemma_exponent_from(f, n, d, n);
    let u = pow2(e) * d;
    vstd::arithmetic::power2::lemma_pow2_pos(e);
    assert(u > 0) by (nonlinear_arith)
        requires
            u == pow2(e) * d,
            pow2(e) > 0,
            d > 0,
    ;
    let h = f.hidden();
    let q = n / u;
    vstd::arithmetic::div_mod::lemma_fundamental_div_mod(n as int, u as int);
    assert(2 * h * pow2(e) * d == (2 * h) * u && h * pow2(e) * d == h * u) by (nonlinear_arith)
        requires
            u == pow2(e) * d,
    ;
    assert(q < 2 * h) by (nonlinear_arith)
        requires
            n < (2 * h) * u,
            n >= u * q,
            u > 0,
    ;
    assert(u * (q + 1) == u * q + u) by (nonlinear_arith);
    if e > 0 {
        assert(q >= h) by (nonlinear_arith)
            requires
                n >= h * u,
                n < u * (q + 1),
                u > 0,
        ;
    }
    assert(q * pow2(e) * d == u * q && (q + 1) * pow2(e) * d == u * (q + 1)) by (nonlinear_arith)
        requires
            u == pow2(e) * d,
    ;
    let mid = (2 * q + 1) * pow2(e) * d;
    let up = 2 * n > mid || (2 * n == mid && q % 2 == 1);
    lemma_nearest_from_parts(f, q, e, up, n, d);
    let b0 = e * f.hidden() + q + (if up {
        1nat
    } else {
        0nat
    });
    let b = if b0 > f.inf() {
        f.inf()
    } else {
        b0
    };
    assert(f.is_nearest(b, n, d));
}

/// A representable magnitude rounds to itself.
pub proof fn lemma_round_exact(f: Format, b: nat, d: nat)
    requires
        d > 0,
        b <= f.inf(),
    ensures
        f.round(f.mag(b) * d, d) == b,
{
    reveal(Format::is_nearest);
    let n = f.mag(b) * d;
    lemma_mag_step(f, b);
    let s = f.mag(b) + f.mag(b + 1);
    assert(2 * n < d * s) by (nonlinear_arith)
        requires
            n == f.mag(b) * d,
            s > 2 * f.mag(b),
            d > 0,
    ;
    if b > 0 {
        lemma_mag_step(f, (b - 1) as nat);
        let t = f.mag((b - 1) as nat) + f.mag(b);
        assert(2 * n > d * t) by (nonlinear_arith)
            requires
                n == f.mag(b) * d,
                t < 2 * f.mag(b),
                d > 0,
        ;
    }
    lemma_round_is(f, b, n, d);
}

/// Zero rounds to zero.
pub proof fn lemma_round_zero(f: Format, d: nat)
    requires
        d > 0,
    ensures
        f.round(0, d) == 0,
{
    reveal(Format::mag);
    lemma_format_constants(f);
    assert(f.mag(0) * d == 0) by (nonlinear_arith)
        requires
            f.mag(0) == 0,
    ;
    lemma_round_exact(f, 0, d);
}

/// Rounding keeps order.
pub proof fn lemma_round_monotone(f: Format, n1: nat, d1: nat, n2: nat, d2: nat)
    requires
        d1 > 0,
        d2 > 0,
        n1 * d2 <= n2 * d1,
    ensures
        f.round(n1, d1) <= f.round(n2, d2),
{
    lemma_round_nearest(f, n1, d1);
    lemma_round_nearest(f, n2, d2);
    let a = f.round(n1, d1);
    let b = f.round(n2, d2);
    if b < a {
        reveal(Format::is_nearest);
        // 2 n2 / d2 <= mag(b) + mag(b + 1) <= mag(a - 1) + mag(a) <= 2 n1 / d1
        let lo = f.mag(b) + f.mag(b + 1);
        let hi = f.mag((a - 1) as nat) + f.mag(a);
        lemma_mag_order(f, b, (a - 1) as nat);
        lemma_mag_order(f, b + 1, a);
        assert(2 * n2 <= d2 * lo && d1 * hi <= 2 * n1);
        assert(lo <= hi);
        assert(lo == hi && 2 * n2 == d2 * lo && d1 * hi == 2 * n1) by (nonlinear_arith)
            requires
                2 * n2 <= d2 * lo,
                d1 * hi <= 2 * n1,
                lo <= hi,
                n1 * d2 <= n2 * d1,
                d1 > 0,
                d2 > 0,
        ;
        assert(b + 1 == a);
    }
}

/// A magnitude of at least one unit does not round to zero.
pub proof fn lemma_round_positive(f: Format, n: nat)
    requires
        n > 0,
    ensures
        f.round(n, 1) > 0,
{
    reveal(Format::mag);
    lemma_format_constants(f);
    lemma_round_exact(f, 1, 1);
    lemma_round_monotone(f, 1, 1, n, 1);
}

} // verus!
