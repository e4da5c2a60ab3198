//! What rounding keeps: signs, order, and the values that need no rounding.

use super::model::{
    lemma_format_constants, lemma_mag_order, lemma_mag_parts, lemma_round_exact,
    lemma_round_monotone, lemma_round_nearest, lemma_round_zero, lemma_split_pattern, Format,
};
use super::rounding::lemma_pow2_monotone;
use vstd::arithmetic::power2::{lemma_pow2_adds, lemma_pow2_pos, lemma_pow2_unfold, pow2};
use vstd::prelude::*;

verus! {

impl Format {
    /// The value, in units, that the fraction `n / d` of units rounds to.
    pub open spec fn rounded(self, n: int, d: nat) -> int {
        if n < 0 {
            -(self.mag(self.round((-n) as nat, d)) as int)
        } else {
            self.mag(self.round(n as nat, d)) as int
        }
    }

    /// A pattern of the format that is not a NaN.
    pub open spec fn is_number(self, x: nat) -> bool {
        self.valid(x) && !self.is_nan(x)
    }
}

/// Rounding never passes infinity.
pub proof fn lemma_round_bound(f: Format, n: nat, d: nat)
    requires
        d > 0,
    ensures
        f.round(n, d) <= f.inf(),
        f.round(n, d) < f.sign_bit(),
{
    lemma_round_nearest(f, n, d);
    reveal(Format::is_nearest);
    lemma_format_constants(f);
}

/// Zero is the value of no pattern but the two zeros.
pub proof fn lemma_value_zero(f: Format, x: nat)
    requires
        f.valid(x),
    ensures
        f.mag(0) == 0,
        f.value(x) == 0 <==> f.body(x) == 0,
{
    reveal(Format::mag);
    lemma_format_constants(f);
    lemma_mag_order(f, 0, f.body(x));
}

/// A larger fraction does not round to a smaller value.
pub proof fn lemma_rounded_monotone(f: Format, n1: int, d1: nat, n2: int, d2: nat)
    requires
        d1 > 0,
        d2 > 0,
        n1 * d2 <= n2 * d1,
    ensures
        f.rounded(n1, d1) <= f.rounded(n2, d2),
{
    if n1 < 0 && n2 < 0 {
        assert((-n2) * d1 <= (-n1) * d2) by (nonlinear_arith)
            requires
                n1 * d2 <= n2 * d1,
        ;
        lemma_round_monotone(f, (-n2) as nat, d2, (-n1) as nat, d1);
        lemma_mag_order(f, f.round((-n2) as nat, d2), f.round((-n1) as nat, d1));
    } else if n1 >= 0 && n2 >= 0 {
        lemma_round_monotone(f, n1 as nat, d1, n2 as nat, d2);
        lemma_mag_order(f, f.round(n1 as nat, d1), f.round(n2 as nat, d2));
    } else if n1 >= 0 {
        assert(n2 * d1 < 0 && n1 * d2 >= 0) by (nonlinear_arith)
            requires
                n2 < 0,
                n1 >= 0,
                d1 > 0,
                d2 > 0,
        ;
    }
}

/// What is already a value of the format is not changed by rounding.
pub proof fn lemma_rounded_exact(f: Format, x: nat, d: nat)
    requires
        f.is_number(x),
        d > 0,
    ensures
        f.rounded(f.value(x) * d, d) == f.value(x),
{
    let b = f.body(x);
    let m = f.mag(b);
    lemma_round_exact(f, b, d);
    lemma_value_zero(f, x);
    if f.negative(x) && m > 0 {
        assert((-(m as int)) * d == -(m * d) && m * d > 0) by (nonlinear_arith)
            requires
                m > 0,
                d > 0,
        ;
    } else if f.negative(x) {
        assert(0 * d == 0) by (nonlinear_arith);
        lemma_round_zero(f, d);
    }
    assert(m * d >= 0) by (nonlinear_arith)
        requires
            m >= 0,
            d > 0,
    ;
}

/// Zero rounds to zero.
pub proof fn lemma_rounded_zero(f: Format, d: nat)
    requires
        d > 0,
    ensures
        f.rounded(0, d) == 0,
{
    lemma_round_zero(f, d);
    lemma_value_zero(f, 0);
}

/// Rounding does not change the sign.
pub proof fn lemma_rounded_sign(f: Format, n: int, d: nat)
    requires
        d > 0,
    ensures
        n >= 0 ==> f.rounded(n, d) >= 0,
        n <= 0 ==> f.rounded(n, d) <= 0,
{
    lemma_rounded_zero(f, d);
}

/// The value of a sum of two finite numbers.
pub proof fn lemma_sum_value(f: Format, x: nat, y: nat)
    requires
        f.valid(x),
        f.valid(y),
        f.is_finite(x),
        f.is_finite(y),
    ensures
        f.is_number(f.sum(x, y)),
        f.value(f.sum(x, y)) == f.rounded(f.value(x) + f.value(y), 1),
{
    let s = f.value(x) + f.value(y);
    lemma_format_constants(f);
    lemma_value_zero(f, 0);
    lemma_rounded_zero(f, 1);
    if s > 0 {
        lemma_round_bound(f, s as nat, 1);
    } else if s < 0 {
        lemma_round_bound(f, (-s) as nat, 1);
    }
}

/// The opposite of a number has the opposite value.
pub proof fn lemma_opposite_value(f: Format, x: nat)
    requires
        f.valid(x),
    ensures
        f.valid(f.opposite(x)),
        f.body(f.opposite(x)) == f.body(x),
        f.negative(f.opposite(x)) == !f.negative(x),
        f.value(f.opposite(x)) == -f.value(x),
{
    lemma_format_constants(f);
}

/// The value of a difference of two finite numbers.
pub proof fn lemma_difference_value(f: Format, x: nat, y: nat)
    requires
        f.valid(x),
        f.valid(y),
        f.is_finite(x),
        f.is_finite(y),
    ensures
        f.is_number(f.difference(x, y)),
        f.value(f.difference(x, y)) == f.rounded(f.value(x) - f.value(y), 1),
{
    lemma_opposite_value(f, y);
    lemma_sum_value(f, x, f.opposite(y));
}

/// The value of a product of two finite numbers.
pub proof fn lemma_product_value(f: Format, x: nat, y: nat)
    requires
        f.valid(x),
        f.valid(y),
        f.is_finite(x),
        f.is_finite(y),
    ensures
        f.is_number(f.product(x, y)),
        f.value(f.product(x, y)) == f.rounded(f.value(x) * f.value(y), f.one()),
        f.negative(f.product(x, y)) == (f.negative(x) != f.negative(y)),
{
    let a = f.size(x);
    let b = f.size(y);
    lemma_pow2_pos(f.unit_exponent());
    lemma_format_constants(f);
    lemma_round_bound(f, a * b, f.one());
    let v = f.value(x) * f.value(y);
    let same = f.negative(x) == f.negative(y);
    assert(v == (if same {
        (a * b) as int
    } else {
        -((a * b) as int)
    })) by {
        let ia = a as int;
        let ib = b as int;
        assert((-ia) * ib == -(ia * ib) && ia * (-ib) == -(ia * ib) && (-ia) * (-ib) == ia * ib)
            by (nonlinear_arith);
    }
    assert(a * b >= 0) by (nonlinear_arith);
    if a * b == 0 {
        lemma_rounded_zero(f, f.one());
        lemma_round_zero(f, f.one());
        lemma_value_zero(f, 0);
    }
}

/// The value of a quotient of two finite numbers, the divisor not zero.
pub proof fn lemma_quotient_value(f: Format, x: nat, y: nat)
    requires
        f.valid(x),
        f.valid(y),
        f.is_finite(x),
        f.is_finite(y),
        f.value(y) > 0,
    ensures
        f.is_number(f.quotient(x, y)),
        f.value(f.quotient(x, y)) == f.rounded(f.value(x) * f.one(), f.value(y) as nat),
        f.negative(f.quotient(x, y)) == f.negative(x),
{
    let a = f.size(x);
    let b = f.size(y);
    lemma_value_zero(f, y);
    lemma_pow2_pos(f.unit_exponent());
    lemma_format_constants(f);
    lemma_round_bound(f, a * f.one(), b);
    let o = f.one();
    assert(f.value(x) * o == (if f.negative(x) {
        -((a * o) as int)
    } else {
        (a * o) as int
    })) by {
        let ia = a as int;
        let io = o as int;
        assert((-ia) * io == -(ia * io)) by (nonlinear_arith);
    }
    assert(a * o >= 0) by (nonlinear_arith);
    if a * o == 0 {
        lemma_rounded_zero(f, b);
        lemma_round_zero(f, b);
        lemma_value_zero(f, 0);
    }
}

/// An infinity survives adding a finite number and dividing by a positive one.
pub proof fn lemma_infinite_result(f: Format, x: nat, y: nat)
    requires
        f.valid(x),
        f.valid(y),
        f.is_infinite(x),
        f.is_finite(y),
    ensures
        f.sum(x, y) == x,
        f.difference(x, y) == x,
        f.value(y) > 0 ==> f.quotient(x, y) == x,
{
    lemma_format_constants(f);
    lemma_opposite_value(f, y);
    lemma_value_zero(f, y);
}

/// The remainder by a positive number keeps the sign of the dividend and lies strictly
/// inside the divisor up to rounding.
pub proof fn lemma_remainder_value(f: Format, x: nat, y: nat)
    requires
        f.valid(x),
        f.valid(y),
        f.is_finite(x),
        f.is_finite(y),
        f.value(y) > 0,
    ensures
        f.valid(f.remainder(x, y)),
        f.is_finite(f.remainder(x, y)),
        f.negative(f.remainder(x, y)) == f.negative(x),
        f.size(f.remainder(x, y)) <= f.value(y),
        f.size(f.remainder(x, y)) == f.mag(f.round(f.size(x) % f.size(y), 1)),
{
    let a = f.size(x);
    let b = f.size(y);
    lemma_value_zero(f, y);
    lemma_format_constants(f);
    lemma_round_bound(f, a % b, 1);
    assert(a % b < b) by (nonlinear_arith)
        requires
            b > 0,
    ;
    lemma_round_exact(f, f.body(y), 1);
    lemma_round_monotone(f, a % b, 1, b, 1);
    lemma_mag_order(f, f.round(a % b, 1), f.body(y));
}

/// Multiplying by one changes nothing; the value of the number with the pattern of one.
pub proof fn lemma_one(f: Format, b: nat)
    requires
        f == Format::Single ==> b == 0x3f80_0000,
        f == Format::Double ==> b == 0x3ff0_0000_0000_0000,
    ensures
        f.valid(b),
        f.is_finite(b),
        f.value(b) == f.one(),
        !f.negative(b),
{
    reveal(Format::mag);
    let h = f.hidden();
    vstd::arithmetic::power2::lemma2_to64();
    vstd::arithmetic::power2::lemma2_to64_rest();
    match f {
        Format::Single => {
            assert(b / h == 127 && b % h == 0);
            vstd::arithmetic::power2::lemma_pow2_adds(23, 126);
        },
        Format::Double => {
            assert(b / h == 1023 && b % h == 0);
            vstd::arithmetic::power2::lemma_pow2_adds(52, 1022);
        },
    }
}

/// Infinity reads as a power of two far above one.
pub proof fn lemma_infinity_value(f: Format)
    ensures
        f.mag(f.inf()) >= 8 * f.hidden() * f.hidden() * f.one(),
{
    lemma_format_constants(f);
    let h = f.hidden();
    let e: nat = match f {
        Format::Single => 254,
        Format::Double => 2046,
    };
    assert(e * h + h == f.inf());
    lemma_mag_parts(f, h, e);
    let u = f.unit_exponent();
    let g: nat = (f.precision() - 1) as nat;
    lemma_pow2_pos(u);
    lemma_pow2_adds(g, u);
    lemma_pow2_adds((g + u) as nat, 3);
    vstd::arithmetic::power2::lemma2_to64();
    lemma_pow2_monotone((g + u + 3) as nat, e);
    assert(h * pow2(e) >= 8 * h * h * f.one()) by (nonlinear_arith)
        requires
            pow2(e) >= (h * f.one()) * 8,
            h > 0,
    {
        assert(h * pow2(e) >= h * ((h * f.one()) * 8));
        assert(h * ((h * f.one()) * 8) == 8 * h * h * f.one());
    }
}

/// A significand of at most `2 * hidden` scaled by a power of two is a magnitude.
pub proof fn lemma_representable(f: Format, k: nat, e: nat) -> (b: nat)
    requires
        k <= 2 * f.hidden(),
    ensures
        f.mag(b) == k * pow2(e),
    decreases e,
{
    if k >= f.hidden() || e == 0 {
        lemma_mag_parts(f, k, e);
        e * f.hidden() + k
    } else {
        lemma_pow2_unfold(e);
        let half = pow2((e - 1) as nat);
        assert(k * (2 * half) == (2 * k) * half) by (nonlinear_arith);
        lemma_representable(f, 2 * k, (e - 1) as nat)
    }
}

/// Whole numbers up to `2 * hidden` are exact.
pub proof fn lemma_whole_value(f: Format, negative: bool, k: nat)
    requires
        k <= 2 * f.hidden(),
    ensures
        f.valid(f.whole(negative, k)),
        f.is_finite(f.whole(negative, k)),
        f.negative(f.whole(negative, k)) == negative,
        f.size(f.whole(negative, k)) == k * f.one(),
{
    let b = lemma_representable(f, k, f.unit_exponent());
    let h = f.hidden();
    let one = f.one();
    lemma_format_constants(f);
    lemma_infinity_value(f);
    lemma_pow2_pos(f.unit_exponent());
    assert(k * one < 8 * h * h * one) by (nonlinear_arith)
        requires
            k <= 2 * h,
            h >= 4,
            one > 0,
    {
        assert(k * one <= (2 * h) * one);
        assert((2 * h) * one < (8 * h * h) * one);
    }
    lemma_mag_order(f, b, f.inf());
    lemma_round_exact(f, b, 1);
    assert(f.mag(b) * 1 == f.mag(b)) by (nonlinear_arith);
}

/// The floor is the value rounded down to a whole number of ones.
pub proof fn lemma_floor_value(f: Format, x: nat)
    requires
        f.valid(x),
        f.is_finite(x),
    ensures
        f.is_number(f.floor(x)),
        f.value(f.floor(x)) == (f.value(x) / (f.one() as int)) * f.one(),
{
    let one = f.one();
    let v = f.value(x) / (one as int);
    let k = (if v < 0 {
        -v
    } else {
        v
    }) as nat;
    let (q, e) = lemma_split_pattern(f, f.body(x));
    let m = f.size(x);
    let u = f.unit_exponent();
    let h = f.hidden();
    lemma_pow2_pos(u);
    lemma_format_constants(f);
    super::arith::lemma_negative_floor(m, one);
    if e >= u {
        super::arith::lemma_high_is_whole(f, q, e);
        assert(k * one == m);
        lemma_round_exact(f, f.body(x), 1);
        assert(m * 1 == m) by (nonlinear_arith);
        assert((-(k as int)) * one == -(m as int)) by (nonlinear_arith)
            requires
                k * one == m,
        ;
    } else {
        lemma_pow2_unfold(u);
        lemma_pow2_monotone(e, (u - 1) as nat);
        assert(m <= one * h) by (nonlinear_arith)
            requires
                m == q * pow2(e),
                q < 2 * h,
                one == 2 * pow2((u - 1) as nat),
                pow2(e) <= pow2((u - 1) as nat),
        {
            assert(m <= (2 * h) * pow2((u - 1) as nat));
        }
        vstd::arithmetic::div_mod::lemma_multiply_divide_le(m as int, one as int, h as int);
        lemma_whole_value(f, f.negative(x), k);
        assert((-(k as int)) * one == -((k * one) as int)) by (nonlinear_arith);
    }
}

/// The ceiling is the value rounded up to a whole number of ones.
pub proof fn lemma_ceil_value(f: Format, x: nat)
    requires
        f.valid(x),
        f.is_finite(x),
    ensures
        f.is_number(f.ceil(x)),
        f.value(f.ceil(x)) == -((-f.value(x)) / (f.one() as int)) * f.one(),
{
    lemma_opposite_value(f, x);
    lemma_floor_value(f, f.opposite(x));
    lemma_opposite_value(f, f.floor(f.opposite(x)));
    let k = (-f.value(x)) / (f.one() as int);
    assert((-k) * f.one() == -(k * f.one())) by (nonlinear_arith);
}

/// Taking the common factor out of a remainder.
proof fn lemma_mod_scaled(a: nat, b: nat, c: nat)
    requires
        b > 0,
        c > 0,
    ensures
        (a * c) % (b * c) == (a % b) * c,
{
    vstd::arithmetic::div_mod::lemma_fundamental_div_mod(a as int, b as int);
    let (q, r) = ((a / b) as int, (a % b) as int);
    assert(a * c == q * (b * c) + r * c && 0 <= r * c < b * c && b * c > 0) by (nonlinear_arith)
        requires
            a == b * q + r,
            0 <= r < b,
            c > 0,
    ;
    vstd::arithmetic::div_mod::lemma_fundamental_div_mod_converse(
        (a * c) as int,
        (b * c) as int,
        q,
        r * c,
    );
}

/// The remainder is exact: no rounding takes place.
pub proof fn lemma_remainder_exact(f: Format, x: nat, y: nat)
    requires
        f.valid(x),
        f.valid(y),
        f.is_finite(x),
        f.is_finite(y),
        f.size(y) > 0,
    ensures
        f.mag(f.round(f.size(x) % f.size(y), 1)) == f.size(x) % f.size(y),
{
    let (a, b) = (f.size(x), f.size(y));
    let (qx, ex) = lemma_split_pattern(f, f.body(x));
    let (qy, ey) = lemma_split_pattern(f, f.body(y));
    let r = a % b;
    assert(r < b) by (nonlinear_arith)
        requires
            b > 0,
            r == a % b,
    ;
    lemma_pow2_pos(ex);
    lemma_pow2_pos(ey);
    assert(qy > 0) by (nonlinear_arith)
        requires
            qy * pow2(ey) > 0,
    ;
    let p = if ex >= ey {
        let up = (ex - ey) as nat;
        let k = qx * pow2(up);
        lemma_pow2_adds(up, ey);
        assert(a == k * pow2(ey)) by (nonlinear_arith)
            requires
                a == qx * pow2(ex),
                k == qx * pow2(up),
                pow2(up) * pow2(ey) == pow2(ex),
        ;
        lemma_mod_scaled(k, qy, pow2(ey));
        vstd::arithmetic::div_mod::lemma_mod_bound(k as int, qy as int);
        lemma_representable(f, k % qy, ey)
    } else {
        let up = (ey - ex) as nat;
        let k = qy * pow2(up);
        lemma_pow2_adds(up, ex);
        lemma_pow2_pos(up);
        assert(b == k * pow2(ex) && k > 0) by (nonlinear_arith)
            requires
                b == qy * pow2(ey),
                k == qy * pow2(up),
                pow2(up) * pow2(ex) == pow2(ey),
                qy > 0,
                pow2(up) > 0,
        ;
        lemma_mod_scaled(qx, k, pow2(ex));
        vstd::arithmetic::div_mod::lemma_mod_decreases(qx, k);
        lemma_representable(f, qx % k, ex)
    };
    assert(f.mag(p) == r);
    lemma_mag_order(f, p, f.body(y));
    lemma_round_exact(f, p, 1);
    assert(f.mag(p) * 1 == f.mag(p)) by (nonlinear_arith);
}

/// What is not finite stays so under sums, differences and products.
pub proof fn lemma_unbounded_result(f: Format, x: nat, y: nat)
    requires
        f.valid(x),
        f.valid(y),
        !f.is_finite(x) || !f.is_finite(y),
    ensures
        f.valid(f.sum(x, y)) && !f.is_finite(f.sum(x, y)),
        f.valid(f.difference(x, y)) && !f.is_finite(f.difference(x, y)),
        f.valid(f.product(x, y)) && !f.is_finite(f.product(x, y)),
{
    lemma_format_constants(f);
    lemma_opposite_value(f, y);
}

} // verus!
