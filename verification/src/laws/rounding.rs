//! How far the library's arithmetic is from exact arithmetic.

use crate::color::Color;
use crate::color_matrix::{ColorMatrix, Row};
use crate::ieee::Binary32;
use crate::ieee::error::lemma_rounding_error;
use crate::ieee::facts::{lemma_rounded_exact, lemma_rounded_monotone};
use crate::ieee::model::{lemma_format_constants, lemma_mag_order, Format};
use crate::laws::exact::{blend, lemma_number, lemma_number_order, number, row_sum, vector};
use crate::laws::reals::{
    lemma_bounded_product, lemma_common_factor, lemma_commutes, lemma_distributes,
    lemma_distributes_difference, lemma_integer_product, lemma_opposite_factor,
    lemma_product_of_one, lemma_product_sign, lemma_quotient, lemma_regrouped,
    lemma_size_of_product, size,
};
use crate::laws::stability::{is_close, is_matrix_within, is_row_within};
use crate::ramp::{mix, to_vector};
use vstd::prelude::*;

verus! {

/// The smallest normal number: below it rounding is to whole units.
pub open spec fn tiny() -> real {
    0x80_0000real / Binary32::unit() as real
}

/// `tiny` is next to nothing.
pub proof fn lemma_tiny()
    ensures
        0real < tiny(),
        16777216real * tiny() <= 1real,
        tiny() * Binary32::unit() as real == 0x80_0000real,
{
    let u = Binary32::unit() as int;
    Binary32::lemma_constants(Binary32::zero());
    vstd::arithmetic::power2::lemma_pow2_adds(47, 102);
    vstd::arithmetic::power2::lemma_pow2_pos(102);
    vstd::arithmetic::power2::lemma2_to64();
    assert(vstd::arithmetic::power2::pow2(47) == 0x8000_0000_0000) by {
        vstd::arithmetic::power2::lemma2_to64_rest();
    }
    let p = vstd::arithmetic::power2::pow2(102) as int;
    assert(u == 0x8000_0000_0000 * p);
    assert(u >= 0x8000_0000_0000) by (nonlinear_arith)
        requires
            u == 0x8000_0000_0000 * p,
            p >= 1,
    ;
    let ur = u as real;
    lemma_quotient(0x80_0000real, ur);
    let t = tiny();
    if t <= 0real {
        lemma_product_sign(-t, ur);
        lemma_commutes(-t, ur);
        lemma_commutes(t, ur);
        lemma_opposite_factor(ur, t);
    }
    if 16777216real * t > 1real {
        lemma_product_sign(16777216real * t - 1real, ur);
        lemma_common_factor(16777216real * t, 1real, ur);
        lemma_commutes(16777216real * t, ur);
        lemma_commutes(t, ur);
        lemma_regrouped(16777216real, ur, t);
        lemma_product_of_one(ur);
    }
}

/// An error in units is one in numbers.
proof fn lemma_error_in_numbers(g: real, x: real, e: real, m: real)
    requires
        m > 0real,
        16777215real * size(g * m) <= size(x * m) + e * m,
    ensures
        16777215real * size(g) <= size(x) + e,
{
    lemma_size_of_product(g, m);
    lemma_size_of_product(x, m);
    let (a, b) = (size(g), size(x));
    if 16777215real * a > b + e {
        lemma_product_sign(m, 16777215real * a - (b + e));
        lemma_distributes_difference(m, 16777215real * a, b + e);
        lemma_distributes(m, b, e);
        lemma_regrouped(16777215real, m, a);
        lemma_commutes(a, m);
        lemma_commutes(b, m);
        lemma_commutes(e, m);
    }
}

/// What is rounded within `2^24` stays there.
proof fn lemma_bounded_rounding(n: int, d: nat)
    requires
        d > 0,
        -(0x100_0000 * Binary32::unit() * d) <= n <= 0x100_0000 * Binary32::unit() * d,
    ensures
        -Format::Single.mag(Format::Single.inf()) < Binary32::rounded(n, d)
            < Format::Single.mag(Format::Single.inf()),
        forall|x: Binary32|
            !(#[trigger] x.nan()) && x.value() == Binary32::rounded(n, d) ==> x.finite(),
{
    let f = Format::Single;
    let c = Binary32::from_unsigned(0x100_0000);
    Binary32::lemma_from_unsigned(0x100_0000);
    Binary32::lemma_constants(c);
    lemma_format_constants(f);
    c.lemma_negated();
    let m = c.negated();
    Binary32::lemma_constants(m);
    lemma_rounded_exact(f, c.bits as nat, d);
    lemma_rounded_exact(f, m.bits as nat, d);
    let v = c.value();
    let id = d as int;
    assert((-v) * id == -(v * id)) by (nonlinear_arith);
    assert(n * id <= (v * id) * id && (-(v * id)) * id <= n * id) by (nonlinear_arith)
        requires
            -(v * id) <= n <= v * id,
            id > 0,
    ;
    lemma_rounded_monotone(f, n, d, v * d, d);
    lemma_rounded_monotone(f, -(v * d), d, n, d);
    lemma_mag_order(f, f.body(c.bits as nat), f.inf());
    assert forall|x: Binary32|
        !(#[trigger] x.nan()) && x.value() == Binary32::rounded(n, d) implies x.finite() by {
        Binary32::lemma_constants(x);
        lemma_mag_order(f, f.body(x.bits as nat), f.inf());
    }
}

/// A bound in numbers is one in units.
proof fn lemma_bound_in_units(n: int, m: int, x: real)
    requires
        m > 0,
        n as real == x * (m as real),
        size(x) <= 16777216real,
    ensures
        -(0x100_0000 * m) <= n <= 0x100_0000 * m,
{
    let mr = m as real;
    lemma_product_sign(mr, 16777216real - x);
    lemma_product_sign(mr, 16777216real + x);
    lemma_distributes_difference(mr, 16777216real, x);
    lemma_distributes(mr, 16777216real, x);
    lemma_commutes(mr, x);
    lemma_commutes(mr, 16777216real);
}

/// A sum or a difference is rounded by one part in `2^24`.
proof fn lemma_whole_units(r: Binary32, n: int, x: real)
    requires
        n as real == x * (Binary32::unit() as real),
        size(x) <= 16777216real,
        !r.nan(),
        r.value() == Binary32::rounded(n, 1),
    ensures
        r.finite(),
        16777215real * size(number(r) - x) <= size(x),
{
    let f = Format::Single;
    let u = Binary32::unit() as int;
    let ur = u as real;
    lemma_number(r);
    lemma_format_constants(f);
    lemma_bound_in_units(n, u, x);
    assert(0x100_0000 * u * 1 == 0x100_0000 * u) by (nonlinear_arith);
    lemma_bounded_rounding(n, 1);
    lemma_rounding_error(f, n, 1);
    let v = r.value();
    assert(v * 1 == v) by (nonlinear_arith);
    assert(f.hidden() == 0x80_0000);
    let e = v - n;
    let sz = if n < 0 {
        -n
    } else {
        n
    };
    assert(-sz <= e * 0xff_ffff <= sz);
    assert(e as real == v as real - n as real);
    lemma_common_factor(number(r), x, ur);
    assert(size(x * ur) == sz as real);
    assert(16777215real * size(e as real) <= sz as real);
    assert(0real * ur == 0real);
    lemma_error_in_numbers(number(r) - x, x, 0real, ur);
}

/// A sum is off by at most one part in `2^24`.
pub proof fn lemma_sum_error(a: Binary32, b: Binary32)
    requires
        a.finite(),
        b.finite(),
        size(number(a) + number(b)) <= 16777216real,
    ensures
        a.plus(b).finite(),
        16777215real * size(number(a.plus(b)) - (number(a) + number(b))) <= size(
            number(a) + number(b),
        ),
{
    lemma_number(a);
    lemma_number(b);
    a.lemma_plus(b);
    lemma_common_factor(number(a), number(b), Binary32::unit() as real);
    lemma_whole_units(a.plus(b), a.value() + b.value(), number(a) + number(b));
}

/// A difference is off by at most one part in `2^24`, and has the sign of the exact one.
pub proof fn lemma_difference_error(a: Binary32, b: Binary32)
    requires
        a.finite(),
        b.finite(),
        size(number(a) - number(b)) <= 16777216real,
    ensures
        a.minus(b).finite(),
        16777215real * size(number(a.minus(b)) - (number(a) - number(b))) <= size(
            number(a) - number(b),
        ),
{
    lemma_number(a);
    lemma_number(b);
    a.lemma_minus(b);
    lemma_common_factor(number(a), number(b), Binary32::unit() as real);
    lemma_whole_units(a.minus(b), a.value() - b.value(), number(a) - number(b));
}

/// A fraction of units is rounded by one part in `2^24`, or to a unit.
proof fn lemma_fraction(r: Binary32, n: int, d: nat, m: real, x: real, y: real)
    requires
        d > 0,
        m > 0real,
        !r.nan(),
        r.value() == Binary32::rounded(n, d),
        n as real == x * m,
        (r.value() * d) as real == y * m,
        -(0x100_0000 * Binary32::unit() * d) <= n <= 0x100_0000 * Binary32::unit() * d,
    ensures
        r.finite(),
        16777215real * size((y - x) * m) <= size(x * m) + d as real * 0x80_0000real,
{
    let f = Format::Single;
    lemma_format_constants(f);
    lemma_bounded_rounding(n, d);
    lemma_rounding_error(f, n, d);
    assert(r.finite());
    assert(f.hidden() == 0x80_0000);
    let e = r.value() * d - n;
    let sz = if n < 0 {
        -n
    } else {
        n
    };
    let di = d as int;
    assert(-(sz + di * 0x80_0000) <= e * 0xff_ffff <= sz + di * 0x80_0000);
    assert(e as real == (r.value() * d) as real - n as real);
    lemma_common_factor(y, x, m);
    assert(e as real == (y - x) * m);
    assert(size(x * m) == sz as real);
}

/// A product is off by at most one part in `2^24`, or by next to nothing.
pub proof fn lemma_product_error(a: Binary32, b: Binary32)
    requires
        a.finite(),
        b.finite(),
        size(number(a) * number(b)) <= 16777216real,
    ensures
        a.times(b).finite(),
        16777215real * size(number(a.times(b)) - number(a) * number(b)) <= size(
            number(a) * number(b),
        ) + tiny(),
{
    let u = Binary32::unit() as int;
    let ur = u as real;
    let m = ur * ur;
    let (x, y) = (number(a), number(b));
    let r = a.times(b);
    lemma_number(a);
    lemma_number(b);
    lemma_number(r);
    lemma_tiny();
    a.lemma_times(b);
    lemma_product_sign(ur, ur);
    // The product of the units.
    let n = a.value() * b.value();
    lemma_integer_product(a.value(), b.value());
    lemma_product_of_units(x, y, ur);
    lemma_integer_product(r.value(), u);
    lemma_associates(number(r), ur, ur);
    assert((r.value() * u) as real == number(r) * m);
    lemma_integer_product(u, u);
    assert(u * u > 0) by (nonlinear_arith)
        requires
            u > 0,
    ;
    lemma_bound_in_units(n, u * u, x * y);
    assert(0x100_0000 * (u * u) == 0x100_0000 * u * u) by (nonlinear_arith);
    lemma_fraction(r, n, u as nat, m, x * y, number(r));
    lemma_associates(tiny(), ur, ur);
    lemma_error_in_numbers(number(r) - x * y, x * y, tiny(), m);
}

/// Factors grouped the other way.
pub proof fn lemma_associates(a: real, b: real, c: real)
    ensures
        (a * b) * c == a * (b * c),
{
    lemma_commutes(a * b, c);
    lemma_commutes(b, c);
    lemma_regrouped(a, c, b);
}

proof fn lemma_product_of_units(x: real, y: real, u: real)
    ensures
        (x * u) * (y * u) == (x * y) * (u * u),
{
    lemma_associates(x, u, y * u);
    lemma_regrouped(y, u, u);
    lemma_associates(x, y, u * u);
}

/// A quotient times its divisor is off by at most one part in `2^24`, or by next to nothing of the
/// divisor.
pub proof fn lemma_quotient_error(a: Binary32, b: Binary32)
    requires
        a.finite(),
        b.finite(),
        b.value() != 0,
        size(number(a)) <= 16777216real * size(number(b)),
    ensures
        a.over(b).finite(),
        16777215real * size(number(a.over(b)) * number(b) - number(a)) <= size(number(a)) + tiny()
            * size(number(b)),
{
    if b.value() > 0 {
        lemma_positive_quotient(a, b);
    } else {
        let (p, q) = (a.negated(), b.negated());
        a.lemma_negated();
        b.lemma_negated();
        lemma_opposite_number(a);
        lemma_opposite_number(b);
        lemma_positive_quotient(p, q);
        assert(a.over(b) == p.over(q)) by {
            reveal(Binary32::spec_over);
            let f = Format::Single;
            Binary32::lemma_constants(a);
            Binary32::lemma_constants(b);
            crate::ieee::facts::lemma_opposite_value(f, a.bits as nat);
            crate::ieee::facts::lemma_opposite_value(f, b.bits as nat);
            lemma_format_constants(f);
        }
        lemma_opposite_factor(number(a.over(b)), number(b));
    }
}

/// The opposite pattern stands for the opposite number.
pub proof fn lemma_opposite_number(a: Binary32)
    ensures
        number(a.negated()) == -number(a),
{
    a.lemma_negated();
    lemma_number(a);
    lemma_number(a.negated());
    let u = Binary32::unit() as real;
    lemma_commutes(number(a), u);
    lemma_commutes(-number(a), u);
    lemma_opposite_factor(u, number(a));
    crate::laws::reals::lemma_cancels(number(a.negated()), -number(a), u);
}

proof fn lemma_positive_quotient(a: Binary32, b: Binary32)
    requires
        a.finite(),
        b.finite(),
        b.value() > 0,
        size(number(a)) <= 16777216real * size(number(b)),
    ensures
        a.over(b).finite(),
        16777215real * size(number(a.over(b)) * number(b) - number(a)) <= size(number(a)) + tiny()
            * size(number(b)),
{
    let u = Binary32::unit() as int;
    let ur = u as real;
    let m = ur * ur;
    let (x, y) = (number(a), number(b));
    let r = a.over(b);
    let q = number(r);
    lemma_number(a);
    lemma_number(b);
    lemma_number(r);
    lemma_tiny();
    a.lemma_over(b);
    lemma_product_sign(ur, ur);
    let n = a.value() * u;
    let d = b.value() as nat;
    lemma_integer_product(a.value(), u);
    lemma_associates(x, ur, ur);
    assert(n as real == x * m);
    lemma_integer_product(r.value(), b.value());
    lemma_product_of_units(q, y, ur);
    assert((r.value() * d) as real == (q * y) * m);
    // The bound on the quotient.
    let k = u * b.value();
    lemma_integer_product(u, b.value());
    lemma_commutes(ur, y * ur);
    lemma_associates(y, ur, ur);
    assert(k as real == y * m);
    assert(k > 0) by (nonlinear_arith)
        requires
            k == u * b.value(),
            u > 0,
            b.value() > 0,
    ;
    lemma_product_sign(m, 16777216real * y - x);
    lemma_product_sign(m, 16777216real * y + x);
    lemma_distributes_difference(m, 16777216real * y, x);
    lemma_distributes(m, 16777216real * y, x);
    lemma_regrouped(16777216real, m, y);
    lemma_commutes(m, x);
    lemma_commutes(m, y);
    assert(-(0x100_0000 * k) <= n <= 0x100_0000 * k);
    assert(0x100_0000 * k == 0x100_0000 * u * d) by (nonlinear_arith)
        requires
            k == u * b.value(),
            d == b.value(),
    ;
    lemma_fraction(r, n, d, m, x, q * y);
    // Half a unit is next to nothing of the divisor.
    lemma_commutes(tiny(), y);
    lemma_associates(y, tiny(), m);
    lemma_associates(tiny(), ur, ur);
    lemma_regrouped(0x80_0000real, y, ur);
    assert((tiny() * y) * m == y * (0x80_0000real * ur));
    assert((tiny() * y) * m == 0x80_0000real * (y * ur));
    lemma_error_in_numbers(q * y - x, x, tiny() * y, m);
}

/// Whether every component of a colour is a number from `[0, 1]`.
pub open spec fn is_unit(x: Binary32) -> bool {
    x.finite() && 0 <= x.value() <= Binary32::unit()
}

/// Whether every component of a colour is a number from `[0, 1]`.
pub open spec fn is_unit_color(color: Color) -> bool {
    is_unit(color.r) && is_unit(color.g) && is_unit(color.b) && is_unit(color.a)
}

/// What a number from `[0, 1]` is.
pub proof fn lemma_unit(x: Binary32)
    requires
        is_unit(x),
    ensures
        0real <= number(x) <= 1real,
{
    lemma_number(x);
    Binary32::lemma_constants(x);
    lemma_number_order(x, Binary32::one());
}

/// A product of numbers from `[0, 1]` is one.
pub proof fn lemma_unit_product(a: Binary32, b: Binary32)
    requires
        is_unit(a),
        is_unit(b),
    ensures
        is_unit(a.times(b)),
        a.times(b).value() <= a.value(),
        a.times(b).value() <= b.value(),
{
    let f = Format::Single;
    let u = Binary32::unit() as int;
    Binary32::lemma_constants(a);
    Binary32::lemma_constants(b);
    a.lemma_times(b);
    let n = a.value() * b.value();
    let t = a.value() * u;
    assert(0 <= n <= t && n * u <= t * u) by (nonlinear_arith)
        requires
            n == a.value() * b.value(),
            t == a.value() * u,
            0 <= a.value(),
            0 <= b.value() <= u,
            u > 0,
    ;
    lemma_rounded_monotone(f, n, u as nat, t, u as nat);
    lemma_rounded_exact(f, a.bits as nat, u as nat);
    let o = b.value() * u;
    assert(n <= o && n * u <= o * u) by (nonlinear_arith)
        requires
            n == a.value() * b.value(),
            o == b.value() * u,
            0 <= a.value() <= u,
            0 <= b.value(),
            u > 0,
    ;
    lemma_rounded_monotone(f, n, u as nat, o, u as nat);
    lemma_rounded_exact(f, b.bits as nat, u as nat);
    crate::ieee::facts::lemma_rounded_sign(f, n, u as nat);
    let r = a.times(b);
    Binary32::lemma_constants(r);
    lemma_format_constants(f);
    lemma_mag_order(f, f.body(r.bits as nat), f.inf());
    lemma_mag_order(f, f.body(a.bits as nat), f.inf());
}

/// The error of a sum of two numbers that are themselves off.
proof fn lemma_sum_of_errors(
    a: Binary32,
    b: Binary32,
    x: real,
    y: real,
    d: real,
    e: real,
    p: real,
    q: real,
)
    requires
        a.finite(),
        b.finite(),
        size(number(a) - x) <= d,
        size(number(b) - y) <= e,
        size(x) <= p,
        size(y) <= q,
        p + q + d + e <= 16777216real,
    ensures
        a.plus(b).finite(),
        16777215real * size(number(a.plus(b)) - (x + y)) <= 16777215real * (d + e) + (p + q + d
            + e),
{
    lemma_sum_error(a, b);
}

proof fn lemma_term(k: Binary32, c: Binary32)
    requires
        k.finite(),
        size(number(k)) <= 8388608real,
        is_unit(c),
    ensures
        k.times(c).finite(),
        16777215real * size(number(k.times(c)) - number(k) * number(c)) <= size(number(k))
            + tiny(),
        size(number(k) * number(c)) <= size(number(k)),
{
    lemma_unit(c);
    lemma_bounded_product(number(k), number(c), 1real);
    lemma_product_of_one(size(number(k)));
    lemma_product_error(k, c);
}

/// The sum of the three terms that the colour channels give.
spec fn three_terms(row: Row, color: Color) -> Binary32 {
    row.r.times(color.r).plus(row.g.times(color.g)).plus(row.b.times(color.b))
}

proof fn lemma_three_terms(row: Row, color: Color, w: real)
    requires
        is_unit_color(color),
        row.r.finite() && row.g.finite() && row.b.finite(),
        w == size(number(row.r)) + size(number(row.g)) + size(number(row.b)),
        w <= 4194304real,
    ensures
        ({
            let v = vector(color);
            let x = number(row.r) * v.r + number(row.g) * v.g + number(row.b) * v.b;
            let l = three_terms(row, color);
            &&& l.finite()
            &&& 16777215real * (4real * size(number(l) - x)) <= 13real * w + 1real
            &&& size(x) <= w
        }),
{
    let (r, g, b) = (size(number(row.r)), size(number(row.g)), size(number(row.b)));
    let v = vector(color);
    lemma_tiny();
    lemma_term(row.r, color.r);
    lemma_term(row.g, color.g);
    lemma_term(row.b, color.b);
    let (pr, pg, pb) = (row.r.times(color.r), row.g.times(color.g), row.b.times(color.b));
    let (xr, xg, xb) = (number(row.r) * v.r, number(row.g) * v.g, number(row.b) * v.b);
    let (er, eg, eb) = (size(number(pr) - xr), size(number(pg) - xg), size(number(pb) - xb));
    lemma_sum_of_errors(pr, pg, xr, xg, er, eg, r, g);
    let s = pr.plus(pg);
    let es = size(number(s) - (xr + xg));
    lemma_sum_of_errors(s, pb, xr + xg, xb, es, eb, r + g, b);
    lemma_three_errors(r, g, b, er, eg, eb, es, size(number(s.plus(pb)) - (xr + xg + xb)), tiny());
}

proof fn lemma_three_errors(
    r: real,
    g: real,
    b: real,
    er: real,
    eg: real,
    eb: real,
    es: real,
    e: real,
    t: real,
)
    requires
        r >= 0real && g >= 0real && b >= 0real,
        0real < 16777216real * t <= 1real,
        16777215real * er <= r + t,
        16777215real * eg <= g + t,
        16777215real * eb <= b + t,
        16777215real * es <= 16777215real * (er + eg) + (r + g + er + eg),
        16777215real * e <= 16777215real * (es + eb) + (r + g + b + es + eb),
    ensures
        16777215real * (4real * e) <= 13real * (r + g + b) + 1real,
{
}

proof fn lemma_last_errors(
    w: real,
    a: real,
    o: real,
    el: real,
    ep: real,
    em: real,
    e: real,
    t: real,
    k: real,
)
    requires
        w >= 0real && a >= 0real && o >= 0real,
        w + a + o <= k,
        1real <= k,
        0real < 16777216real * t <= 1real,
        16777215real * (4real * el) <= 13real * w + 1real,
        16777215real * ep <= a + t,
        16777215real * em <= 16777215real * (el + ep) + (w + a + el + ep),
        16777215real * e <= 16777215real * em + (w + a + o + em),
    ensures
        16777215real * e <= 8real * k,
        16777215real * em <= 8real * k,
        em <= k,
{
}

/// A row sum is off by at most eight parts in `2^24` of what the coefficients come to.
pub proof fn lemma_row_error(row: Row, color: Color, premultiplied: bool, k: real)
    requires
        is_unit_color(color),
        is_row_within(row, k),
        1real <= k <= 4194304real,
    ensures
        row.combine_vector(color, premultiplied).finite(),
        16777215real * size(
            number(row.combine_vector(color, premultiplied)) - row_sum(
                row,
                vector(color),
                premultiplied,
            ),
        ) <= 8real * k,
        size(row_sum(row, vector(color), premultiplied)) <= k,
{
    let (a, o) = (size(number(row.a)), size(number(row.offset)));
    let w = size(number(row.r)) + size(number(row.g)) + size(number(row.b));
    let v = vector(color);
    lemma_tiny();
    let t = tiny();
    lemma_three_terms(row, color, w);
    let l = three_terms(row, color);
    let x = number(row.r) * v.r + number(row.g) * v.g + number(row.b) * v.b;
    let el = size(number(l) - x);
    if premultiplied {
        lemma_term(row.offset, color.a);
        let p = row.offset.times(color.a);
        let y = number(row.offset) * v.a;
        let ep = size(number(p) - y);
        lemma_sum_of_errors(l, p, x, y, el, ep, w, o);
        let em = size(number(l.plus(p)) - (x + y));
        lemma_last_errors(w, o, 0real, el, ep, em, em, t, k);
    } else {
        lemma_term(row.a, color.a);
        let p = row.a.times(color.a);
        let y = number(row.a) * v.a;
        let ep = size(number(p) - y);
        lemma_sum_of_errors(l, p, x, y, el, ep, w, a);
        let m = l.plus(p);
        let em = size(number(m) - (x + y));
        let z = number(row.offset);
        lemma_last_errors(w, a, o, el, ep, em, em, t, k);
        lemma_sum_of_errors(m, row.offset, x + y, z, em, 0real, w + a, o);
        let e = size(number(m.plus(row.offset)) - (x + y + z));
        lemma_last_errors(w, a, o, el, ep, em, e, t, k);
    }
}

/// A value that is interpolated between two that are not above `b` is off by at most eight parts
/// in `2^24` of it.
pub proof fn lemma_mix_error(x: Binary32, y: Binary32, s: Binary32, b: real)
    requires
        x.finite(),
        y.finite(),
        size(number(x)) <= b,
        size(number(y)) <= b,
        1real <= b <= 4194304real,
        is_unit(s),
    ensures
        mix(x, y, s).finite(),
        16777215real * size(number(mix(x, y, s)) - blend(number(x), number(y), number(s)))
            <= 8real * b,
{
    let (p, q, t) = (number(x), number(y), number(s));
    lemma_unit(s);
    lemma_tiny();
    lemma_difference_error(y, x);
    let d = y.minus(x);
    let e = number(d) - (q - p);
    // The product with the difference that was rounded, and with the exact one.
    lemma_bounded_product(number(d), t, 1real);
    lemma_commutes(number(d), t);
    lemma_product_of_one(size(number(d)));
    lemma_product_error(s, d);
    lemma_bounded_product(e, t, 1real);
    lemma_product_of_one(size(e));
    lemma_commutes(e, t);
    lemma_distributes(t, q - p, e);
    assert(t * number(d) == t * (q - p) + t * e);
    let m = s.times(d);
    let z = blend(p, q, t);
    if p <= q {
        crate::laws::exact::lemma_blend_between(p, q, t);
    } else {
        crate::laws::stability::lemma_blend_reversed(p, q, t);
        crate::laws::exact::lemma_blend_between(q, p, 1real - t);
    }
    assert(size(z) <= b);
    lemma_sum_error(x, m);
}

/// Premultiplying a colour is off by at most two parts in `2^24`.
pub proof fn lemma_premultiplying_error(color: Color)
    requires
        is_unit_color(color),
    ensures
        is_unit_color(to_vector(color, true)),
        8388607real * size(number(color.r.times(color.a)) - number(color.r) * number(color.a))
            <= 1real,
        8388607real * size(number(color.g.times(color.a)) - number(color.g) * number(color.a))
            <= 1real,
        8388607real * size(number(color.b.times(color.a)) - number(color.b) * number(color.a))
            <= 1real,
{
    lemma_unit_product(color.r, color.a);
    lemma_unit_product(color.g, color.a);
    lemma_unit_product(color.b, color.a);
    lemma_unit(color.r);
    lemma_unit(color.g);
    lemma_unit(color.b);
    lemma_tiny();
    lemma_term(color.r, color.a);
    lemma_term(color.g, color.a);
    lemma_term(color.b, color.a);
}

/// What the matrix makes of a premultiplied vector is the alpha times what it makes of the colour,
/// in the arithmetic that is painted with: up to so many parts in `2^24` of what the coefficients
/// of a row come to. Alpha comes out as it went in, and nothing is clamped.
pub proof fn law_premultiplied_vectors_are_scaled_up_to_rounding(
    matrix: ColorMatrix,
    color: Color,
    k: real,
)
    requires
        matrix.has_no_alpha_column(),
        is_matrix_within(matrix, k),
        1real <= k <= 4194304real,
        is_unit_color(color),
    ensures
        ({
            let plain = vector(matrix.apply_vector(color, false));
            let scaled = vector(matrix.apply_vector(to_vector(color, true), true));
            let a = number(color.a);
            &&& 16777215real * size(scaled.r - a * plain.r) <= 19real * k
            &&& 16777215real * size(scaled.g - a * plain.g) <= 19real * k
            &&& 16777215real * size(scaled.b - a * plain.b) <= 19real * k
            &&& matrix.apply_vector(color, false).a == color.a
            &&& matrix.apply_vector(to_vector(color, true), true).a == color.a
        }),
{
    lemma_scaled_row(matrix.red, color, k);
    lemma_scaled_row(matrix.green, color, k);
    lemma_scaled_row(matrix.blue, color, k);
}

proof fn lemma_scaled_row(row: Row, color: Color, k: real)
    requires
        row.a.equals(Binary32::zero()),
        is_row_within(row, k),
        1real <= k <= 4194304real,
        is_unit_color(color),
    ensures
        16777215real * size(
            number(row.combine_vector(to_vector(color, true), true)) - number(color.a) * number(
                row.combine_vector(color, false),
            ),
        ) <= 19real * k,
{
    let w = to_vector(color, true);
    let v = vector(color);
    let a = number(color.a);
    lemma_unit(color.a);
    lemma_premultiplying_error(color);
    lemma_row_error(row, w, true, k);
    lemma_row_error(row, color, false, k);
    crate::laws::exact::law_premultiplied_sums_are_scaled_sums(row, v);
    let e = 1real / 8388607real;
    lemma_quotient(1real, 8388607real);
    assert(is_close(vector(w), crate::laws::exact::scaled_by_alpha(v), e));
    crate::laws::stability::lemma_close_sums(
        row,
        vector(w),
        crate::laws::exact::scaled_by_alpha(v),
        true,
        k,
        e,
    );
    lemma_commutes(k, e);
    lemma_associates(8388607real, e, k);
    lemma_product_of_one(k);
    lemma_commutes(e, 8388607real);
    assert(8388607real * (e * k) == k);
    let q = number(row.combine_vector(color, false));
    let x = row_sum(row, v, false);
    lemma_distributes_difference(a, q, x);
    lemma_bounded_product(q - x, a, 1real);
    lemma_commutes(q - x, a);
    lemma_product_of_one(size(q - x));
}

} // verus!
