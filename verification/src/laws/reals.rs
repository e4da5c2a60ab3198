//! Products and sizes of real numbers.

use vstd::prelude::*;

verus! {

/// A product with zero.
pub proof fn lemma_product_of_zero(a: real)
    ensures
        0real * a == 0real,
        a * 0real == 0real,
{
}

/// A product with one.
pub proof fn lemma_product_of_one(a: real)
    ensures
        1real * a == a,
        a * 1real == a,
{
}

/// The order of factors.
pub proof fn lemma_commutes(a: real, b: real)
    ensures
        a * b == b * a,
{
    assert(a * b == b * a) by (nonlinear_arith);
}

/// A factor moved to the front.
pub proof fn lemma_moved_factor(a: real, b: real, c: real)
    ensures
        a * (b * c) == c * (a * b),
{
    assert(a * (b * c) == c * (a * b)) by (nonlinear_arith);
}

/// A product with a sum.
pub proof fn lemma_distributes(a: real, b: real, c: real)
    ensures
        a * (b + c) == a * b + a * c,
{
    assert(a * (b + c) == a * b + a * c) by (nonlinear_arith);
}

/// A product with a difference.
pub proof fn lemma_distributes_difference(a: real, b: real, c: real)
    ensures
        a * (b - c) == a * b - a * c,
{
    assert(a * (b - c) == a * b - a * c) by (nonlinear_arith);
}

/// A product with an opposite.
pub proof fn lemma_opposite_factor(a: real, b: real)
    ensures
        a * (-b) == -(a * b),
{
    assert(a * (-b) == -(a * b)) by (nonlinear_arith);
}

/// The sign of a product.
pub proof fn lemma_product_sign(a: real, b: real)
    requires
        a >= 0real,
        b >= 0real,
    ensures
        a * b >= 0real,
        a > 0real && b > 0real ==> a * b > 0real,
{
    if a > 0real && b > 0real {
        assert(a * b > 0real) by (nonlinear_arith)
            requires
                a > 0real,
                b > 0real,
        ;
    } else if a == 0real {
        lemma_product_of_zero(b);
    } else {
        lemma_product_of_zero(a);
    }
}

/// A positive factor keeps order.
pub proof fn lemma_cancels(a: real, b: real, c: real)
    requires
        c > 0real,
    ensures
        a < b <==> a * c < b * c,
        a == b <==> a * c == b * c,
{
    lemma_commutes(a, c);
    lemma_commutes(b, c);
    lemma_distributes_difference(c, b, a);
    lemma_distributes_difference(c, a, b);
    if a < b {
        lemma_product_sign(c, b - a);
    } else if b < a {
        lemma_product_sign(c, a - b);
    }
}

/// A quotient times its divisor.
pub proof fn lemma_quotient(a: real, b: real)
    requires
        b > 0real,
    ensures
        (a / b) * b == a,
{
    assert((a / b) * b == a) by (nonlinear_arith)
        requires
            b > 0real,
    ;
}

/// Factors in another order.
pub proof fn lemma_regrouped(a: real, b: real, c: real)
    ensures
        b * (a * c) == a * (b * c),
{
    assert(b * (a * c) == a * (b * c)) by (nonlinear_arith);
}

/// The absolute value.
pub open spec fn size(x: real) -> real {
    if x < 0real {
        -x
    } else {
        x
    }
}

/// A factor that is not negative keeps order.
pub proof fn lemma_ordered_products(a: real, b: real, c: real)
    requires
        a >= 0real,
        b <= c,
    ensures
        a * b <= a * c,
{
    lemma_product_sign(a, c - b);
    lemma_distributes_difference(a, c, b);
}

/// The size of a product.
pub proof fn lemma_size_of_product(a: real, b: real)
    ensures
        size(a * b) == size(a) * size(b),
{
    lemma_opposite_factor(a, b);
    lemma_commutes(a, b);
    lemma_opposite_factor(b, a);
    lemma_commutes(-a, b);
    lemma_opposite_factor(-a, b);
    lemma_product_sign(size(a), size(b));
}

/// A product with something bounded.
pub proof fn lemma_bounded_product(a: real, b: real, c: real)
    requires
        size(b) <= c,
    ensures
        size(a * b) <= size(a) * c,
{
    lemma_size_of_product(a, b);
    lemma_ordered_products(size(a), size(b), c);
}

/// A sum with a common factor.
pub proof fn lemma_common_factor(a: real, b: real, c: real)
    ensures
        (a + b) * c == a * c + b * c,
        (a - b) * c == a * c - b * c,
{
    lemma_commutes(a + b, c);
    lemma_commutes(a - b, c);
    lemma_commutes(a, c);
    lemma_commutes(b, c);
    lemma_distributes(c, a, b);
    lemma_distributes_difference(c, a, b);
}

/// A product of integers is the product of the numbers.
pub proof fn lemma_integer_product(a: int, b: int)
    ensures
        (a * b) as real == (a as real) * (b as real),
    decreases if b < 0 {
        -b
    } else {
        b
    },
{
    let x = a as real;
    if b == 0 {
        lemma_product_of_zero(x);
        assert(a * b == 0) by (nonlinear_arith)
            requires
                b == 0,
        ;
    } else if b > 0 {
        lemma_integer_product(a, b - 1);
        assert(a * b == a * (b - 1) + a) by (nonlinear_arith);
        lemma_distributes_difference(x, b as real, 1real);
        lemma_product_of_one(x);
        assert((b - 1) as real == b as real - 1real);
    } else {
        lemma_integer_product(a, b + 1);
        assert(a * b == a * (b + 1) - a) by (nonlinear_arith);
        lemma_distributes(x, b as real, 1real);
        lemma_product_of_one(x);
        assert((b + 1) as real == b as real + 1real);
    }
}

} // verus!
