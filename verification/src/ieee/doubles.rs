//! The rounding facts, on numbers.

use super::facts::{
    lemma_difference_value, lemma_infinite_result, lemma_one, lemma_opposite_value,
    lemma_product_value, lemma_quotient_value, lemma_remainder_value, lemma_sum_value,
    lemma_value_zero, lemma_whole_value,
};
use super::facts::{lemma_ceil_value, lemma_floor_value};
use super::model::{lemma_format_constants, Format};
use super::numbers::Binary64;
use vstd::prelude::*;

verus! {

impl Binary64 {
    /// The value, in units, that the fraction `n / d` of units rounds to.
    pub open spec fn rounded(n: int, d: nat) -> int {
        Format::Double.rounded(n, d)
    }

    /// Every bit pattern is one of the format, and the constants have their values.
    pub proof fn lemma_constants(x: Binary64)
        ensures
            Format::Double.valid(x.bits as nat),
            Binary64::zero().value() == 0,
            Binary64::zero().finite(),
            Binary64::one().value() == Binary64::unit(),
            Binary64::one().finite(),
            Binary64::unit() > 0,
    {
        lemma_format_constants(Format::Double);
        lemma_value_zero(Format::Double, 0);
        lemma_one(Format::Double, Binary64::one().bits as nat);
        vstd::arithmetic::power2::lemma_pow2_pos(Format::Double.unit_exponent());
    }

    /// A sum.
    pub proof fn lemma_plus(self, other: Binary64)
        requires
            self.finite(),
            other.finite(),
        ensures
            !self.plus(other).nan(),
            self.plus(other).value() == Binary64::rounded(self.value() + other.value(), 1),
    {
        reveal(Binary64::spec_plus);
        lemma_sum_value(Format::Double, self.bits as nat, other.bits as nat);
    }

    /// A difference.
    pub proof fn lemma_minus(self, other: Binary64)
        requires
            self.finite(),
            other.finite(),
        ensures
            !self.minus(other).nan(),
            self.minus(other).value() == Binary64::rounded(self.value() - other.value(), 1),
    {
        reveal(Binary64::spec_minus);
        lemma_difference_value(Format::Double, self.bits as nat, other.bits as nat);
    }

    /// A product.
    pub proof fn lemma_times(self, other: Binary64)
        requires
            self.finite(),
            other.finite(),
        ensures
            !self.times(other).nan(),
            self.times(other).value() == Binary64::rounded(
                self.value() * other.value(),
                Binary64::unit(),
            ),
    {
        reveal(Binary64::spec_times);
        lemma_product_value(Format::Double, self.bits as nat, other.bits as nat);
    }

    /// A quotient by a positive number.
    pub proof fn lemma_over(self, other: Binary64)
        requires
            self.finite(),
            other.finite(),
            other.value() > 0,
        ensures
            !self.over(other).nan(),
            self.over(other).value() == Binary64::rounded(
                self.value() * Binary64::unit(),
                other.value() as nat,
            ),
            self.over(other).negative() == self.negative(),
    {
        reveal(Binary64::spec_over);
        lemma_quotient_value(Format::Double, self.bits as nat, other.bits as nat);
    }

    /// An infinity with a finite number taken away, and divided by a positive one.
    pub proof fn lemma_infinite(self, other: Binary64)
        requires
            !self.nan(),
            !self.finite(),
            other.finite(),
        ensures
            self.plus(other) == self,
            self.minus(other) == self,
            other.value() > 0 ==> self.over(other) == self,
    {
        reveal(Binary64::spec_plus);
        reveal(Binary64::spec_minus);
        reveal(Binary64::spec_over);
        lemma_infinite_result(Format::Double, self.bits as nat, other.bits as nat);
    }

    /// The remainder by a positive number.
    pub proof fn lemma_modulo(self, other: Binary64)
        requires
            self.finite(),
            other.finite(),
            other.value() > 0,
        ensures
            self.modulo(other).finite(),
            self.modulo(other).negative() == self.negative(),
            -other.value() <= self.modulo(other).value() <= other.value(),
    {
        reveal(Binary64::spec_modulo);
        lemma_remainder_value(Format::Double, self.bits as nat, other.bits as nat);
    }

    /// The opposite.
    pub proof fn lemma_negated(self)
        ensures
            self.negated().value() == -self.value(),
            self.negated().finite() == self.finite(),
            self.negated().nan() == self.nan(),
    {
        lemma_opposite_value(Format::Double, self.bits as nat);
    }

    /// The sign bit and the sign agree, up to the two zeros.
    pub proof fn lemma_sign(self)
        ensures
            self.negative() ==> self.value() <= 0,
            !self.negative() ==> self.value() >= 0,
    {
    }

    /// Whole numbers of moderate size are exact.
    pub proof fn lemma_from_unsigned(k: u64)
        requires
            k <= 0x20_0000_0000_0000,
        ensures
            Binary64::from_unsigned(k).finite(),
            !Binary64::from_unsigned(k).negative(),
            Binary64::from_unsigned(k).value() == k * Binary64::unit(),
    {
        lemma_whole_value(Format::Double, false, k as nat);
    }

    /// The floor.
    pub proof fn lemma_floor(self)
        requires
            self.finite(),
        ensures
            !self.floor().nan(),
            self.floor().value() == (self.value() / (Binary64::unit() as int)) * Binary64::unit(),
    {
        lemma_floor_value(Format::Double, self.bits as nat);
    }

    /// The ceiling.
    pub proof fn lemma_ceil(self)
        requires
            self.finite(),
        ensures
            !self.ceil().nan(),
            self.ceil().value() == -((-self.value()) / (Binary64::unit() as int))
                * Binary64::unit(),
    {
        lemma_ceil_value(Format::Double, self.bits as nat);
    }

    /// Infinities are whole.
    pub proof fn lemma_floor_infinite(self)
        requires
            !self.finite(),
        ensures
            self.floor() == self,
            self.ceil() == self,
    {
        lemma_opposite_value(Format::Double, self.bits as nat);
    }
}

} // verus!
