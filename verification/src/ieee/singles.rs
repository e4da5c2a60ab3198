//! The rounding facts, on numbers.

use super::facts::{
    lemma_difference_value, lemma_infinite_result, lemma_one, lemma_opposite_value,
    lemma_product_value, lemma_quotient_value, lemma_remainder_value, lemma_sum_value,
    lemma_unbounded_result, lemma_value_zero, lemma_whole_value,
};
use super::model::{lemma_format_constants, Format};
use super::numbers::Binary32;
use vstd::prelude::*;

verus! {

impl Binary32 {
    /// The value, in units, that the fraction `n / d` of units rounds to.
    pub open spec fn rounded(n: int, d: nat) -> int {
        Format::Single.rounded(n, d)
    }

    /// Every bit pattern is one of the format, and the constants have their values.
    pub proof fn lemma_constants(x: Binary32)
        ensures
            Format::Single.valid(x.bits as nat),
            Binary32::zero().value() == 0,
            Binary32::zero().finite(),
            Binary32::one().value() == Binary32::unit(),
            Binary32::one().finite(),
            Binary32::unit() > 0,
    {
        lemma_format_constants(Format::Single);
        lemma_value_zero(Format::Single, 0);
        lemma_one(Format::Single, Binary32::one().bits as nat);
        vstd::arithmetic::power2::lemma_pow2_pos(Format::Single.unit_exponent());
    }

    /// A sum.
    pub proof fn lemma_plus(self, other: Binary32)
        requires
            self.finite(),
            other.finite(),
        ensures
            !self.plus(other).nan(),
            self.plus(other).value() == Binary32::rounded(self.value() + other.value(), 1),
    {
        reveal(Binary32::spec_plus);
        lemma_sum_value(Format::Single, self.bits as nat, other.bits as nat);
    }

    /// A difference.
    pub proof fn lemma_minus(self, other: Binary32)
        requires
            self.finite(),
            other.finite(),
        ensures
            !self.minus(other).nan(),
            self.minus(other).value() == Binary32::rounded(self.value() - other.value(), 1),
    {
        reveal(Binary32::spec_minus);
        lemma_difference_value(Format::Single, self.bits as nat, other.bits as nat);
    }

    /// A product.
    pub proof fn lemma_times(self, other: Binary32)
        requires
            self.finite(),
            other.finite(),
        ensures
            !self.times(other).nan(),
            self.times(other).value() == Binary32::rounded(
                self.value() * other.value(),
                Binary32::unit(),
            ),
    {
        reveal(Binary32::spec_times);
        lemma_product_value(Format::Single, self.bits as nat, other.bits as nat);
    }

    /// A quotient by a positive number.
    pub proof fn lemma_over(self, other: Binary32)
        requires
            self.finite(),
            other.finite(),
            other.value() > 0,
        ensures
            !self.over(other).nan(),
            self.over(other).value() == Binary32::rounded(
                self.value() * Binary32::unit(),
                other.value() as nat,
            ),
            self.over(other).negative() == self.negative(),
    {
        reveal(Binary32::spec_over);
        lemma_quotient_value(Format::Single, self.bits as nat, other.bits as nat);
    }

    /// An infinity with a finite number taken away, and divided by a positive one.
    pub proof fn lemma_infinite(self, other: Binary32)
        requires
            !self.nan(),
            !self.finite(),
            other.finite(),
        ensures
            self.plus(other) == self,
            self.minus(other) == self,
            other.value() > 0 ==> self.over(other) == self,
    {
        reveal(Binary32::spec_plus);
        reveal(Binary32::spec_minus);
        reveal(Binary32::spec_over);
        lemma_infinite_result(Format::Single, self.bits as nat, other.bits as nat);
    }

    /// The remainder by a positive number.
    pub proof fn lemma_modulo(self, other: Binary32)
        requires
            self.finite(),
            other.finite(),
            other.value() > 0,
        ensures
            self.modulo(other).finite(),
            self.modulo(other).negative() == self.negative(),
            -other.value() <= self.modulo(other).value() <= other.value(),
    {
        reveal(Binary32::spec_modulo);
        lemma_remainder_value(Format::Single, self.bits as nat, other.bits as nat);
    }

    /// The opposite.
    pub proof fn lemma_negated(self)
        ensures
            self.negated().value() == -self.value(),
            self.negated().finite() == self.finite(),
            self.negated().nan() == self.nan(),
    {
        lemma_opposite_value(Format::Single, self.bits as nat);
    }

    /// The sign bit and the sign agree, up to the two zeros.
    pub proof fn lemma_sign(self)
        ensures
            self.negative() ==> self.value() <= 0,
            !self.negative() ==> self.value() >= 0,
    {
    }

    /// Whole numbers of moderate size are exact.
    pub proof fn lemma_from_unsigned(k: u64)
        requires
            k <= 0x100_0000,
        ensures
            Binary32::from_unsigned(k).finite(),
            !Binary32::from_unsigned(k).negative(),
            Binary32::from_unsigned(k).value() == k * Binary32::unit(),
    {
        lemma_whole_value(Format::Single, false, k as nat);
    }

    /// What is not finite stays so under sums, differences and products.
    pub proof fn lemma_unbounded(self, other: Binary32)
        requires
            !self.finite() || !other.finite(),
        ensures
            !self.plus(other).finite(),
            !self.minus(other).finite(),
            !self.times(other).finite(),
    {
        reveal(Binary32::spec_plus);
        reveal(Binary32::spec_minus);
        reveal(Binary32::spec_times);
        lemma_format_constants(Format::Single);
        lemma_unbounded_result(Format::Single, self.bits as nat, other.bits as nat);
    }
}

} // verus!
