//! The two number types.

use super::arith;
use super::model::Format;
use super::ops;
use vstd::prelude::*;

verus! {

/// A number in the 32-bit format.
#[derive(Clone, Copy, Debug, PartialEq, Eq, Structural)]
pub struct Binary32 {
    /// The bit pattern: sign, exponent field, fraction field.
    pub bits: u32,
}

impl Binary32 {
    /// The signed value in units, the smallest positive subnormal being one unit.
    pub open spec fn value(self) -> int {
        Format::Single.value(self.bits as nat)
    }

    /// Neither an infinity nor a NaN.
    pub open spec fn finite(self) -> bool {
        Format::Single.is_finite(self.bits as nat)
    }

    /// Not a number.
    pub open spec fn nan(self) -> bool {
        Format::Single.is_nan(self.bits as nat)
    }

    /// Whether the sign bit is set.
    pub open spec fn negative(self) -> bool {
        Format::Single.negative(self.bits as nat)
    }

    /// The number of units in one.
    pub open spec fn unit() -> nat {
        Format::Single.one()
    }

    pub open spec fn spec_from_bits(bits: u32) -> Binary32 {
        Binary32 { bits }
    }

    /// The number with the given bit pattern.
    #[verifier::when_used_as_spec(spec_from_bits)]
    pub fn from_bits(bits: u32) -> (r: Binary32)
        ensures
            r == Binary32::spec_from_bits(bits),
    {
        Binary32 { bits }
    }

    pub open spec fn spec_zero() -> Binary32 {
        Binary32 { bits: 0 }
    }

    /// `0.0`
    #[verifier::when_used_as_spec(spec_zero)]
    pub fn zero() -> (r: Binary32)
        ensures
            r == Binary32::spec_zero(),
    {
        Binary32 { bits: 0 }
    }

    pub open spec fn spec_one() -> Binary32 {
        Binary32 { bits: 0x3f80_0000 }
    }

    /// `1.0`
    #[verifier::when_used_as_spec(spec_one)]
    pub fn one() -> (r: Binary32)
        ensures
            r == Binary32::spec_one(),
    {
        Binary32 { bits: 0x3f80_0000 }
    }

    pub open spec fn spec_half() -> Binary32 {
        Binary32 { bits: 0x3f00_0000 }
    }

    /// `0.5`
    #[verifier::when_used_as_spec(spec_half)]
    pub fn half() -> (r: Binary32)
        ensures
            r == Binary32::spec_half(),
    {
        Binary32 { bits: 0x3f00_0000 }
    }

    pub open spec fn spec_two() -> Binary32 {
        Binary32 { bits: 0x4000_0000 }
    }

    /// `2.0`
    #[verifier::when_used_as_spec(spec_two)]
    pub fn two() -> (r: Binary32)
        ensures
            r == Binary32::spec_two(),
    {
        Binary32 { bits: 0x4000_0000 }
    }

    #[verifier::opaque]
    pub open spec fn spec_plus(self, other: Binary32) -> Binary32 {
        Binary32 { bits: Format::Single.sum(self.bits as nat, other.bits as nat) as u32 }
    }

    /// `self + other`
    #[verifier::when_used_as_spec(spec_plus)]
    pub fn plus(self, other: Binary32) -> (r: Binary32)
        ensures
            r == self.spec_plus(other),
    {
        proof {
            reveal(Binary32::spec_plus);
        }
        Binary32 { bits: arith::sum(Format::Single, self.bits as u64, other.bits as u64) as u32 }
    }

    #[verifier::opaque]
    pub open spec fn spec_minus(self, other: Binary32) -> Binary32 {
        Binary32 { bits: Format::Single.difference(self.bits as nat, other.bits as nat) as u32 }
    }

    /// `self - other`
    #[verifier::when_used_as_spec(spec_minus)]
    pub fn minus(self, other: Binary32) -> (r: Binary32)
        ensures
            r == self.spec_minus(other),
    {
        proof {
            reveal(Binary32::spec_minus);
        }
        Binary32 { bits: arith::difference(Format::Single, self.bits as u64, other.bits as u64) as u32 }
    }

    #[verifier::opaque]
    pub open spec fn spec_times(self, other: Binary32) -> Binary32 {
        Binary32 { bits: Format::Single.product(self.bits as nat, other.bits as nat) as u32 }
    }

    /// `self * other`
    #[verifier::when_used_as_spec(spec_times)]
    pub fn times(self, other: Binary32) -> (r: Binary32)
        ensures
            r == self.spec_times(other),
    {
        proof {
            reveal(Binary32::spec_times);
        }
        Binary32 { bits: arith::product(Format::Single, self.bits as u64, other.bits as u64) as u32 }
    }

    #[verifier::opaque]
    pub open spec fn spec_over(self, other: Binary32) -> Binary32 {
        Binary32 { bits: Format::Single.quotient(self.bits as nat, other.bits as nat) as u32 }
    }

    /// `self / other`
    #[verifier::when_used_as_spec(spec_over)]
    pub fn over(self, other: Binary32) -> (r: Binary32)
        ensures
            r == self.spec_over(other),
    {
        proof {
            reveal(Binary32::spec_over);
        }
        Binary32 { bits: arith::quotient(Format::Single, self.bits as u64, other.bits as u64) as u32 }
    }

    #[verifier::opaque]
    pub open spec fn spec_modulo(self, other: Binary32) -> Binary32 {
        Binary32 { bits: Format::Single.remainder(self.bits as nat, other.bits as nat) as u32 }
    }

    /// `self % other`
    #[verifier::when_used_as_spec(spec_modulo)]
    pub fn modulo(self, other: Binary32) -> (r: Binary32)
        ensures
            r == self.spec_modulo(other),
    {
        proof {
            reveal(Binary32::spec_modulo);
        }
        Binary32 { bits: arith::remainder(Format::Single, self.bits as u64, other.bits as u64) as u32 }
    }

    pub open spec fn spec_negated(self) -> Binary32 {
        Binary32 { bits: Format::Single.opposite(self.bits as nat) as u32 }
    }

    /// `-self`
    #[verifier::when_used_as_spec(spec_negated)]
    pub fn negated(self) -> (r: Binary32)
        ensures
            r == self.spec_negated(),
    {
        Binary32 { bits: arith::opposite(Format::Single, self.bits as u64) as u32 }
    }

    pub open spec fn spec_magnitude(self) -> Binary32 {
        Binary32 { bits: Format::Single.body(self.bits as nat) as u32 }
    }

    /// The absolute value.
    #[verifier::when_used_as_spec(spec_magnitude)]
    pub fn magnitude(self) -> (r: Binary32)
        ensures
            r == self.spec_magnitude(),
    {
        Binary32 { bits: arith::body(Format::Single, self.bits as u64) as u32 }
    }

    pub open spec fn spec_below(self, other: Binary32) -> bool {
        Format::Single.less(self.bits as nat, other.bits as nat)
    }

    /// `self < other`
    #[verifier::when_used_as_spec(spec_below)]
    pub fn below(self, other: Binary32) -> (r: bool)
        ensures
            r == self.spec_below(other),
    {
        arith::less(Format::Single, self.bits as u64, other.bits as u64)
    }

    pub open spec fn spec_at_most(self, other: Binary32) -> bool {
        Format::Single.at_most(self.bits as nat, other.bits as nat)
    }

    /// `self <= other`
    #[verifier::when_used_as_spec(spec_at_most)]
    pub fn at_most(self, other: Binary32) -> (r: bool)
        ensures
            r == self.spec_at_most(other),
    {
        arith::at_most(Format::Single, self.bits as u64, other.bits as u64)
    }

    pub open spec fn spec_equals(self, other: Binary32) -> bool {
        Format::Single.equal(self.bits as nat, other.bits as nat)
    }

    /// `self == other`: the two zeros are equal, and a NaN equals nothing.
    #[verifier::when_used_as_spec(spec_equals)]
    pub fn equals(self, other: Binary32) -> (r: bool)
        ensures
            r == self.spec_equals(other),
    {
        arith::equal(Format::Single, self.bits as u64, other.bits as u64)
    }

    pub open spec fn spec_is_nan(self) -> bool {
        self.nan()
    }

    /// Whether this is a NaN.
    #[verifier::when_used_as_spec(spec_is_nan)]
    pub fn is_nan(self) -> (r: bool)
        ensures
            r == self.nan(),
    {
        arith::body(Format::Single, self.bits as u64) > 0x7f80_0000
    }

    pub open spec fn spec_is_finite(self) -> bool {
        self.finite()
    }

    /// Whether this is neither an infinity nor a NaN.
    #[verifier::when_used_as_spec(spec_is_finite)]
    pub fn is_finite(self) -> (r: bool)
        ensures
            r == self.finite(),
    {
        arith::body(Format::Single, self.bits as u64) < 0x7f80_0000
    }

    pub open spec fn spec_max(self, other: Binary32) -> Binary32 {
        if self.nan() || self.spec_below(other) {
            other
        } else {
            self
        }
    }

    /// The larger of the two; where one is a NaN, the other; where both are zeros, the
    /// first.
    #[verifier::when_used_as_spec(spec_max)]
    pub fn max(self, other: Binary32) -> (r: Binary32)
        ensures
            r == self.spec_max(other),
    {
        if self.is_nan() || self.below(other) {
            other
        } else {
            self
        }
    }

    pub open spec fn spec_min(self, other: Binary32) -> Binary32 {
        if self.nan() || other.spec_below(self) {
            other
        } else {
            self
        }
    }

    /// The smaller of the two; where one is a NaN, the other; where both are zeros, the
    /// first.
    #[verifier::when_used_as_spec(spec_min)]
    pub fn min(self, other: Binary32) -> (r: Binary32)
        ensures
            r == self.spec_min(other),
    {
        if self.is_nan() || other.below(self) {
            other
        } else {
            self
        }
    }

    pub open spec fn spec_clamp(self, low: Binary32, high: Binary32) -> Binary32 {
        if self.spec_below(low) {
            low
        } else if high.spec_below(self) {
            high
        } else {
            self
        }
    }

    /// `self` moved into `[low, high]`; a NaN stays.
    #[verifier::when_used_as_spec(spec_clamp)]
    pub fn clamp(self, low: Binary32, high: Binary32) -> (r: Binary32)
        requires
            low.at_most(high),
        ensures
            r == self.spec_clamp(low, high),
    {
        if self.below(low) {
            low
        } else if high.below(self) {
            high
        } else {
            self
        }
    }

    pub open spec fn spec_to_unsigned(self, most: u64) -> u64 {
        Format::Single.to_unsigned(self.bits as nat, most as nat) as u64
    }

    /// The whole part, saturating at zero and at `most`; zero for a NaN.
    #[verifier::when_used_as_spec(spec_to_unsigned)]
    pub fn to_unsigned(self, most: u64) -> (r: u64)
        ensures
            r == self.spec_to_unsigned(most),
            r <= most,
    {
        arith::to_unsigned(Format::Single, self.bits as u64, most)
    }

    pub open spec fn spec_from_unsigned(k: u64) -> Binary32 {
        Binary32 { bits: Format::Single.whole(false, k as nat) as u32 }
    }

    /// The number nearest to `k`.
    #[verifier::when_used_as_spec(spec_from_unsigned)]
    pub fn from_unsigned(k: u64) -> (r: Binary32)
        ensures
            r == Binary32::spec_from_unsigned(k),
    {
        Binary32 { bits: arith::from_unsigned(Format::Single, k) as u32 }
    }
}

/// A number in the 64-bit format.
#[derive(Clone, Copy, Debug, PartialEq, Eq, Structural)]
pub struct Binary64 {
    /// The bit pattern: sign, exponent field, fraction field.
    pub bits: u64,
}

impl Binary64 {
    /// The signed value in units, the smallest positive subnormal being one unit.
    pub open spec fn value(self) -> int {
        Format::Double.value(self.bits as nat)
    }

    /// Neither an infinity nor a NaN.
    pub open spec fn finite(self) -> bool {
        Format::Double.is_finite(self.bits as nat)
    }

    /// Not a number.
    pub open spec fn nan(self) -> bool {
        Format::Double.is_nan(self.bits as nat)
    }

    /// Whether the sign bit is set.
    pub open spec fn negative(self) -> bool {
        Format::Double.negative(self.bits as nat)
    }

    /// The number of units in one.
    pub open spec fn unit() -> nat {
        Format::Double.one()
    }

    pub open spec fn spec_from_bits(bits: u64) -> Binary64 {
        Binary64 { bits }
    }

    /// The number with the given bit pattern.
    #[verifier::when_used_as_spec(spec_from_bits)]
    pub fn from_bits(bits: u64) -> (r: Binary64)
        ensures
            r == Binary64::spec_from_bits(bits),
    {
        Binary64 { bits }
    }

    pub open spec fn spec_zero() -> Binary64 {
        Binary64 { bits: 0 }
    }

    /// `0.0`
    #[verifier::when_used_as_spec(spec_zero)]
    pub fn zero() -> (r: Binary64)
        ensures
            r == Binary64::spec_zero(),
    {
        Binary64 { bits: 0 }
    }

    pub open spec fn spec_one() -> Binary64 {
        Binary64 { bits: 0x3ff0_0000_0000_0000 }
    }

    /// `1.0`
    #[verifier::when_used_as_spec(spec_one)]
    pub fn one() -> (r: Binary64)
        ensures
            r == Binary64::spec_one(),
    {
        Binary64 { bits: 0x3ff0_0000_0000_0000 }
    }

    pub open spec fn spec_half() -> Binary64 {
        Binary64 { bits: 0x3fe0_0000_0000_0000 }
    }

    /// `0.5`
    #[verifier::when_used_as_spec(spec_half)]
    pub fn half() -> (r: Binary64)
        ensures
            r == Binary64::spec_half(),
    {
        Binary64 { bits: 0x3fe0_0000_0000_0000 }
    }

    pub open spec fn spec_two() -> Binary64 {
        Binary64 { bits: 0x4000_0000_0000_0000 }
    }

    /// `2.0`
    #[verifier::when_used_as_spec(spec_two)]
    pub fn two() -> (r: Binary64)
        ensures
            r == Binary64::spec_two(),
    {
        Binary64 { bits: 0x4000_0000_0000_0000 }
    }

    #[verifier::opaque]
    pub open spec fn spec_plus(self, other: Binary64) -> Binary64 {
        Binary64 { bits: Format::Double.sum(self.bits as nat, other.bits as nat) as u64 }
    }

    /// `self + other`
    #[verifier::when_used_as_spec(spec_plus)]
    pub fn plus(self, other: Binary64) -> (r: Binary64)
        ensures
            r == self.spec_plus(other),
    {
        proof {
            reveal(Binary64::spec_plus);
        }
        Binary64 { bits: arith::sum(Format::Double, self.bits as u64, other.bits as u64) as u64 }
    }

    #[verifier::opaque]
    pub open spec fn spec_minus(self, other: Binary64) -> Binary64 {
        Binary64 { bits: Format::Double.difference(self.bits as nat, other.bits as nat) as u64 }
    }

    /// `self - other`
    #[verifier::when_used_as_spec(spec_minus)]
    pub fn minus(self, other: Binary64) -> (r: Binary64)
        ensures
            r == self.spec_minus(other),
    {
        proof {
            reveal(Binary64::spec_minus);
        }
        Binary64 { bits: arith::difference(Format::Double, self.bits as u64, other.bits as u64) as u64 }
    }

    #[verifier::opaque]
    pub open spec fn spec_times(self, other: Binary64) -> Binary64 {
        Binary64 { bits: Format::Double.product(self.bits as nat, other.bits as nat) as u64 }
    }

    /// `self * other`
    #[verifier::when_used_as_spec(spec_times)]
    pub fn times(self, other: Binary64) -> (r: Binary64)
        ensures
            r == self.spec_times(other),
    {
        proof {
            reveal(Binary64::spec_times);
        }
        Binary64 { bits: arith::product(Format::Double, self.bits as u64, other.bits as u64) as u64 }
    }

    #[verifier::opaque]
    pub open spec fn spec_over(self, other: Binary64) -> Binary64 {
        Binary64 { bits: Format::Double.quotient(self.bits as nat, other.bits as nat) as u64 }
    }

    /// `self / other`
    #[verifier::when_used_as_spec(spec_over)]
    pub fn over(self, other: Binary64) -> (r: Binary64)
        ensures
            r == self.spec_over(other),
    {
        proof {
            reveal(Binary64::spec_over);
        }
        Binary64 { bits: arith::quotient(Format::Double, self.bits as u64, other.bits as u64) as u64 }
    }

    #[verifier::opaque]
    pub open spec fn spec_modulo(self, other: Binary64) -> Binary64 {
        Binary64 { bits: Format::Double.remainder(self.bits as nat, other.bits as nat) as u64 }
    }

    /// `self % other`
    #[verifier::when_used_as_spec(spec_modulo)]
    pub fn modulo(self, other: Binary64) -> (r: Binary64)
        ensures
            r == self.spec_modulo(other),
    {
        proof {
            reveal(Binary64::spec_modulo);
        }
        Binary64 { bits: arith::remainder(Format::Double, self.bits as u64, other.bits as u64) as u64 }
    }

    pub open spec fn spec_negated(self) -> Binary64 {
        Binary64 { bits: Format::Double.opposite(self.bits as nat) as u64 }
    }

    /// `-self`
    #[verifier::when_used_as_spec(spec_negated)]
    pub fn negated(self) -> (r: Binary64)
        ensures
            r == self.spec_negated(),
    {
        Binary64 { bits: arith::opposite(Format::Double, self.bits as u64) as u64 }
    }

    pub open spec fn spec_magnitude(self) -> Binary64 {
        Binary64 { bits: Format::Double.body(self.bits as nat) as u64 }
    }

    /// The absolute value.
    #[verifier::when_used_as_spec(spec_magnitude)]
    pub fn magnitude(self) -> (r: Binary64)
        ensures
            r == self.spec_magnitude(),
    {
        Binary64 { bits: arith::body(Format::Double, self.bits as u64) as u64 }
    }

    pub open spec fn spec_below(self, other: Binary64) -> bool {
        Format::Double.less(self.bits as nat, other.bits as nat)
    }

    /// `self < other`
    #[verifier::when_used_as_spec(spec_below)]
    pub fn below(self, other: Binary64) -> (r: bool)
        ensures
            r == self.spec_below(other),
    {
        arith::less(Format::Double, self.bits as u64, other.bits as u64)
    }

    pub open spec fn spec_at_most(self, other: Binary64) -> bool {
        Format::Double.at_most(self.bits as nat, other.bits as nat)
    }

    /// `self <= other`
    #[verifier::when_used_as_spec(spec_at_most)]
    pub fn at_most(self, other: Binary64) -> (r: bool)
        ensures
            r == self.spec_at_most(other),
    {
        arith::at_most(Format::Double, self.bits as u64, other.bits as u64)
    }

    pub open spec fn spec_equals(self, other: Binary64) -> bool {
        Format::Double.equal(self.bits as nat, other.bits as nat)
    }

    /// `self == other`: the two zeros are equal, and a NaN equals nothing.
    #[verifier::when_used_as_spec(spec_equals)]
    pub fn equals(self, other: Binary64) -> (r: bool)
        ensures
            r == self.spec_equals(other),
    {
        arith::equal(Format::Double, self.bits as u64, other.bits as u64)
    }

    pub open spec fn spec_is_nan(self) -> bool {
        self.nan()
    }

    /// Whether this is a NaN.
    #[verifier::when_used_as_spec(spec_is_nan)]
    pub fn is_nan(self) -> (r: bool)
        ensures
            r == self.nan(),
    {
        arith::body(Format::Double, self.bits as u64) > 0x7ff0_0000_0000_0000
    }

    pub open spec fn spec_is_finite(self) -> bool {
        self.finite()
    }

    /// Whether this is neither an infinity nor a NaN.
    #[verifier::when_used_as_spec(spec_is_finite)]
    pub fn is_finite(self) -> (r: bool)
        ensures
            r == self.finite(),
    {
        arith::body(Format::Double, self.bits as u64) < 0x7ff0_0000_0000_0000
    }

    pub open spec fn spec_max(self, other: Binary64) -> Binary64 {
        if self.nan() || self.spec_below(other) {
            other
        } else {
            self
        }
    }

    /// The larger of the two; where one is a NaN, the other; where both are zeros, the
    /// first.
    #[verifier::when_used_as_spec(spec_max)]
    pub fn max(self, other: Binary64) -> (r: Binary64)
        ensures
            r == self.spec_max(other),
    {
        if self.is_nan() || self.below(other) {
            other
        } else {
            self
        }
    }

    pub open spec fn spec_min(self, other: Binary64) -> Binary64 {
        if self.nan() || other.spec_below(self) {
            other
        } else {
            self
        }
    }

    /// The smaller of the two; where one is a NaN, the other; where both are zeros, the
    /// first.
    #[verifier::when_used_as_spec(spec_min)]
    pub fn min(self, other: Binary64) -> (r: Binary64)
        ensures
            r == self.spec_min(other),
    {
        if self.is_nan() || other.below(self) {
            other
        } else {
            self
        }
    }

    pub open spec fn spec_clamp(self, low: Binary64, high: Binary64) -> Binary64 {
        if self.spec_below(low) {
            low
        } else if high.spec_below(self) {
            high
        } else {
            self
        }
    }

    /// `self` moved into `[low, high]`; a NaN stays.
    #[verifier::when_used_as_spec(spec_clamp)]
    pub fn clamp(self, low: Binary64, high: Binary64) -> (r: Binary64)
        requires
            low.at_most(high),
        ensures
            r == self.spec_clamp(low, high),
    {
        if self.below(low) {
            low
        } else if high.below(self) {
            high
        } else {
            self
        }
    }

    pub open spec fn spec_to_unsigned(self, most: u64) -> u64 {
        Format::Double.to_unsigned(self.bits as nat, most as nat) as u64
    }

    /// The whole part, saturating at zero and at `most`; zero for a NaN.
    #[verifier::when_used_as_spec(spec_to_unsigned)]
    pub fn to_unsigned(self, most: u64) -> (r: u64)
        ensures
            r == self.spec_to_unsigned(most),
            r <= most,
    {
        arith::to_unsigned(Format::Double, self.bits as u64, most)
    }

    pub open spec fn spec_from_unsigned(k: u64) -> Binary64 {
        Binary64 { bits: Format::Double.whole(false, k as nat) as u64 }
    }

    /// The number nearest to `k`.
    #[verifier::when_used_as_spec(spec_from_unsigned)]
    pub fn from_unsigned(k: u64) -> (r: Binary64)
        ensures
            r == Binary64::spec_from_unsigned(k),
    {
        Binary64 { bits: arith::from_unsigned(Format::Double, k) as u64 }
    }
}

impl Binary32 {
    pub open spec fn spec_to_binary64(self) -> Binary64 {
        Binary64 { bits: ops::widened(self.bits as nat) as u64 }
    }

    /// The same number in the 64-bit format.
    #[verifier::when_used_as_spec(spec_to_binary64)]
    pub fn to_binary64(self) -> (r: Binary64)
        ensures
            r == self.spec_to_binary64(),
    {
        Binary64 { bits: arith::widened(self.bits as u64) }
    }
}

impl Binary64 {
    pub open spec fn spec_to_binary32(self) -> Binary32 {
        Binary32 { bits: ops::narrowed(self.bits as nat) as u32 }
    }

    /// The nearest number in the 32-bit format.
    #[verifier::when_used_as_spec(spec_to_binary32)]
    pub fn to_binary32(self) -> (r: Binary32)
        ensures
            r == self.spec_to_binary32(),
    {
        Binary32 { bits: arith::narrowed(self.bits) as u32 }
    }

    pub open spec fn spec_floor(self) -> Binary64 {
        Binary64 { bits: Format::Double.floor(self.bits as nat) as u64 }
    }

    /// The largest whole number that is not above `self`.
    #[verifier::when_used_as_spec(spec_floor)]
    pub fn floor(self) -> (r: Binary64)
        ensures
            r == self.spec_floor(),
    {
        Binary64 { bits: arith::floor(Format::Double, self.bits) }
    }

    pub open spec fn spec_ceil(self) -> Binary64 {
        Binary64 { bits: Format::Double.ceil(self.bits as nat) as u64 }
    }

    /// The smallest whole number that is not below `self`.
    #[verifier::when_used_as_spec(spec_ceil)]
    pub fn ceil(self) -> (r: Binary64)
        ensures
            r == self.spec_ceil(),
    {
        Binary64 { bits: arith::ceil(Format::Double, self.bits) }
    }

    pub open spec fn spec_round(self) -> Binary64 {
        Binary64 { bits: Format::Double.nearest_whole(self.bits as nat) as u64 }
    }

    /// The nearest whole number, halves going away from zero.
    #[verifier::when_used_as_spec(spec_round)]
    pub fn round(self) -> (r: Binary64)
        ensures
            r == self.spec_round(),
    {
        Binary64 { bits: arith::nearest_whole(Format::Double, self.bits) }
    }

    pub open spec fn spec_is_integral(self) -> bool {
        Format::Double.is_integral(self.bits as nat)
    }

    /// Whether this is finite and has no fractional part.
    #[verifier::when_used_as_spec(spec_is_integral)]
    pub fn is_integral(self) -> (r: bool)
        ensures
            r == self.spec_is_integral(),
    {
        arith::is_integral(Format::Double, self.bits)
    }
}

} // verus!
