//! What each operation gives, as a function from patterns to a pattern.
//!
//! A pattern carries its sign in the top bit. `value` reads it as a signed number of
//! units; infinities read as the magnitude just past the largest finite one, so they
//! order correctly against every finite value.

use super::model::Format;
use vstd::prelude::*;

verus! {

impl Format {
    /// Whether the pattern uses only the bits of the format.
    pub open spec fn valid(self, x: nat) -> bool {
        x < 2 * self.sign_bit()
    }

    /// Whether the sign bit is set.
    pub open spec fn negative(self, x: nat) -> bool {
        x >= self.sign_bit()
    }

    /// The pattern without its sign bit.
    pub open spec fn body(self, x: nat) -> nat {
        if self.negative(x) {
            (x - self.sign_bit()) as nat
        } else {
            x
        }
    }

    pub open spec fn is_nan(self, x: nat) -> bool {
        self.body(x) > self.inf()
    }

    pub open spec fn is_infinite(self, x: nat) -> bool {
        self.body(x) == self.inf()
    }

    pub open spec fn is_finite(self, x: nat) -> bool {
        self.body(x) < self.inf()
    }

    /// Either zero.
    pub open spec fn is_zero(self, x: nat) -> bool {
        self.body(x) == 0
    }

    /// The magnitude in units.
    pub open spec fn size(self, x: nat) -> nat {
        self.mag(self.body(x))
    }

    /// The signed value in units.
    pub open spec fn value(self, x: nat) -> int {
        if self.negative(x) {
            -(self.size(x) as int)
        } else {
            self.size(x) as int
        }
    }

    /// The pattern with the given sign and body.
    pub open spec fn signed(self, negative: bool, body: nat) -> nat {
        if negative {
            body + self.sign_bit()
        } else {
            body
        }
    }

    /// The NaN that every invalid operation gives.
    pub open spec fn nan(self) -> nat {
        self.inf() + self.hidden() / 2
    }

    /// `x + y`
    pub open spec fn sum(self, x: nat, y: nat) -> nat {
        if self.is_nan(x) || self.is_nan(y) {
            self.nan()
        } else if self.is_infinite(x) {
            if self.is_infinite(y) && self.negative(x) != self.negative(y) {
                self.nan()
            } else {
                x
            }
        } else if self.is_infinite(y) {
            y
        } else {
            let s = self.value(x) + self.value(y);
            if s == 0 {
                self.signed(self.negative(x) && self.negative(y), 0)
            } else if s > 0 {
                self.signed(false, self.round(s as nat, 1))
            } else {
                self.signed(true, self.round((-s) as nat, 1))
            }
        }
    }

    /// `-x`; a NaN stays the NaN it is, up to its sign.
    pub open spec fn opposite(self, x: nat) -> nat {
        self.signed(!self.negative(x), self.body(x))
    }

    /// `x - y`
    pub open spec fn difference(self, x: nat, y: nat) -> nat {
        self.sum(x, self.opposite(y))
    }

    /// `x * y`
    pub open spec fn product(self, x: nat, y: nat) -> nat {
        let s = self.negative(x) != self.negative(y);
        if self.is_nan(x) || self.is_nan(y) {
            self.nan()
        } else if self.is_infinite(x) || self.is_infinite(y) {
            if self.is_zero(x) || self.is_zero(y) {
                self.nan()
            } else {
                self.signed(s, self.inf())
            }
        } else {
            self.signed(s, self.round(self.size(x) * self.size(y), self.one()))
        }
    }

    /// `x / y`
    pub open spec fn quotient(self, x: nat, y: nat) -> nat {
        let s = self.negative(x) != self.negative(y);
        if self.is_nan(x) || self.is_nan(y) {
            self.nan()
        } else if self.is_infinite(x) {
            if self.is_infinite(y) {
                self.nan()
            } else {
                self.signed(s, self.inf())
            }
        } else if self.is_infinite(y) {
            self.signed(s, 0)
        } else if self.is_zero(y) {
            if self.is_zero(x) {
                self.nan()
            } else {
                self.signed(s, self.inf())
            }
        } else {
            self.signed(s, self.round(self.size(x) * self.one(), self.size(y)))
        }
    }

    /// `x % y`: what is left after taking `y` away from `x` a whole number of times, with
    /// the sign of `x`.
    pub open spec fn remainder(self, x: nat, y: nat) -> nat {
        if self.is_nan(x) || self.is_nan(y) || self.is_infinite(x) || self.is_zero(y) {
            self.nan()
        } else if self.is_infinite(y) {
            x
        } else {
            self.signed(self.negative(x), self.round(self.size(x) % self.size(y), 1))
        }
    }

    /// `x < y`
    pub open spec fn less(self, x: nat, y: nat) -> bool {
        !self.is_nan(x) && !self.is_nan(y) && self.value(x) < self.value(y)
    }

    /// `x <= y`
    pub open spec fn at_most(self, x: nat, y: nat) -> bool {
        !self.is_nan(x) && !self.is_nan(y) && self.value(x) <= self.value(y)
    }

    /// `x == y`
    pub open spec fn equal(self, x: nat, y: nat) -> bool {
        !self.is_nan(x) && !self.is_nan(y) && self.value(x) == self.value(y)
    }

    /// The pattern of `k` ones with the given sign.
    pub open spec fn whole(self, negative: bool, k: nat) -> nat {
        self.signed(negative, self.round(k * self.one(), 1))
    }

    /// The largest whole number that is not above `x`.
    pub open spec fn floor(self, x: nat) -> nat {
        if !self.is_finite(x) {
            x
        } else {
            let one = self.one() as int;
            let v = self.value(x) / one;
            self.whole(self.negative(x), (if v < 0 {
                -v
            } else {
                v
            }) as nat)
        }
    }

    /// The smallest whole number that is not below `x`.
    pub open spec fn ceil(self, x: nat) -> nat {
        self.opposite(self.floor(self.opposite(x)))
    }

    /// The whole number nearest to `x`, halves going away from zero.
    pub open spec fn nearest_whole(self, x: nat) -> nat {
        if !self.is_finite(x) {
            x
        } else {
            self.whole(self.negative(x), (2 * self.size(x) + self.one()) / (2 * self.one()))
        }
    }

    /// Whether `x` is finite and has no fractional part.
    pub open spec fn is_integral(self, x: nat) -> bool {
        self.is_finite(x) && self.size(x) % self.one() == 0
    }

    /// The whole part of `x` as an unsigned integer, saturating at zero and at `most`;
    /// zero for a NaN.
    pub open spec fn to_unsigned(self, x: nat, most: nat) -> nat {
        if self.is_nan(x) || self.negative(x) {
            0
        } else if self.is_infinite(x) {
            most
        } else {
            let v = self.size(x) / self.one();
            if v > most {
                most
            } else {
                v
            }
        }
    }
}

/// Units of the double format in one unit of the single format.
pub open spec fn unit_ratio() -> nat {
    vstd::arithmetic::power2::pow2(925)
}

/// A single-precision pattern as a double-precision one.
pub open spec fn widened(x: nat) -> nat {
    let s = Format::Single;
    let d = Format::Double;
    if s.is_nan(x) {
        d.nan()
    } else if s.is_infinite(x) {
        d.signed(s.negative(x), d.inf())
    } else {
        d.signed(s.negative(x), d.round(s.size(x) * unit_ratio(), 1))
    }
}

/// A double-precision pattern rounded to single precision.
pub open spec fn narrowed(x: nat) -> nat {
    let s = Format::Single;
    let d = Format::Double;
    if d.is_nan(x) {
        s.nan()
    } else if d.is_infinite(x) {
        s.signed(d.negative(x), s.inf())
    } else {
        s.signed(d.negative(x), s.round(d.size(x), unit_ratio()))
    }
}

} // verus!
