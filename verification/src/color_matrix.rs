//! The colour-matrix subset of the CSS `filter` shorthand functions.
//!
//! Seven of the ten shorthands are an affine map of the non-premultiplied RGB triple that
//! leaves alpha alone, so all seven are the same 4x5 matrix. The other three are not: `blur()`
//! and `drop-shadow()` sample neighbouring pixels, and `opacity()` scales alpha.

use crate::color::Color;
use crate::ieee::Binary32;
use smallvec::SmallVec;
use vstd::prelude::*;

verus! {

/// The coefficients that one component of the result is computed with.
#[derive(Clone, Copy, Debug, PartialEq, Eq, Structural)]
pub struct Row {
    pub r: Binary32,
    pub g: Binary32,
    pub b: Binary32,
    pub a: Binary32,
    pub offset: Binary32,
}

/// The coefficients of a colour channel that alpha does not contribute to.
#[derive(Clone, Copy, Debug, PartialEq, Eq, Structural)]
pub struct RgbRow {
    pub r: Binary32,
    pub g: Binary32,
    pub b: Binary32,
    pub offset: Binary32,
}

/// A colour matrix: one row for each component of the result.
#[derive(Clone, Copy, Debug, PartialEq, Eq, Structural)]
pub struct ColorMatrix {
    pub red: Row,
    pub green: Row,
    pub blue: Row,
    pub alpha: Row,
}

/// Luminance coefficients.
#[derive(Clone, Copy, Debug, PartialEq, Eq, Structural)]
pub struct Luma {
    pub r: Binary32,
    pub g: Binary32,
    pub b: Binary32,
}

impl Row {
    pub open spec fn spec_same_as(self, other: Row) -> bool {
        &&& self.r.equals(other.r)
        &&& self.g.equals(other.g)
        &&& self.b.equals(other.b)
        &&& self.a.equals(other.a)
        &&& self.offset.equals(other.offset)
    }

    /// Whether the coefficients are equal as numbers.
    #[verifier::when_used_as_spec(spec_same_as)]
    pub fn same_as(self, other: Row) -> (r: bool)
        ensures
            r == self.spec_same_as(other),
    {
        self.r.equals(other.r) && self.g.equals(other.g) && self.b.equals(other.b)
            && self.a.equals(other.a) && self.offset.equals(other.offset)
    }

    /// The component that the row gives for a colour, not clamped.
    pub open spec fn spec_combine(self, color: Color) -> Binary32 {
        self.r.times(color.r).plus(self.g.times(color.g)).plus(self.b.times(color.b)).plus(
            self.a.times(color.a),
        ).plus(self.offset)
    }

    /// The component that the row gives for a colour, not clamped.
    #[verifier::when_used_as_spec(spec_combine)]
    pub fn combine(self, color: Color) -> (r: Binary32)
        ensures
            r == self.spec_combine(color),
    {
        self.r.times(color.r).plus(self.g.times(color.g)).plus(self.b.times(color.b)).plus(
            self.a.times(color.a),
        ).plus(self.offset)
    }

    /// The component that the row gives for a vector, not clamped: for premultiplied
    /// components `P' = M P + t A`, which is the row scaled by alpha.
    pub open spec fn spec_combine_vector(self, vector: Color, premultiplied: bool) -> Binary32 {
        let linear = self.r.times(vector.r).plus(self.g.times(vector.g)).plus(
            self.b.times(vector.b),
        );
        if premultiplied {
            linear.plus(self.offset.times(vector.a))
        } else {
            linear.plus(self.a.times(vector.a)).plus(self.offset)
        }
    }

    /// The component that the row gives for a vector, not clamped.
    #[verifier::when_used_as_spec(spec_combine_vector)]
    pub fn combine_vector(self, vector: Color, premultiplied: bool) -> (r: Binary32)
        ensures
            r == self.spec_combine_vector(vector, premultiplied),
    {
        let linear = self.r.times(vector.r).plus(self.g.times(vector.g)).plus(
            self.b.times(vector.b),
        );
        if premultiplied {
            linear.plus(self.offset.times(vector.a))
        } else {
            linear.plus(self.a.times(vector.a)).plus(self.offset)
        }
    }
}

/// A component moved into `[0, 1]`; a NaN stays.
pub open spec fn spec_clamp_unit(x: Binary32) -> Binary32 {
    x.clamp(Binary32::zero(), Binary32::one())
}

/// A component moved into `[0, 1]`; a NaN stays.
#[verifier::when_used_as_spec(spec_clamp_unit)]
pub fn clamp_unit(x: Binary32) -> (r: Binary32)
    ensures
        r == spec_clamp_unit(x),
{
    proof {
        Binary32::lemma_constants(x);
    }
    x.clamp(Binary32::zero(), Binary32::one())
}

impl Luma {
    pub open spec fn spec_saturate() -> Luma {
        Luma {
            r: Binary32::from_bits(0x3e5a_1cac),
            g: Binary32::from_bits(0x3f37_0a3d),
            b: Binary32::from_bits(0x3d93_74bc),
        }
    }

    /// The coefficients that `saturate()` and `hue-rotate()` are defined with:
    /// `0.213`, `0.715` and `0.072`.
    #[verifier::when_used_as_spec(spec_saturate)]
    pub fn saturate() -> (r: Luma)
        ensures
            r == Luma::spec_saturate(),
    {
        Luma {
            r: Binary32::from_bits(0x3e5a_1cac),
            g: Binary32::from_bits(0x3f37_0a3d),
            b: Binary32::from_bits(0x3d93_74bc),
        }
    }

    pub open spec fn spec_grayscale() -> Luma {
        Luma {
            r: Binary32::from_bits(0x3e59_b3d0),
            g: Binary32::from_bits(0x3f37_1759),
            b: Binary32::from_bits(0x3d93_dd98),
        }
    }

    /// The coefficients that `grayscale()` is defined with, to a different precision:
    /// `0.2126`, `0.7152` and `0.0722`.
    #[verifier::when_used_as_spec(spec_grayscale)]
    pub fn grayscale() -> (r: Luma)
        ensures
            r == Luma::spec_grayscale(),
    {
        Luma {
            r: Binary32::from_bits(0x3e59_b3d0),
            g: Binary32::from_bits(0x3f37_1759),
            b: Binary32::from_bits(0x3d93_dd98),
        }
    }
}

impl ColorMatrix {
    pub open spec fn spec_identity() -> ColorMatrix {
        let (zero, one) = (Binary32::zero(), Binary32::one());
        ColorMatrix {
            red: Row { r: one, g: zero, b: zero, a: zero, offset: zero },
            green: Row { r: zero, g: one, b: zero, a: zero, offset: zero },
            blue: Row { r: zero, g: zero, b: one, a: zero, offset: zero },
            alpha: Row { r: zero, g: zero, b: zero, a: one, offset: zero },
        }
    }

    /// The identity matrix.
    #[verifier::when_used_as_spec(spec_identity)]
    pub fn identity() -> (r: ColorMatrix)
        ensures
            r == ColorMatrix::spec_identity(),
    {
        let (zero, one) = (Binary32::zero(), Binary32::one());
        ColorMatrix {
            red: Row { r: one, g: zero, b: zero, a: zero, offset: zero },
            green: Row { r: zero, g: one, b: zero, a: zero, offset: zero },
            blue: Row { r: zero, g: zero, b: one, a: zero, offset: zero },
            alpha: Row { r: zero, g: zero, b: zero, a: one, offset: zero },
        }
    }

    pub open spec fn spec_from_rgb_rows(red: RgbRow, green: RgbRow, blue: RgbRow) -> ColorMatrix {
        let (zero, one) = (Binary32::zero(), Binary32::one());
        ColorMatrix {
            red: Row { r: red.r, g: red.g, b: red.b, a: zero, offset: red.offset },
            green: Row { r: green.r, g: green.g, b: green.b, a: zero, offset: green.offset },
            blue: Row { r: blue.r, g: blue.g, b: blue.b, a: zero, offset: blue.offset },
            alpha: Row { r: zero, g: zero, b: zero, a: one, offset: zero },
        }
    }

    /// The matrix of three colour rows, which leaves alpha alone and lets it contribute to no
    /// other channel.
    #[verifier::when_used_as_spec(spec_from_rgb_rows)]
    pub fn from_rgb_rows(red: RgbRow, green: RgbRow, blue: RgbRow) -> (r: ColorMatrix)
        ensures
            r == ColorMatrix::spec_from_rgb_rows(red, green, blue),
    {
        let (zero, one) = (Binary32::zero(), Binary32::one());
        ColorMatrix {
            red: Row { r: red.r, g: red.g, b: red.b, a: zero, offset: red.offset },
            green: Row { r: green.r, g: green.g, b: green.b, a: zero, offset: green.offset },
            blue: Row { r: blue.r, g: blue.g, b: blue.b, a: zero, offset: blue.offset },
            alpha: Row { r: zero, g: zero, b: zero, a: one, offset: zero },
        }
    }

    pub open spec fn spec_linear_transfer(slope: Binary32, intercept: Binary32) -> ColorMatrix {
        let zero = Binary32::zero();
        ColorMatrix::from_rgb_rows(
            RgbRow { r: slope, g: zero, b: zero, offset: intercept },
            RgbRow { r: zero, g: slope, b: zero, offset: intercept },
            RgbRow { r: zero, g: zero, b: slope, offset: intercept },
        )
    }

    /// The same affine transfer function on each colour channel: `slope * c + intercept`.
    #[verifier::when_used_as_spec(spec_linear_transfer)]
    pub fn linear_transfer(slope: Binary32, intercept: Binary32) -> (r: ColorMatrix)
        ensures
            r == ColorMatrix::spec_linear_transfer(slope, intercept),
    {
        let zero = Binary32::zero();
        ColorMatrix::from_rgb_rows(
            RgbRow { r: slope, g: zero, b: zero, offset: intercept },
            RgbRow { r: zero, g: slope, b: zero, offset: intercept },
            RgbRow { r: zero, g: zero, b: slope, offset: intercept },
        )
    }

    pub open spec fn spec_brightness(amount: Binary32) -> ColorMatrix {
        ColorMatrix::linear_transfer(amount, Binary32::zero())
    }

    /// `brightness(amount)`: a slope of `amount`.
    #[verifier::when_used_as_spec(spec_brightness)]
    pub fn brightness(amount: Binary32) -> (r: ColorMatrix)
        ensures
            r == ColorMatrix::spec_brightness(amount),
    {
        ColorMatrix::linear_transfer(amount, Binary32::zero())
    }

    pub open spec fn spec_contrast(amount: Binary32) -> ColorMatrix {
        let half = Binary32::half();
        ColorMatrix::linear_transfer(amount, half.times(amount).negated().plus(half))
    }

    /// `contrast(amount)`: a slope of `amount` and an intercept of `-(0.5 * amount) + 0.5`.
    #[verifier::when_used_as_spec(spec_contrast)]
    pub fn contrast(amount: Binary32) -> (r: ColorMatrix)
        ensures
            r == ColorMatrix::spec_contrast(amount),
    {
        let half = Binary32::half();
        ColorMatrix::linear_transfer(amount, half.times(amount).negated().plus(half))
    }

    pub open spec fn spec_invert(amount: Binary32) -> ColorMatrix {
        let amount = clamp_unit(amount);
        ColorMatrix::linear_transfer(
            Binary32::one().minus(Binary32::two().times(amount)),
            amount,
        )
    }

    /// `invert(amount)`: the table from `amount` to `1 - amount`, which is a slope of
    /// `1 - 2 * amount` and an intercept of `amount`. Amounts are clamped to `[0, 1]`.
    #[verifier::when_used_as_spec(spec_invert)]
    pub fn invert(amount: Binary32) -> (r: ColorMatrix)
        ensures
            r == ColorMatrix::spec_invert(amount),
    {
        let amount = clamp_unit(amount);
        ColorMatrix::linear_transfer(
            Binary32::one().minus(Binary32::two().times(amount)),
            amount,
        )
    }

    pub open spec fn spec_desaturated(luma: Luma, keep: Binary32) -> ColorMatrix {
        let (zero, one) = (Binary32::zero(), Binary32::one());
        ColorMatrix::from_rgb_rows(
            RgbRow {
                r: luma.r.plus(one.minus(luma.r).times(keep)),
                g: luma.g.minus(luma.g.times(keep)),
                b: luma.b.minus(luma.b.times(keep)),
                offset: zero,
            },
            RgbRow {
                r: luma.r.minus(luma.r.times(keep)),
                g: luma.g.plus(one.minus(luma.g).times(keep)),
                b: luma.b.minus(luma.b.times(keep)),
                offset: zero,
            },
            RgbRow {
                r: luma.r.minus(luma.r.times(keep)),
                g: luma.g.minus(luma.g.times(keep)),
                b: luma.b.plus(one.minus(luma.b).times(keep)),
                offset: zero,
            },
        )
    }

    /// The mix of the colour itself, weighing `keep`, and its luminance.
    #[verifier::when_used_as_spec(spec_desaturated)]
    pub fn desaturated(luma: Luma, keep: Binary32) -> (r: ColorMatrix)
        ensures
            r == ColorMatrix::spec_desaturated(luma, keep),
    {
        let (zero, one) = (Binary32::zero(), Binary32::one());
        ColorMatrix::from_rgb_rows(
            RgbRow {
                r: luma.r.plus(one.minus(luma.r).times(keep)),
                g: luma.g.minus(luma.g.times(keep)),
                b: luma.b.minus(luma.b.times(keep)),
                offset: zero,
            },
            RgbRow {
                r: luma.r.minus(luma.r.times(keep)),
                g: luma.g.plus(one.minus(luma.g).times(keep)),
                b: luma.b.minus(luma.b.times(keep)),
                offset: zero,
            },
            RgbRow {
                r: luma.r.minus(luma.r.times(keep)),
                g: luma.g.minus(luma.g.times(keep)),
                b: luma.b.plus(one.minus(luma.b).times(keep)),
                offset: zero,
            },
        )
    }

    pub open spec fn spec_saturate(amount: Binary32) -> ColorMatrix {
        ColorMatrix::desaturated(Luma::saturate(), amount)
    }

    /// `saturate(amount)`
    #[verifier::when_used_as_spec(spec_saturate)]
    pub fn saturate(amount: Binary32) -> (r: ColorMatrix)
        ensures
            r == ColorMatrix::spec_saturate(amount),
    {
        ColorMatrix::desaturated(Luma::saturate(), amount)
    }

    pub open spec fn spec_grayscale(amount: Binary32) -> ColorMatrix {
        ColorMatrix::desaturated(
            Luma::grayscale(),
            Binary32::one().minus(clamp_unit(amount)),
        )
    }

    /// `grayscale(amount)`; amounts are clamped to `[0, 1]`.
    #[verifier::when_used_as_spec(spec_grayscale)]
    pub fn grayscale(amount: Binary32) -> (r: ColorMatrix)
        ensures
            r == ColorMatrix::spec_grayscale(amount),
    {
        ColorMatrix::desaturated(
            Luma::grayscale(),
            Binary32::one().minus(clamp_unit(amount)),
        )
    }

    pub open spec fn spec_sepia(amount: Binary32) -> ColorMatrix {
        let zero = Binary32::zero();
        let keep = Binary32::one().minus(clamp_unit(amount));
        ColorMatrix::from_rgb_rows(
            RgbRow {
                r: Binary32::from_bits(0x3ec9_374c).plus(
                    Binary32::from_bits(0x3f1b_645a).times(keep),
                ),
                g: Binary32::from_bits(0x3f44_dd2f).minus(
                    Binary32::from_bits(0x3f44_dd2f).times(keep),
                ),
                b: Binary32::from_bits(0x3e41_8937).minus(
                    Binary32::from_bits(0x3e41_8937).times(keep),
                ),
                offset: zero,
            },
            RgbRow {
                r: Binary32::from_bits(0x3eb2_b021).minus(
                    Binary32::from_bits(0x3eb2_b021).times(keep),
                ),
                g: Binary32::from_bits(0x3f2f_9db2).plus(
                    Binary32::from_bits(0x3ea0_c49c).times(keep),
                ),
                b: Binary32::from_bits(0x3e2c_0831).minus(
                    Binary32::from_bits(0x3e2c_0831).times(keep),
                ),
                offset: zero,
            },
            RgbRow {
                r: Binary32::from_bits(0x3e8b_4396).minus(
                    Binary32::from_bits(0x3e8b_4396).times(keep),
                ),
                g: Binary32::from_bits(0x3f08_b439).minus(
                    Binary32::from_bits(0x3f08_b439).times(keep),
                ),
                b: Binary32::from_bits(0x3e06_24dd).plus(
                    Binary32::from_bits(0x3f5e_76c9).times(keep),
                ),
                offset: zero,
            },
        )
    }

    /// `sepia(amount)`; amounts are clamped to `[0, 1]`. With `k = 1 - amount` the rows are
    /// `0.393 + 0.607 k`, `0.769 - 0.769 k`, `0.189 - 0.189 k`;
    /// `0.349 - 0.349 k`, `0.686 + 0.314 k`, `0.168 - 0.168 k`;
    /// `0.272 - 0.272 k`, `0.534 - 0.534 k`, `0.131 + 0.869 k`.
    #[verifier::when_used_as_spec(spec_sepia)]
    pub fn sepia(amount: Binary32) -> (r: ColorMatrix)
        ensures
            r == ColorMatrix::spec_sepia(amount),
    {
        let zero = Binary32::zero();
        let keep = Binary32::one().minus(clamp_unit(amount));
        ColorMatrix::from_rgb_rows(
            RgbRow {
                r: Binary32::from_bits(0x3ec9_374c).plus(
                    Binary32::from_bits(0x3f1b_645a).times(keep),
                ),
                g: Binary32::from_bits(0x3f44_dd2f).minus(
                    Binary32::from_bits(0x3f44_dd2f).times(keep),
                ),
                b: Binary32::from_bits(0x3e41_8937).minus(
                    Binary32::from_bits(0x3e41_8937).times(keep),
                ),
                offset: zero,
            },
            RgbRow {
                r: Binary32::from_bits(0x3eb2_b021).minus(
                    Binary32::from_bits(0x3eb2_b021).times(keep),
                ),
                g: Binary32::from_bits(0x3f2f_9db2).plus(
                    Binary32::from_bits(0x3ea0_c49c).times(keep),
                ),
                b: Binary32::from_bits(0x3e2c_0831).minus(
                    Binary32::from_bits(0x3e2c_0831).times(keep),
                ),
                offset: zero,
            },
            RgbRow {
                r: Binary32::from_bits(0x3e8b_4396).minus(
                    Binary32::from_bits(0x3e8b_4396).times(keep),
                ),
                g: Binary32::from_bits(0x3f08_b439).minus(
                    Binary32::from_bits(0x3f08_b439).times(keep),
                ),
                b: Binary32::from_bits(0x3e06_24dd).plus(
                    Binary32::from_bits(0x3f5e_76c9).times(keep),
                ),
                offset: zero,
            },
        )
    }

    pub open spec fn spec_hue_rotate(sin: Binary32, cos: Binary32) -> ColorMatrix {
        let zero = Binary32::zero();
        let luma = Luma::saturate();
        ColorMatrix::from_rgb_rows(
            RgbRow {
                r: luma.r.plus(cos.times(Binary32::from_bits(0x3f49_78d5))).plus(
                    sin.times(Binary32::from_bits(0xbe5a_1cac)),
                ),
                g: luma.g.plus(cos.times(Binary32::from_bits(0xbf37_0a3d))).plus(
                    sin.times(Binary32::from_bits(0xbf37_0a3d)),
                ),
                b: luma.b.plus(cos.times(Binary32::from_bits(0xbd93_74bc))).plus(
                    sin.times(Binary32::from_bits(0x3f6d_9168)),
                ),
                offset: zero,
            },
            RgbRow {
                r: luma.r.plus(cos.times(Binary32::from_bits(0xbe5a_1cac))).plus(
                    sin.times(Binary32::from_bits(0x3e12_6e98)),
                ),
                g: luma.g.plus(cos.times(Binary32::from_bits(0x3e91_eb85))).plus(
                    sin.times(Binary32::from_bits(0x3e0f_5c29)),
                ),
                b: luma.b.plus(cos.times(Binary32::from_bits(0xbd93_74bc))).plus(
                    sin.times(Binary32::from_bits(0xbe90_e560)),
                ),
                offset: zero,
            },
            RgbRow {
                r: luma.r.plus(cos.times(Binary32::from_bits(0xbe5a_1cac))).plus(
                    sin.times(Binary32::from_bits(0xbf49_78d5)),
                ),
                g: luma.g.plus(cos.times(Binary32::from_bits(0xbf37_0a3d))).plus(
                    sin.times(Binary32::from_bits(0x3f37_0a3d)),
                ),
                b: luma.b.plus(cos.times(Binary32::from_bits(0x3f6d_9168))).plus(
                    sin.times(Binary32::from_bits(0x3d93_74bc)),
                ),
                offset: zero,
            },
        )
    }

    /// `hue-rotate()`, from the sine and the cosine of the angle: the luminance coefficients plus
    /// `cos` times `0.787 -0.715 -0.072`, `-0.213 0.285 -0.072`, `-0.213 -0.715 0.928` plus
    /// `sin` times `-0.213 -0.715 0.928`, `0.143 0.140 -0.283`, `-0.787 0.715 0.072`.
    #[verifier::when_used_as_spec(spec_hue_rotate)]
    pub fn hue_rotate(sin: Binary32, cos: Binary32) -> (r: ColorMatrix)
        ensures
            r == ColorMatrix::spec_hue_rotate(sin, cos),
    {
        let zero = Binary32::zero();
        let luma = Luma::saturate();
        ColorMatrix::from_rgb_rows(
            RgbRow {
                r: luma.r.plus(cos.times(Binary32::from_bits(0x3f49_78d5))).plus(
                    sin.times(Binary32::from_bits(0xbe5a_1cac)),
                ),
                g: luma.g.plus(cos.times(Binary32::from_bits(0xbf37_0a3d))).plus(
                    sin.times(Binary32::from_bits(0xbf37_0a3d)),
                ),
                b: luma.b.plus(cos.times(Binary32::from_bits(0xbd93_74bc))).plus(
                    sin.times(Binary32::from_bits(0x3f6d_9168)),
                ),
                offset: zero,
            },
            RgbRow {
                r: luma.r.plus(cos.times(Binary32::from_bits(0xbe5a_1cac))).plus(
                    sin.times(Binary32::from_bits(0x3e12_6e98)),
                ),
                g: luma.g.plus(cos.times(Binary32::from_bits(0x3e91_eb85))).plus(
                    sin.times(Binary32::from_bits(0x3e0f_5c29)),
                ),
                b: luma.b.plus(cos.times(Binary32::from_bits(0xbd93_74bc))).plus(
                    sin.times(Binary32::from_bits(0xbe90_e560)),
                ),
                offset: zero,
            },
            RgbRow {
                r: luma.r.plus(cos.times(Binary32::from_bits(0xbe5a_1cac))).plus(
                    sin.times(Binary32::from_bits(0xbf49_78d5)),
                ),
                g: luma.g.plus(cos.times(Binary32::from_bits(0xbf37_0a3d))).plus(
                    sin.times(Binary32::from_bits(0x3f37_0a3d)),
                ),
                b: luma.b.plus(cos.times(Binary32::from_bits(0x3f6d_9168))).plus(
                    sin.times(Binary32::from_bits(0x3d93_74bc)),
                ),
                offset: zero,
            },
        )
    }

    /// Whether the matrices have equal coefficients.
    pub open spec fn spec_same_as(self, other: ColorMatrix) -> bool {
        &&& self.red.same_as(other.red)
        &&& self.green.same_as(other.green)
        &&& self.blue.same_as(other.blue)
        &&& self.alpha.same_as(other.alpha)
    }

    /// Whether the coefficients are equal as numbers.
    #[verifier::when_used_as_spec(spec_same_as)]
    pub fn same_as(self, other: ColorMatrix) -> (r: bool)
        ensures
            r == self.spec_same_as(other),
    {
        self.red.same_as(other.red) && self.green.same_as(other.green) && self.blue.same_as(
            other.blue,
        ) && self.alpha.same_as(other.alpha)
    }

    pub open spec fn spec_apply(self, color: Color) -> Color {
        Color {
            r: clamp_unit(self.red.combine(color)),
            g: clamp_unit(self.green.combine(color)),
            b: clamp_unit(self.blue.combine(color)),
            a: clamp_unit(self.alpha.combine(color)),
        }
    }

    /// Applies the matrix to one non-premultiplied sRGB colour. The result is clamped to
    /// `[0, 1]`.
    #[verifier::when_used_as_spec(spec_apply)]
    pub fn apply(self, color: Color) -> (r: Color)
        ensures
            r == self.spec_apply(color),
    {
        Color {
            r: clamp_unit(self.red.combine(color)),
            g: clamp_unit(self.green.combine(color)),
            b: clamp_unit(self.blue.combine(color)),
            a: clamp_unit(self.alpha.combine(color)),
        }
    }

    pub open spec fn spec_apply_vector(self, vector: Color, premultiplied: bool) -> Color {
        Color {
            r: self.red.combine_vector(vector, premultiplied),
            g: self.green.combine_vector(vector, premultiplied),
            b: self.blue.combine_vector(vector, premultiplied),
            a: vector.a,
        }
    }

    /// Applies the matrix to a vector in the space that gradients are interpolated in, without
    /// clamping. Alpha is kept.
    #[verifier::when_used_as_spec(spec_apply_vector)]
    pub fn apply_vector(self, vector: Color, premultiplied: bool) -> (r: Color)
        ensures
            r == self.spec_apply_vector(vector, premultiplied),
    {
        Color {
            r: self.red.combine_vector(vector, premultiplied),
            g: self.green.combine_vector(vector, premultiplied),
            b: self.blue.combine_vector(vector, premultiplied),
            a: vector.a,
        }
    }

    pub open spec fn spec_has_no_alpha_column(self) -> bool {
        let zero = Binary32::zero();
        &&& self.red.a.equals(zero)
        &&& self.green.a.equals(zero)
        &&& self.blue.a.equals(zero)
    }

    /// Whether alpha contributes to no colour channel.
    #[verifier::when_used_as_spec(spec_has_no_alpha_column)]
    pub fn has_no_alpha_column(self) -> (r: bool)
        ensures
            r == self.spec_has_no_alpha_column(),
    {
        let zero = Binary32::zero();
        self.red.a.equals(zero) && self.green.a.equals(zero) && self.blue.a.equals(zero)
    }
}

/// The filter functions of the `filter` property.
#[derive(Clone, Copy, Debug, PartialEq, Eq, Structural)]
pub enum Filter {
    Blur,
    Brightness(Binary32),
    Contrast(Binary32),
    DropShadow,
    Grayscale(Binary32),
    /// The sine and the cosine of the angle.
    HueRotate(Binary32, Binary32),
    Invert(Binary32),
    Opacity,
    Saturate(Binary32),
    Sepia(Binary32),
    Url,
}

impl Filter {
    pub open spec fn spec_matrix(self) -> Option<ColorMatrix> {
        match self {
            Filter::Brightness(amount) => Some(ColorMatrix::brightness(amount)),
            Filter::Contrast(amount) => Some(ColorMatrix::contrast(amount)),
            Filter::Grayscale(amount) => Some(ColorMatrix::grayscale(amount)),
            Filter::HueRotate(sin, cos) => Some(ColorMatrix::hue_rotate(sin, cos)),
            Filter::Invert(amount) => Some(ColorMatrix::invert(amount)),
            Filter::Saturate(amount) => Some(ColorMatrix::saturate(amount)),
            Filter::Sepia(amount) => Some(ColorMatrix::sepia(amount)),
            Filter::Blur | Filter::DropShadow | Filter::Opacity | Filter::Url => None,
        }
    }

    /// The matrix of the filter, for the seven that are one.
    #[verifier::when_used_as_spec(spec_matrix)]
    pub fn matrix(self) -> (r: Option<ColorMatrix>)
        ensures
            r == self.spec_matrix(),
    {
        match self {
            Filter::Brightness(amount) => Some(ColorMatrix::brightness(amount)),
            Filter::Contrast(amount) => Some(ColorMatrix::contrast(amount)),
            Filter::Grayscale(amount) => Some(ColorMatrix::grayscale(amount)),
            Filter::HueRotate(sin, cos) => Some(ColorMatrix::hue_rotate(sin, cos)),
            Filter::Invert(amount) => Some(ColorMatrix::invert(amount)),
            Filter::Saturate(amount) => Some(ColorMatrix::saturate(amount)),
            Filter::Sepia(amount) => Some(ColorMatrix::sepia(amount)),
            Filter::Blur | Filter::DropShadow | Filter::Opacity | Filter::Url => None,
        }
    }
}

/// The matrices of a filter in the order they apply, two of them in place.
#[verifier::external_body]
pub struct MatrixList {
    items: SmallVec<[ColorMatrix; 2]>,
}

/// What a list of matrices holds, in order.
pub uninterp spec fn listed_matrices(list: MatrixList) -> Seq<ColorMatrix>;

impl MatrixList {
    /// `SmallVec::new`: a list that holds nothing.
    #[verifier::external_body]
    pub(crate) fn new() -> (r: MatrixList)
        ensures
            listed_matrices(r) == Seq::<ColorMatrix>::empty(),
    {
        MatrixList { items: SmallVec::new() }
    }

    /// `SmallVec::push`: the item goes behind those that are there.
    #[verifier::external_body]
    pub(crate) fn push(&mut self, matrix: ColorMatrix)
        ensures
            listed_matrices(*final(self)) == listed_matrices(*old(self)).push(matrix),
    {
        self.items.push(matrix);
    }

    /// `SmallVec::len`: the number of items.
    #[verifier::external_body]
    pub(crate) fn len(&self) -> (r: usize)
        ensures
            r == listed_matrices(*self).len(),
    {
        self.items.len()
    }

    /// The index operator of `SmallVec`: the item at an index. It panics past the end.
    #[verifier::external_body]
    pub(crate) fn at(&self, index: usize) -> (r: ColorMatrix)
        requires
            index < listed_matrices(*self).len(),
        ensures
            r == listed_matrices(*self)[index as int],
    {
        self.items[index]
    }
}

/// The ordered list of colour matrices that a `filter` value expands to.
///
/// The filter functions apply in order, each to the output of the one before. The matrices
/// are therefore applied one at a time, with the clamp to `[0, 1]` between them, and not
/// multiplied into one: that would skip the intermediate clamps.
pub struct ColorMatrixChain {
    pub list: MatrixList,
}

/// The colour after the first `n` matrices.
pub open spec fn filtered(matrices: Seq<ColorMatrix>, color: Color, n: nat) -> Color
    decreases n,
{
    if n == 0 {
        color
    } else {
        matrices[n - 1].apply(filtered(matrices, color, (n - 1) as nat))
    }
}

impl ColorMatrixChain {
    /// The matrices in the order they apply.
    pub open spec fn matrices(self) -> Seq<ColorMatrix> {
        listed_matrices(self.list)
    }

    /// The chain of the given matrices.
    pub fn from_matrices(matrices: &[ColorMatrix]) -> (r: ColorMatrixChain)
        ensures
            r.matrices() == matrices@,
    {
        let mut list = MatrixList::new();
        let mut i: usize = 0;
        while i < matrices.len()
            invariant
                i <= matrices@.len(),
                listed_matrices(list) == matrices@.take(i as int),
            decreases matrices@.len() - i,
        {
            list.push(matrices[i]);
            assert(matrices@.take(i + 1) =~= matrices@.take(i as int).push(matrices@[i as int]));
            i = i + 1;
        }
        assert(matrices@.take(matrices@.len() as int) =~= matrices@);
        ColorMatrixChain { list }
    }

    /// Expands a computed `filter` list into colour matrices.
    ///
    /// There is a chain only where every function of the list is one of the seven
    /// alpha-preserving colour-matrix shorthands, and there is at least one: interleaving a
    /// per-paint rewrite with an offscreen pass would apply them out of order.
    pub fn from_filters(filters: &[Filter]) -> (r: Option<ColorMatrixChain>)
        ensures
            r is Some <==> filters@.len() > 0 && forall|i: int|
                0 <= i < filters@.len() ==> (#[trigger] filters@[i]).matrix() is Some,
            r matches Some(chain) ==> chain.matrices() == Seq::new(
                filters@.len(),
                |i: int| filters@[i].matrix()->0,
            ),
    {
        if filters.len() == 0 {
            return None;
        }
        let ghost all = Seq::new(filters@.len(), |i: int| filters@[i].matrix()->0);
        let mut list = MatrixList::new();
        let mut i: usize = 0;
        while i < filters.len()
            invariant
                i <= filters@.len(),
                all == Seq::new(filters@.len(), |i: int| filters@[i].matrix()->0),
                listed_matrices(list) == all.take(i as int),
                forall|k: int| 0 <= k < i ==> (#[trigger] filters@[k]).matrix() is Some,
            decreases filters@.len() - i,
        {
            match filters[i].matrix() {
                Some(matrix) => {
                    list.push(matrix);
                },
                None => {
                    return None;
                },
            }
            assert(all.take(i + 1) =~= all.take(i as int).push(all[i as int]));
            i = i + 1;
        }
        assert(all.take(filters@.len() as int) =~= all);
        Some(ColorMatrixChain { list })
    }

    /// Whether every matrix is the identity.
    pub open spec fn only_identities(self) -> bool {
        forall|i: int|
            0 <= i < self.matrices().len() ==> (#[trigger] self.matrices()[i]).same_as(
                ColorMatrix::identity(),
            )
    }

    /// Whether the chain leaves every colour unchanged, so that nothing has to be rewritten.
    pub fn is_identity(&self) -> (r: bool)
        ensures
            r == self.only_identities(),
    {
        let len: usize = self.list.len();
        let mut i: usize = 0;
        while i < len
            invariant
                i <= len,
                len == self.matrices().len(),
                forall|k: int|
                    0 <= k < i ==> (#[trigger] self.matrices()[k]).same_as(
                        ColorMatrix::identity(),
                    ),
            decreases len - i,
        {
            if !self.list.at(i).same_as(ColorMatrix::identity()) {
                assert(!self.matrices()[i as int].same_as(ColorMatrix::identity()));
                return false;
            }
            i = i + 1;
        }
        true
    }

    /// The colour that the chain makes of a colour.
    pub open spec fn spec_apply(&self, color: Color) -> Color {
        filtered(self.matrices(), color, self.matrices().len())
    }

    /// Applies the matrices in order, each to the clamped result of the one before.
    #[verifier::when_used_as_spec(spec_apply)]
    pub fn apply(&self, color: Color) -> (r: Color)
        ensures
            r == self.spec_apply(color),
    {
        let len: usize = self.list.len();
        let mut acc = color;
        let mut i: usize = 0;
        while i < len
            invariant
                i <= len,
                len == self.matrices().len(),
                acc == filtered(self.matrices(), color, i as nat),
            decreases len - i,
        {
            acc = self.list.at(i).apply(acc);
            i = i + 1;
        }
        acc
    }

    /// Whether alpha contributes to no colour channel of any matrix.
    pub open spec fn keeps_alpha_out(self) -> bool {
        forall|i: int|
            0 <= i < self.matrices().len() ==> (
            #[trigger] self.matrices()[i]).has_no_alpha_column()
    }

    /// Whether alpha contributes to no colour channel of any matrix.
    pub fn has_no_alpha_column(&self) -> (r: bool)
        ensures
            r == self.keeps_alpha_out(),
    {
        let len: usize = self.list.len();
        let mut i: usize = 0;
        while i < len
            invariant
                i <= len,
                len == self.matrices().len(),
                forall|k: int|
                    0 <= k < i ==> (#[trigger] self.matrices()[k]).has_no_alpha_column(),
            decreases len - i,
        {
            if !self.list.at(i).has_no_alpha_column() {
                assert(!self.matrices()[i as int].has_no_alpha_column());
                return false;
            }
            i = i + 1;
        }
        true
    }
}

} // verus!
