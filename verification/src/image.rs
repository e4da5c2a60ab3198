//! Filtering the pixels of an image.

use crate::color::Color;
use crate::color_matrix::ColorMatrixChain;
use crate::ieee::Binary32;
use vstd::prelude::*;

verus! {

/// The byte layout of a pixel.
#[derive(Clone, Copy, Debug, PartialEq, Eq, Structural)]
pub enum ImageFormat {
    Rgba8,
    Bgra8,
    /// A layout that is not known here.
    Other,
}

/// The pixels that an image brush paints with.
pub struct ImageBrush {
    pub format: ImageFormat,
    pub premultiplied: bool,
    pub data: Vec<u8>,
}

/// The four bytes of a pixel by component.
#[derive(Clone, Copy, Debug, PartialEq, Eq, Structural)]
pub struct Pixel {
    pub r: u8,
    pub g: u8,
    pub b: u8,
    pub a: u8,
}

pub open spec fn spec_from_byte(x: u8) -> Binary32 {
    Binary32::from_unsigned(x as u64).over(Binary32::from_unsigned(255))
}

/// A byte as a fraction of 255.
#[verifier::when_used_as_spec(spec_from_byte)]
pub fn from_byte(x: u8) -> (r: Binary32)
    ensures
        r == spec_from_byte(x),
{
    Binary32::from_unsigned(x as u64).over(Binary32::from_unsigned(255))
}

pub open spec fn spec_to_byte(x: Binary32, remul: Binary32) -> u8 {
    let full = Binary32::from_unsigned(255);
    x.times(remul).times(full).plus(Binary32::half()).clamp(Binary32::zero(), full).to_unsigned(
        255,
    ) as u8
}

/// The byte nearest to a fraction, after multiplying it by `remul`.
#[verifier::when_used_as_spec(spec_to_byte)]
pub fn to_byte(x: Binary32, remul: Binary32) -> (r: u8)
    ensures
        r == spec_to_byte(x, remul),
{
    let full = Binary32::from_unsigned(255);
    proof {
        Binary32::lemma_constants(x);
        Binary32::lemma_from_unsigned(255);
        full.lemma_sign();
    }
    let scaled = x.times(remul).times(full).plus(Binary32::half());
    scaled.clamp(Binary32::zero(), full).to_unsigned(255) as u8
}

impl ColorMatrixChain {
    /// The colour of a pixel, premultiplication divided out.
    pub open spec fn pixel_color(&self, pixel: Pixel, premultiplied: bool) -> Color {
        let one = Binary32::one();
        let a = from_byte(pixel.a);
        let unmul = if premultiplied {
            one.over(a)
        } else {
            one
        };
        Color {
            r: from_byte(pixel.r).times(unmul),
            g: from_byte(pixel.g).times(unmul),
            b: from_byte(pixel.b).times(unmul),
            a,
        }
    }

    /// What the chain makes of a pixel. A transparent one has no colour to filter, and alpha
    /// stays.
    pub open spec fn spec_apply_to_pixel(&self, pixel: Pixel, premultiplied: bool) -> Pixel {
        let a = from_byte(pixel.a);
        if a.equals(Binary32::zero()) {
            pixel
        } else {
            let filtered = self.apply(self.pixel_color(pixel, premultiplied));
            let remul = if premultiplied {
                a
            } else {
                Binary32::one()
            };
            Pixel {
                r: to_byte(filtered.r, remul),
                g: to_byte(filtered.g, remul),
                b: to_byte(filtered.b, remul),
                a: pixel.a,
            }
        }
    }

    /// Filters one pixel. The calculation is on non-premultiplied values, so premultiplied
    /// pixels are divided out first and multiplied back afterwards.
    #[verifier::when_used_as_spec(spec_apply_to_pixel)]
    pub fn apply_to_pixel(&self, pixel: Pixel, premultiplied: bool) -> (r: Pixel)
        ensures
            r == self.spec_apply_to_pixel(pixel, premultiplied),
    {
        let one = Binary32::one();
        let a = from_byte(pixel.a);
        if a.equals(Binary32::zero()) {
            return pixel;
        }
        let unmul = if premultiplied {
            one.over(a)
        } else {
            one
        };
        let filtered = self.apply(
            Color {
                r: from_byte(pixel.r).times(unmul),
                g: from_byte(pixel.g).times(unmul),
                b: from_byte(pixel.b).times(unmul),
                a,
            },
        );
        let remul = if premultiplied {
            a
        } else {
            one
        };
        Pixel {
            r: to_byte(filtered.r, remul),
            g: to_byte(filtered.g, remul),
            b: to_byte(filtered.b, remul),
            a: pixel.a,
        }
    }

    /// The pixel whose bytes start at `at`.
    pub open spec fn pixel_at(data: Seq<u8>, bgra: bool, at: int) -> Pixel {
        if bgra {
            Pixel { r: data[at + 2], g: data[at + 1], b: data[at], a: data[at + 3] }
        } else {
            Pixel { r: data[at], g: data[at + 1], b: data[at + 2], a: data[at + 3] }
        }
    }

    /// The bytes of a pixel.
    pub open spec fn pixel_bytes(pixel: Pixel, bgra: bool) -> Seq<u8> {
        if bgra {
            seq![pixel.b, pixel.g, pixel.r, pixel.a]
        } else {
            seq![pixel.r, pixel.g, pixel.b, pixel.a]
        }
    }

    /// The filtered bytes of the first `n` pixels.
    pub open spec fn filtered_pixels(
        &self,
        data: Seq<u8>,
        bgra: bool,
        premultiplied: bool,
        n: nat,
    ) -> Seq<u8>
        decreases n,
    {
        if n == 0 {
            Seq::empty()
        } else {
            self.filtered_pixels(data, bgra, premultiplied, (n - 1) as nat) + Self::pixel_bytes(
                self.apply_to_pixel(Self::pixel_at(data, bgra, 4 * (n - 1)), premultiplied),
                bgra,
            )
        }
    }

    /// The bytes that the chain makes of an image: those of its whole pixels, where their
    /// layout is known.
    pub open spec fn filtered_image(&self, brush: ImageBrush) -> Seq<u8> {
        if brush.format is Other {
            brush.data@
        } else {
            self.filtered_pixels(
                brush.data@,
                brush.format is Bgra8,
                brush.premultiplied,
                brush.data@.len() / 4,
            )
        }
    }

    /// Rewrites an image brush's pixels. A brush whose byte layout is not known is left alone.
    pub fn apply_to_image(&self, brush: &mut ImageBrush)
        ensures
            final(brush).data@ == self.filtered_image(*old(brush)),
            final(brush).format == old(brush).format,
            final(brush).premultiplied == old(brush).premultiplied,
    {
        let bgra: bool = match brush.format {
            ImageFormat::Rgba8 => false,
            ImageFormat::Bgra8 => true,
            ImageFormat::Other => {
                return;
            },
        };
        let premultiplied: bool = brush.premultiplied;
        let len: usize = brush.data.len();
        let pixels: usize = len / 4;
        let ghost data = brush.data@;
        let mut out: Vec<u8> = Vec::new();
        let mut i: usize = 0;
        while i < pixels
            invariant
                i <= pixels,
                pixels == len / 4,
                len == data.len(),
                data == brush.data@,
                out@ == self.filtered_pixels(data, bgra, premultiplied, i as nat),
            decreases pixels - i,
        {
            let at: usize = 4 * i;
            let (x, g, z) = (brush.data[at], brush.data[at + 1], brush.data[at + 2]);
            let (r, b) = if bgra {
                (z, x)
            } else {
                (x, z)
            };
            let pixel = Pixel { r, g, b, a: brush.data[at + 3] };
            let done = self.apply_to_pixel(pixel, premultiplied);
            let ghost before = out@;
            if bgra {
                out.push(done.b);
                out.push(done.g);
                out.push(done.r);
            } else {
                out.push(done.r);
                out.push(done.g);
                out.push(done.b);
            }
            out.push(done.a);
            assert(out@ =~= before + Self::pixel_bytes(done, bgra));
            i = i + 1;
        }
        brush.data = out;
    }
}

} // verus!
