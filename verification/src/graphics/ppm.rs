//! Pixels and the plain PPM text of an image.

use vstd::prelude::*;
use crate::algebra::fixed::{quot, ONE};
use crate::algebra::vec3::{Color, V3};

verus! {

/// The scalar 0.999: the brightest a channel of a pixel gets.
pub const ALMOST_ONE: i64 = 65470;

/// A pixel: red, green and blue, each from 0 to 255.
#[derive(Clone, Copy, Debug, PartialEq, Eq, Structural)]
pub struct Pixel {
    pub r: u8,
    pub g: u8,
    pub b: u8,
}

/// The scalar `a`, held between zero and 0.999.
pub open spec fn held(a: int) -> int {
    if a < 0 {
        0
    } else if a > ALMOST_ONE {
        ALMOST_ONE as int
    } else {
        a
    }
}

/// The byte of a channel whose samples sum to `sum`: the mean of the
/// samples, held between zero and 0.999, times 256, rounded down.
pub open spec fn channel(sum: int, samples: int) -> int {
    quot(held(quot(sum, samples)) * 256, ONE as int)
}

/// The pixel of a color sum over `samples` samples.
pub open spec fn quantized(sum: V3, samples: int) -> Pixel {
    Pixel {
        r: channel(sum.x, samples) as u8,
        g: channel(sum.y, samples) as u8,
        b: channel(sum.z, samples) as u8,
    }
}

/// The byte of a channel.
fn channel_byte(sum: i64, samples: i32) -> (r: u8)
    requires
        samples > 0,
    ensures
        r == channel(sum as int, samples as int),
        0 <= channel(sum as int, samples as int) <= 255,
{
    let mean: i64 = sum / (samples as i64);
    let clamped: i64 = clamp(mean, 0, ALMOST_ONE);
    ((clamped * 256) / 65536) as u8
}

/// `x`, held between `min` and `max`.
fn clamp(x: i64, min: i64, max: i64) -> (r: i64)
    requires
        min <= max,
    ensures
        r == if x < min {
            min
        } else if x > max {
            max
        } else {
            x
        },
{
    if x < min {
        return min;
    }
    if x > max {
        return max;
    }
    x
}

/// The pixel of the color sum `color` over `samples_per_pixel` samples.
/// No gamma correction is applied.
pub fn write_color(color: Color, samples_per_pixel: i32) -> (r: Pixel)
    requires
        samples_per_pixel > 0,
    ensures
        r == quantized(color@, samples_per_pixel as int),
{
    Pixel {
        r: channel_byte(color.x(), samples_per_pixel),
        g: channel_byte(color.y(), samples_per_pixel),
        b: channel_byte(color.z(), samples_per_pixel),
    }
}

/// The digit `d` as a character.
pub open spec fn digit(d: int) -> u8 {
    (48 + d) as u8
}

/// The decimal numeral of `n`, without leading zeros.
pub open spec fn decimal(n: int) -> Seq<u8>
    decreases n,
{
    if n < 10 {
        seq![digit(n)]
    } else {
        decimal(n / 10).push(digit(n % 10))
    }
}

/// The line of a pixel: its three bytes as numerals, separated by spaces.
pub open spec fn pixel_line(pixel: Pixel) -> Seq<u8> {
    decimal(pixel.r as int) + seq![32u8] + decimal(pixel.g as int) + seq![32u8] + decimal(
        pixel.b as int,
    ) + seq![10u8]
}

/// The lines of the pixels, in their order.
pub open spec fn pixel_lines(pixels: Seq<Pixel>) -> Seq<u8>
    decreases pixels.len(),
{
    if pixels.len() == 0 {
        Seq::<u8>::empty()
    } else {
        pixel_lines(pixels.drop_last()) + pixel_line(pixels.last())
    }
}

/// The head of a plain PPM image: the magic number, the width and the
/// height, and 255 as the largest value of a channel.
pub open spec fn header(width: int, height: int) -> Seq<u8> {
    seq![80u8, 51u8, 10u8] + decimal(width) + seq![32u8] + decimal(height) + seq![
        10u8,
        50u8,
        53u8,
        53u8,
        10u8,
    ]
}

/// The plain PPM text of an image.
pub open spec fn image_text(width: int, height: int, pixels: Seq<Pixel>) -> Seq<u8> {
    header(width, height) + pixel_lines(pixels)
}

/// Appends the decimal numeral of `n`.
fn push_decimal(out: &mut Vec<u8>, n: u32)
    ensures
        final(out)@ == old(out)@ + decimal(n as int),
    decreases n,
{
    if n >= 10 {
        push_decimal(out, n / 10);
    }
    let d: u8 = (n % 10) as u8;
    out.push(48 + d);
    proof {
        if n < 10 {
            assert(old(out)@.push(digit(n as int)) =~= old(out)@ + decimal(n as int));
        } else {
            assert((old(out)@ + decimal(n as int / 10)).push(digit(n as int % 10)) =~= old(out)@
                + decimal(n as int));
        }
    }
}

/// Appends the line of a pixel.
fn push_pixel(out: &mut Vec<u8>, pixel: Pixel)
    ensures
        final(out)@ == old(out)@ + pixel_line(pixel),
{
    push_decimal(out, pixel.r as u32);
    out.push(32);
    push_decimal(out, pixel.g as u32);
    out.push(32);
    push_decimal(out, pixel.b as u32);
    out.push(10);
    proof {
        assert(out@ =~= old(out)@ + pixel_line(pixel));
    }
}

/// The head of the plain PPM image of the given size.
pub fn write_header(width: i32, height: i32) -> (r: Vec<u8>)
    requires
        0 <= width,
        0 <= height,
    ensures
        r@ == header(width as int, height as int),
{
    let mut out: Vec<u8> = Vec::new();
    out.push(80);
    out.push(51);
    out.push(10);
    push_decimal(&mut out, width as u32);
    out.push(32);
    push_decimal(&mut out, height as u32);
    out.push(10);
    out.push(50);
    out.push(53);
    out.push(53);
    out.push(10);
    proof {
        assert(out@ =~= header(width as int, height as int));
    }
    out
}

/// The lines of the pixels, in their order.
pub fn write_pixels(pixels: &Vec<Pixel>) -> (r: Vec<u8>)
    ensures
        r@ == pixel_lines(pixels@),
{
    let mut out: Vec<u8> = Vec::new();
    let mut k: usize = 0;
    while k < pixels.len()
        invariant
            k <= pixels@.len(),
            out@ == pixel_lines(pixels@.take(k as int)),
        decreases pixels@.len() - k,
    {
        proof {
            assert(pixels@.take(k + 1).drop_last() =~= pixels@.take(k as int));
            assert(pixels@.take(k + 1).last() == pixels@[k as int]);
        }
        push_pixel(&mut out, pixels[k]);
        k = k + 1;
    }
    proof {
        assert(pixels@.take(k as int) =~= pixels@);
    }
    out
}

/// The plain PPM text of an image of the given size.
pub fn write_image(width: i32, height: i32, pixels: &Vec<Pixel>) -> (r: Vec<u8>)
    requires
        0 <= width,
        0 <= height,
    ensures
        r@ == image_text(width as int, height as int, pixels@),
{
    let mut out = write_header(width, height);
    let mut lines = write_pixels(pixels);
    out.append(&mut lines);
    out
}

} // verus!
