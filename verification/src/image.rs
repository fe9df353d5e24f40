//! Pixels and 8x8 images: channel arithmetic, row access and the flat byte
//! layout used on the serial link.

use vstd::prelude::*;
use crate::gamma::{gamma_correct, gamma_of};

verus! {

/// One RGB pixel, eight bits per channel.
#[derive(Clone, Copy, Debug, Default, PartialEq, Eq, Structural)]
pub struct Color {
    pub r: u8,
    pub g: u8,
    pub b: u8,
}

/// An 8x8 image, stored row by row.
#[derive(Clone, Copy, Debug)]
pub struct Image([Color; 64]);

/// A channel scaled by a whole factor, clamped to the channel range.
pub open spec fn scaled(c: int, factor: int) -> int {
    if c * factor > 255 {
        255
    } else {
        c * factor
    }
}

/// A channel divided by a whole divisor, rounded to the nearest integer with
/// halves going up. Dividing by zero saturates: zero stays zero, anything
/// else becomes 255.
pub open spec fn divided(c: int, divisor: int) -> int {
    if divisor == 0 {
        if c == 0 {
            0
        } else {
            255
        }
    } else {
        (2 * c + divisor) / (2 * divisor)
    }
}

/// The divisor that the gradient applies at a cell.
pub open spec fn gradient_divisor(row: int, col: int) -> int {
    1 + row * row + col
}

fn scale_channel(c: u8, factor: u32) -> (out: u8)
    ensures
        out == scaled(c as int, factor as int),
{
    assert(c * factor <= 255 * 0xffff_ffff) by (nonlinear_arith)
        requires
            0 <= c <= 255,
            0 <= factor <= 0xffff_ffff,
    ;
    let wide: u64 = (c as u64) * (factor as u64);
    if wide > 255 {
        u8::MAX
    } else {
        wide as u8
    }
}

fn divide_channel(c: u8, divisor: u32) -> (out: u8)
    ensures
        out == divided(c as int, divisor as int),
{
    if divisor == 0 {
        if c == 0 {
            u8::MIN
        } else {
            u8::MAX
        }
    } else {
        let num: u64 = 2 * (c as u64) + (divisor as u64);
        let den: u64 = 2 * (divisor as u64);
        let q: u64 = num / den;
        assert(q <= c) by (nonlinear_arith)
            requires
                q == (2 * c + divisor) / (2 * divisor),
                divisor >= 1,
                c >= 0,
        ;
        q as u8
    }
}

impl Color {
    /// Pure red.
    pub fn red() -> (out: Color)
        ensures
            out == (Color { r: 255, g: 0, b: 0 }),
    {
        Color { r: 255, g: 0, b: 0 }
    }

    /// Pure green.
    pub fn green() -> (out: Color)
        ensures
            out == (Color { r: 0, g: 255, b: 0 }),
    {
        Color { r: 0, g: 255, b: 0 }
    }

    /// Pure blue.
    pub fn blue() -> (out: Color)
        ensures
            out == (Color { r: 0, g: 0, b: 255 }),
    {
        Color { r: 0, g: 0, b: 255 }
    }

    /// The color with every channel gamma-corrected.
    pub open spec fn corrected(self) -> Color {
        Color { r: gamma_of(self.r), g: gamma_of(self.g), b: gamma_of(self.b) }
    }

    /// The color with every channel scaled by `factor` and clamped.
    pub open spec fn times(self, factor: int) -> Color {
        Color {
            r: scaled(self.r as int, factor) as u8,
            g: scaled(self.g as int, factor) as u8,
            b: scaled(self.b as int, factor) as u8,
        }
    }

    /// The color with every channel divided by `divisor` and rounded.
    pub open spec fn over(self, divisor: int) -> Color {
        Color {
            r: divided(self.r as int, divisor) as u8,
            g: divided(self.g as int, divisor) as u8,
            b: divided(self.b as int, divisor) as u8,
        }
    }

    /// Channel `k` of the color: 0 is red, 1 is green, 2 is blue.
    pub open spec fn channel(self, k: int) -> u8 {
        if k == 0 {
            self.r
        } else if k == 1 {
            self.g
        } else {
            self.b
        }
    }

    /// The color with channel `k` replaced by `value`.
    pub open spec fn with_channel(self, k: int, value: u8) -> Color {
        if k == 0 {
            Color { r: value, ..self }
        } else if k == 1 {
            Color { g: value, ..self }
        } else {
            Color { b: value, ..self }
        }
    }

    /// Applies the gamma table to each channel.
    pub fn gamma_correct(&self) -> (out: Self)
        ensures
            out == self.corrected(),
    {
        Color { r: gamma_correct(self.r), g: gamma_correct(self.g), b: gamma_correct(self.b) }
    }

    /// Multiplies each channel by `factor`, clamping at 255.
    pub fn mul(self, factor: u32) -> (out: Self)
        ensures
            out == self.times(factor as int),
            out.r == scaled(self.r as int, factor as int),
            out.g == scaled(self.g as int, factor as int),
            out.b == scaled(self.b as int, factor as int),
    {
        Color {
            r: scale_channel(self.r, factor),
            g: scale_channel(self.g, factor),
            b: scale_channel(self.b, factor),
        }
    }

    /// Divides each channel by `divisor`, rounding to nearest.
    pub fn div(self, divisor: u32) -> (out: Self)
        ensures
            out == self.over(divisor as int),
            out.r == divided(self.r as int, divisor as int),
            out.g == divided(self.g as int, divisor as int),
            out.b == divided(self.b as int, divisor as int),
    {
        Color {
            r: divide_channel(self.r, divisor),
            g: divide_channel(self.g, divisor),
            b: divide_channel(self.b, divisor),
        }
    }
}

/// The cell at `(row, col)` of a row-major pixel sequence.
pub open spec fn cell(pixels: Seq<Color>, row: int, col: int) -> Color {
    pixels[row * 8 + col]
}

/// The wire layout of a pixel sequence: for each pixel in order its red,
/// green and blue byte.
pub open spec fn bytes_of(pixels: Seq<Color>) -> Seq<u8> {
    Seq::new(3 * pixels.len(), |i: int| pixels[i / 3].channel(i % 3))
}

/// The pixel sequence that a wire layout stands for.
pub open spec fn pixels_of(bytes: Seq<u8>) -> Seq<Color> {
    Seq::new(
        bytes.len() / 3,
        |p: int| Color { r: bytes[3 * p], g: bytes[3 * p + 1], b: bytes[3 * p + 2] },
    )
}

/// The pixel sequence after byte `i` of its wire layout is overwritten.
pub open spec fn with_byte(pixels: Seq<Color>, i: int, value: u8) -> Seq<Color> {
    pixels.update(i / 3, pixels[i / 3].with_channel(i % 3, value))
}

/// The gradient from `color` toward black.
pub open spec fn gradient_of(color: Color) -> Seq<Color> {
    Seq::new(64, |i: int| color.over(gradient_divisor(i / 8, i % 8)))
}

/// Overwriting one byte of the wire layout is the same as overwriting one
/// channel of one pixel: no other byte of the layout changes.
pub proof fn lemma_with_byte(pixels: Seq<Color>, i: int, value: u8)
    requires
        pixels.len() == 64,
        0 <= i < 192,
    ensures
        bytes_of(with_byte(pixels, i, value)) == bytes_of(pixels).update(i, value),
{
    let after = with_byte(pixels, i, value);
    assert forall|j: int| 0 <= j < 192 implies bytes_of(after)[j] == bytes_of(pixels).update(
        i,
        value,
    )[j] by {}
    assert(bytes_of(after) =~= bytes_of(pixels).update(i, value));
}

/// Reading an image back from its own wire layout gives the image.
pub proof fn lemma_pixels_round_trip(pixels: Seq<Color>)
    requires
        pixels.len() == 64,
    ensures
        pixels_of(bytes_of(pixels)) == pixels,
{
    assert forall|p: int| 0 <= p < 64 implies pixels_of(bytes_of(pixels))[p] == pixels[p] by {
        assert((3 * p) / 3 == p && (3 * p) % 3 == 0);
        assert((3 * p + 1) / 3 == p && (3 * p + 1) % 3 == 1);
        assert((3 * p + 2) / 3 == p && (3 * p + 2) % 3 == 2);
    }
    assert(pixels_of(bytes_of(pixels)) =~= pixels);
}

/// Writing out the image that 192 bytes stand for gives those bytes back.
pub proof fn lemma_bytes_round_trip(bytes: Seq<u8>)
    requires
        bytes.len() == 192,
    ensures
        bytes_of(pixels_of(bytes)) == bytes,
{
    assert forall|i: int| 0 <= i < 192 implies bytes_of(pixels_of(bytes))[i] == bytes[i] by {
        let p = i / 3;
        assert(i == 3 * p + i % 3);
    }
    assert(bytes_of(pixels_of(bytes)) =~= bytes);
}

/// Channel `k` of the cell at `(row, col)` of the image that 192 bytes stand
/// for is byte `3 * (8 * row + col) + k`.
pub proof fn lemma_cell_of_bytes(bytes: Seq<u8>, row: int, col: int, k: int)
    requires
        bytes.len() == 192,
        0 <= row < 8,
        0 <= col < 8,
        0 <= k < 3,
    ensures
        cell(pixels_of(bytes), row, col).channel(k) == bytes[3 * (8 * row + col) + k],
{
}

/// The gradient keeps the color at the origin and shows a 57th of it in
/// the far corner.
pub proof fn lemma_gradient_corners(color: Color)
    ensures
        cell(gradient_of(color), 0, 0) == color,
        cell(gradient_of(color), 7, 7) == color.over(57),
{
    assert(gradient_of(color)[0] == color.over(gradient_divisor(0, 0)));
    assert(gradient_of(color)[63] == color.over(gradient_divisor(7, 7)));
    assert(gradient_divisor(0, 0) == 1 && gradient_divisor(7, 7) == 57);
    assert forall|c: int| 0 <= c implies #[trigger] divided(c, 1) == c by {
        assert((2 * c + 1) / (2 * 1int) == c) by (nonlinear_arith)
            requires
                0 <= c,
        ;
    }
    assert(divided(color.r as int, 1) == color.r);
    assert(divided(color.g as int, 1) == color.g);
    assert(divided(color.b as int, 1) == color.b);
}

/// Types with a default image or value of their own.
pub trait Default: Sized {
    fn default() -> Self;
}

impl View for Image {
    type V = Seq<Color>;

    closed spec fn view(&self) -> Seq<Color> {
        self.0@
    }
}

impl Image {
    /// Every image has exactly 64 pixels.
    pub proof fn lemma_len(&self)
        ensures
            self@.len() == 64,
    {
    }

    /// An image filled with one color.
    pub fn new_solid(color: Color) -> (img: Self)
        ensures
            img@ == Seq::new(64, |i: int| color),
    {
        let img = Image([color;64]);
        assert(img@ =~= Seq::new(64, |i: int| color));
        img
    }

    /// The eight pixels of one row, left to right.
    pub fn row(&self, row: usize) -> (pixels: &[Color])
        requires
            row < 8,
        ensures
            pixels@ == self@.subrange(row * 8, row * 8 + 8),
    {
        &self.0[(row * 8)..(row * 8 + 8)]
    }

    /// The image whose cell `(row, col)` is `color` divided by
    /// `1 + row * row + col`.
    pub fn gradient(color: Color) -> (img: Self)
        ensures
            img@ == gradient_of(color),
    {
        let mut img = Image::new_solid(Color { r: 0, g: 0, b: 0 });
        for row in 0..8usize
            invariant
                img@.len() == 64,
                forall|i: int| 0 <= i < row * 8 ==> img@[i] == #[trigger] gradient_of(color)[i],
        {
            for col in 0..8usize
                invariant
                    row < 8,
                    img@.len() == 64,
                    forall|i: int|
                        0 <= i < row * 8 + col ==> img@[i] == #[trigger] gradient_of(color)[i],
            {
                let divisor: usize = 1 + row * row + col;
                let shade = color.div(divisor as u32);
                let at: usize = row * 8 + col;
                assert(at / 8 == row && at % 8 == col);
                img.0[at] = shade;
            }
        }
        assert(img@ =~= gradient_of(color));
        img
    }

    /// The pixel at `(row, col)`.
    pub fn index(&self, at: (usize, usize)) -> (pixel: &Color)
        requires
            at.0 < 8,
            at.1 < 8,
        ensures
            *pixel == cell(self@, at.0 as int, at.1 as int),
    {
        &self.0[at.0 * 8 + at.1]
    }

    /// Byte `i` of the wire layout: channel `i % 3` of pixel `i / 3`.
    pub fn byte(&self, i: usize) -> (value: u8)
        requires
            i < 192,
        ensures
            value == bytes_of(self@)[i as int],
            value == self@[i as int / 3].channel(i as int % 3),
    {
        let pixel = self.0[i / 3];
        let k: usize = i % 3;
        if k == 0 {
            pixel.r
        } else if k == 1 {
            pixel.g
        } else {
            pixel.b
        }
    }

    /// Overwrites byte `i` of the wire layout: exactly channel `i % 3` of
    /// pixel `i / 3` changes.
    pub fn set_byte(&mut self, i: usize, value: u8)
        requires
            i < 192,
        ensures
            final(self)@ == with_byte(old(self)@, i as int, value),
            bytes_of(final(self)@) == bytes_of(old(self)@).update(i as int, value),
    {
        let at: usize = i / 3;
        let k: usize = i % 3;
        let mut pixel = self.0[at];
        if k == 0 {
            pixel.r = value;
        } else if k == 1 {
            pixel.g = value;
        } else {
            pixel.b = value;
        }
        self.0[at] = pixel;
        proof {
            lemma_with_byte(old(self)@, i as int, value);
        }
    }

    /// The wire layout of the image: 192 bytes, row by row, each pixel as
    /// red, green, blue.
    pub fn bytes(&self) -> (out: [u8; 192])
        ensures
            out@ == bytes_of(self@),
    {
        let mut out = [0u8;192];
        for i in 0..192usize
            invariant
                forall|j: int| 0 <= j < i ==> out@[j] == #[trigger] bytes_of(self@)[j],
        {
            out[i] = self.byte(i);
        }
        assert(out@ =~= bytes_of(self@));
        out
    }

    /// The image that a wire layout stands for.
    pub fn from_bytes(bytes: &[u8; 192]) -> (img: Self)
        ensures
            img@ == pixels_of(bytes@),
    {
        let mut img = Image::new_solid(Color { r: 0, g: 0, b: 0 });
        for p in 0..64usize
            invariant
                img@.len() == 64,
                forall|q: int| 0 <= q < p ==> img@[q] == #[trigger] pixels_of(bytes@)[q],
        {
            img.0[p] = Color { r: bytes[3 * p], g: bytes[3 * p + 1], b: bytes[3 * p + 2] };
        }
        assert(img@ =~= pixels_of(bytes@));
        img
    }

    /// The pixel at `(row, col)`, to be overwritten in place.
    pub fn index_mut(&mut self, at: (usize, usize)) -> (pixel: &mut Color)
        requires
            at.0 < 8,
            at.1 < 8,
        ensures
            *pixel == cell(old(self)@, at.0 as int, at.1 as int),
            final(self)@ == old(self)@.update(at.0 * 8 + at.1, *final(pixel)),
    {
        &mut self.0[at.0 * 8 + at.1]
    }
}

impl Default for Image {
    /// The all-black image.
    fn default() -> (img: Self)
        ensures
            img@ == Seq::new(64, |i: int| Color { r: 0, g: 0, b: 0 }),
    {
        Image::new_solid(Color { r: 0, g: 0, b: 0 })
    }
}

} // verus!
