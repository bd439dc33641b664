//! Colours, pixels and images as plain 8-bit values.

use vstd::prelude::*;

verus! {

/// An opaque colour: red, green and blue.
#[derive(Clone, Copy, Debug, PartialEq, Eq, Structural, Hash)]
pub struct Color {
    pub r: u8,
    pub g: u8,
    pub b: u8,
}

/// A colour with its alpha channel.
#[derive(Clone, Copy, Debug, PartialEq, Eq, Structural, Hash)]
pub struct Pixel {
    pub r: u8,
    pub g: u8,
    pub b: u8,
    pub a: u8,
}

impl Pixel {
    /// The colour of the pixel, without its alpha.
    pub open spec fn spec_color(self) -> Color {
        Color { r: self.r, g: self.g, b: self.b }
    }

    /// The pixel with another colour and its own alpha.
    pub open spec fn spec_with_color(self, c: Color) -> Pixel {
        Pixel { r: c.r, g: c.g, b: c.b, a: self.a }
    }

    #[verifier::when_used_as_spec(spec_color)]
    pub fn color(self) -> (c: Color)
        ensures
            c == self.spec_color(),
    {
        Color { r: self.r, g: self.g, b: self.b }
    }

    #[verifier::when_used_as_spec(spec_with_color)]
    pub fn with_color(self, c: Color) -> (p: Pixel)
        ensures
            p == self.spec_with_color(c),
    {
        Pixel { r: c.r, g: c.g, b: c.b, a: self.a }
    }
}

/// A grid of pixels stored row by row, the top row first.
#[derive(Clone, Debug)]
pub struct Image {
    pub width: usize,
    pub height: usize,
    pub pixels: Vec<Pixel>,
}

impl Image {
    /// The grid holds exactly `width * height` pixels.
    pub open spec fn wf(&self) -> bool {
        self.pixels@.len() == self.width * self.height
    }

    /// An image of the given size over `pixels`, or `None` when their count
    /// is not `width * height`.
    pub fn new(width: usize, height: usize, pixels: Vec<Pixel>) -> (made: Option<Image>)
        ensures
            (made is Some) == (pixels@.len() == width * height),
            made matches Some(image) ==> image.wf() && image.width == width && image.height
                == height && image.pixels@ == pixels@,
    {
        let count = pixels.len();
        match width.checked_mul(height) {
            Some(area) => {
                assert(area == width * height);
                if area == count {
                    Some(Image { width, height, pixels })
                } else {
                    None
                }
            },
            None => {
                assert(width * height > usize::MAX);
                None
            },
        }
    }

    /// The pixel in column `x` of row `y`.
    pub open spec fn at(&self, x: int, y: int) -> Pixel {
        self.pixels@[y * self.width + x]
    }

    /// The pixel in column `x` of row `y`, or `None` outside the grid.
    pub fn get(&self, x: usize, y: usize) -> (found: Option<Pixel>)
        requires
            self.wf(),
        ensures
            found == (if x < self.width && y < self.height {
                Some(self.at(x as int, y as int))
            } else {
                None
            }),
    {
        if x < self.width && y < self.height {
            assert(self.pixels.len() == self.width * self.height);
            assert(0 <= y * self.width && y * self.width + x < self.width * self.height) by (nonlinear_arith)
                requires
                    0 <= x < self.width,
                    0 <= y < self.height,
            ;
            Some(self.pixels[y * self.width + x])
        } else {
            None
        }
    }
}

} // verus!
