//! RGBA images as they are sent to a browser.

use vstd::prelude::*;

verus! {

/// A pixel with red, green, blue and alpha channels.
#[derive(Clone, Copy, Debug, PartialEq, Eq, Structural)]
pub struct Pixel {
    r: u8,
    g: u8,
    b: u8,
    a: u8,
}

impl Pixel {
    pub fn new(r: u8, g: u8, b: u8, a: u8) -> (p: Pixel)
        ensures
            p.channels() == (r, g, b, a),
    {
        Pixel { r, g, b, a }
    }

    pub closed spec fn channels(&self) -> (u8, u8, u8, u8) {
        (self.r, self.g, self.b, self.a)
    }

    /// The red, green, blue and alpha channels.
    pub fn get_channels(&self) -> (c: (u8, u8, u8, u8))
        ensures
            c == self.channels(),
    {
        (self.r, self.g, self.b, self.a)
    }
}

/// An image of `width` by `height` pixels, row by row.
pub struct Image {
    width: usize,
    height: usize,
    pixels: Vec<Pixel>,
}

impl Image {
    pub closed spec fn spec_width(&self) -> usize {
        self.width
    }

    pub closed spec fn spec_height(&self) -> usize {
        self.height
    }

    pub closed spec fn pixel_seq(&self) -> Seq<Pixel> {
        self.pixels@
    }

    /// An image of the given size whose pixels are not set yet.
    pub fn new(width: usize, height: usize) -> (i: Image)
        ensures
            i.spec_width() == width,
            i.spec_height() == height,
            i.pixel_seq().len() == 0,
    {
        Image { width, height, pixels: Vec::new() }
    }

    /// Replaces the pixels.
    pub fn set_pixels(&mut self, pixels: Vec<Pixel>)
        ensures
            final(self).spec_width() == old(self).spec_width(),
            final(self).spec_height() == old(self).spec_height(),
            final(self).pixel_seq() == pixels@,
    {
        self.pixels = pixels;
    }

    pub fn get_width(&self) -> (r: usize)
        ensures
            r == self.spec_width(),
    {
        self.width
    }

    pub fn get_height(&self) -> (r: usize)
        ensures
            r == self.spec_height(),
    {
        self.height
    }

    pub fn get_pixels(&self) -> (r: &Vec<Pixel>)
        ensures
            r@ == self.pixel_seq(),
    {
        &self.pixels
    }
}

/// The image that is rendered for a `width` by `height` scene: every pixel
/// an opaque mid gray, `(127, 127, 127, 255)`.
pub fn render_image(width: usize, height: usize) -> (img: Image)
    requires
        width * height <= usize::MAX,
    ensures
        img.spec_width() == width,
        img.spec_height() == height,
        img.pixel_seq().len() == width * height,
        forall|i: int|
            0 <= i < width * height ==> (#[trigger] img.pixel_seq()[i]).channels() == (
                127u8,
                127u8,
                127u8,
                255u8,
            ),
{
    let color: u8 = 127;
    let p = Pixel::new(color, color, color, 255);
    let n = width * height;
    let mut pixels: Vec<Pixel> = Vec::new();
    let mut i: usize = 0;
    while i < n
        invariant
            i <= n,
            pixels@.len() == i,
            forall|j: int| 0 <= j < i ==> #[trigger] pixels@[j] == p,
        decreases n - i,
    {
        pixels.push(p);
        i = i + 1;
    }
    let mut image = Image::new(width, height);
    image.set_pixels(pixels);
    image
}

} // verus!
