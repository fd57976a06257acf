//! A raster canvas: `width * height` pixels stored row by row, each knowing
//! its own coordinates. The color of a pixel is a value of type `C` that the
//! canvas only stores and hands back.

use vstd::prelude::*;
use vstd::arithmetic::div_mod::lemma_fundamental_div_mod_converse;

verus! {

/// A pixel of a canvas: its color and its coordinates.
#[derive(Clone, Copy, Debug)]
pub struct Pixel<C> {
    pub color: C,
    pub x: usize,
    pub y: usize,
}

impl<C: Copy> Pixel<C> {
    /// A pixel of color `color` at the origin.
    pub fn new(color: C) -> (p: Pixel<C>)
        ensures
            p == (Pixel { color, x: 0, y: 0 }),
    {
        Pixel { color, x: 0, y: 0 }
    }
}

/// A canvas of `width * height` pixels; the pixel at column `x` and row `y`
/// is stored at `y * width + x`.
pub struct Canvas<C> {
    width: usize,
    height: usize,
    pixel: Vec<Pixel<C>>,
}

/// The place of the pixel at column `x`, row `y` in a canvas of width `width`.
pub open spec fn pixel_index(width: int, x: int, y: int) -> int {
    y * width + x
}

/// Two pixels inside the canvas never share a place.
pub proof fn lemma_pixel_index_injective(width: int, x1: int, y1: int, x2: int, y2: int)
    requires
        0 <= x1 < width,
        0 <= x2 < width,
        0 <= y1,
        0 <= y2,
        pixel_index(width, x1, y1) == pixel_index(width, x2, y2),
    ensures
        x1 == x2,
        y1 == y2,
{
    let i = pixel_index(width, x1, y1);
    lemma_fundamental_div_mod_converse(i, width, y1, x1);
    lemma_fundamental_div_mod_converse(i, width, y2, x2);
}

/// A pixel inside the canvas has its place inside the pixel storage.
pub proof fn lemma_pixel_index_in_range(width: int, height: int, x: int, y: int)
    requires
        0 <= x < width,
        0 <= y < height,
    ensures
        0 <= pixel_index(width, x, y) < width * height,
{
    assert(0 <= y * width + x < width * height) by (nonlinear_arith)
        requires
            0 <= x < width,
            0 <= y < height,
    ;
}

impl<C: Copy> Canvas<C> {
    pub closed spec fn spec_width(&self) -> usize {
        self.width
    }

    pub closed spec fn spec_height(&self) -> usize {
        self.height
    }

    /// The pixels, row by row.
    pub closed spec fn pixels(&self) -> Seq<Pixel<C>> {
        self.pixel@
    }

    /// The canvas holds exactly `width * height` pixels.
    pub open spec fn wf(&self) -> bool {
        self.pixels().len() == self.spec_width() * self.spec_height()
    }

    /// The pixel at column `x`, row `y`.
    pub open spec fn pixel_spec(&self, x: int, y: int) -> Pixel<C> {
        self.pixels()[pixel_index(self.spec_width() as int, x, y)]
    }

    /// A canvas of `width` by `height` pixels of color `background`, each
    /// pixel knowing its coordinates.
    pub fn new(width: usize, height: usize, background: C) -> (c: Canvas<C>)
        requires
            width * height <= usize::MAX,
        ensures
            c.wf(),
            c.spec_width() == width,
            c.spec_height() == height,
            forall|x: int, y: int|
                0 <= x < width && 0 <= y < height ==> #[trigger] c.pixel_spec(x, y) == (Pixel {
                    color: background,
                    x: x as usize,
                    y: y as usize,
                }),
    {
        let mut pixel: Vec<Pixel<C>> = Vec::new();
        let mut y: usize = 0;
        while y < height
            invariant
                width * height <= usize::MAX,
                y <= height,
                pixel@.len() == y * width,
                forall|j: int, i: int|
                    0 <= j < y && 0 <= i < width ==> #[trigger] pixel@[pixel_index(
                        width as int,
                        i,
                        j,
                    )] == (Pixel { color: background, x: i as usize, y: j as usize }),
            decreases height - y,
        {
            let mut x: usize = 0;
            while x < width
                invariant
                    width * height <= usize::MAX,
                    y < height,
                    x <= width,
                    pixel@.len() == y * width + x,
                    forall|j: int, i: int|
                        0 <= j < y && 0 <= i < width ==> #[trigger] pixel@[pixel_index(
                            width as int,
                            i,
                            j,
                        )] == (Pixel { color: background, x: i as usize, y: j as usize }),
                    forall|i: int|
                        0 <= i < x ==> #[trigger] pixel@[pixel_index(width as int, i, y as int)]
                            == (Pixel { color: background, x: i as usize, y }),
                decreases width - x,
            {
                proof {
                    lemma_pixel_index_in_range(width as int, height as int, x as int, y as int);
                    assert forall|j: int, i: int| 0 <= j < y && 0 <= i < width implies pixel_index(
                        width as int,
                        i,
                        j,
                    ) < y * width by {
                        lemma_pixel_index_in_range(width as int, y as int, i, j);
                    }
                    assert forall|i: int| 0 <= i < x implies pixel_index(width as int, i, y as int)
                        < y * width + x by {}
                }
                pixel.push(Pixel { color: background, x, y });
                x = x + 1;
            }
            proof {
                assert((y + 1) * width == y * width + width) by (nonlinear_arith);
            }
            y = y + 1;
        }
        proof {
            assert(height * width == width * height) by (nonlinear_arith);
        }
        Canvas { width, height, pixel }
    }

    /// Sets the color of the pixel at column `x`, row `y`.
    pub fn write_pixel(&mut self, x: usize, y: usize, c: C)
        requires
            old(self).wf(),
            x < old(self).spec_width(),
            y < old(self).spec_height(),
        ensures
            final(self).wf(),
            final(self).spec_width() == old(self).spec_width(),
            final(self).spec_height() == old(self).spec_height(),
            final(self).pixel_spec(x as int, y as int) == (Pixel {
                color: c,
                ..old(self).pixel_spec(x as int, y as int)
            }),
            forall|x2: int, y2: int|
                0 <= x2 < old(self).spec_width() && 0 <= y2 < old(self).spec_height() && (x2 != x
                    || y2 != y) ==> #[trigger] final(self).pixel_spec(x2, y2) == old(
                    self,
                ).pixel_spec(x2, y2),
    {
        let n = self.pixel.len();
        proof {
            lemma_pixel_index_in_range(self.width as int, self.height as int, x as int, y as int);
        }
        let idx = y * self.width + x;
        let mut p = self.pixel[idx];
        p.color = c;
        self.pixel.set(idx, p);
        proof {
            assert forall|x2: int, y2: int|
                0 <= x2 < old(self).spec_width() && 0 <= y2 < old(self).spec_height() && (x2 != x
                    || y2 != y) implies #[trigger] self.pixel_spec(x2, y2) == old(self).pixel_spec(
                x2,
                y2,
            ) by {
                lemma_pixel_index_in_range(self.width as int, self.height as int, x2, y2);
                if pixel_index(self.width as int, x2, y2) == idx {
                    lemma_pixel_index_injective(self.width as int, x2, y2, x as int, y as int);
                }
            }
        }
    }

    /// The pixel at column `x`, row `y`.
    pub fn pixel_at(&self, x: usize, y: usize) -> (p: &Pixel<C>)
        requires
            self.wf(),
            x < self.spec_width(),
            y < self.spec_height(),
        ensures
            *p == self.pixel_spec(x as int, y as int),
    {
        let n = self.pixel.len();
        proof {
            lemma_pixel_index_in_range(self.width as int, self.height as int, x as int, y as int);
        }
        &self.pixel[self.calc_idx(x, y)]
    }

    /// The place of the pixel at column `x`, row `y` among the pixels.
    pub fn calc_idx(&self, x: usize, y: usize) -> (i: usize)
        requires
            y * self.spec_width() + x <= usize::MAX,
        ensures
            i == pixel_index(self.spec_width() as int, x as int, y as int),
    {
        y * self.width + x
    }

    /// The pixels, row by row.
    pub fn get_pixels(&self) -> (r: &Vec<Pixel<C>>)
        ensures
            r@ == self.pixels(),
    {
        &self.pixel
    }

    pub fn get_width(&self) -> (r: usize)
        ensures
            r == self.spec_width(),
    {
        self.width
    }

    pub fn get_height(&self) -> (r: usize)
        ensures
            r == self.spec_height(),
    {
        self.height
    }
}

} // verus!
