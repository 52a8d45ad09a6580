use vstd::prelude::*;
use crate::error::InputError;

verus! {

/// A decoded image: `height` raster rows of `width` pixels, each pixel a
/// `(red, green, blue)` triple. Raster row 0 is the top of the picture. The
/// pixels are stored row after row, and there are exactly `width * height`.
pub struct Raster {
    width: u32,
    height: u32,
    pixels: Vec<(u8, u8, u8)>,
}

/// The number of pixels in each raster row.
pub closed spec fn image_width(img: Raster) -> nat {
    img.width as nat
}

/// The number of raster rows.
pub closed spec fn image_height(img: Raster) -> nat {
    img.height as nat
}

/// The colour at column `x` of raster row `y`.
pub closed spec fn image_pixel(img: Raster, x: int, y: int) -> (u8, u8, u8) {
    img.pixels@[y * img.width + x]
}

/// A pixel inside the image has its place inside the stored colours.
proof fn lemma_pixel_place(width: int, height: int, x: int, y: int)
    by (nonlinear_arith)
    requires
        0 <= x < width,
        0 <= y < height,
    ensures
        0 <= y * width + x < width * height,
{
}

impl Raster {
    #[verifier::type_invariant]
    spec fn well_formed(self) -> bool {
        &&& self.pixels@.len() == self.width * self.height
        &&& self.pixels@.len() <= usize::MAX
    }

    /// Takes `pixels`, row after row from the top, as an image of `width` by
    /// `height` pixels, if there is one colour for each pixel.
    pub fn new(width: u32, height: u32, pixels: Vec<(u8, u8, u8)>) -> (r: Result<
        Raster,
        InputError,
    >)
        ensures
            match r {
                Ok(img) => {
                    &&& pixels@.len() == width * height
                    &&& image_width(img) == width
                    &&& image_height(img) == height
                    &&& forall|x: int, y: int|
                        0 <= x < width && 0 <= y < height ==> #[trigger] image_pixel(img, x, y)
                            == pixels@[y * width + x]
                },
                Err(e) => {
                    &&& pixels@.len() != width * height
                    &&& e == (InputError::PixelCount {
                        width: width as usize,
                        height: height as usize,
                        pixels: pixels@.len() as usize,
                    })
                },
            },
    {
        assert(width * height <= 0xFFFF_FFFF * 0xFFFF_FFFF) by (nonlinear_arith)
            requires
                0 <= width <= 0xFFFF_FFFF,
                0 <= height <= 0xFFFF_FFFF,
        ;
        let expected: u64 = (width as u64) * (height as u64);
        if pixels.len() as u64 != expected {
            return Err(
                InputError::PixelCount {
                    width: width as usize,
                    height: height as usize,
                    pixels: pixels.len(),
                },
            );
        }
        Ok(Raster { width, height, pixels })
    }

    /// Number of pixels in each raster row.
    pub fn width(&self) -> (w: u32)
        ensures
            w == image_width(*self),
    {
        self.width
    }

    /// Number of raster rows.
    pub fn height(&self) -> (h: u32)
        ensures
            h == image_height(*self),
    {
        self.height
    }

    /// The colour at column `x` of raster row `y`.
    pub fn pixel(&self, x: u32, y: u32) -> (p: (u8, u8, u8))
        requires
            x < image_width(*self),
            y < image_height(*self),
        ensures
            p == image_pixel(*self, x as int, y as int),
    {
        proof {
            use_type_invariant(self);
            lemma_pixel_place(self.width as int, self.height as int, x as int, y as int);
            assert(0 <= y * self.width <= y * self.width + x) by (nonlinear_arith)
                requires
                    0 <= y,
                    0 <= self.width,
                    0 <= x,
            ;
        }
        let place: usize = (y as usize) * (self.width as usize) + (x as usize);
        self.pixels[place]
    }
}

} // verus!
