use vstd::prelude::*;
use crate::geometry::Vec3;
use crate::error::InputError;
use crate::raster::{image_height, image_pixel, image_width, Raster};

verus! {

/// `f` has `h` rows of `w` points each.
pub open spec fn is_grid(f: Seq<Seq<Vec3>>, h: int, w: int) -> bool {
    &&& f.len() == h
    &&& forall|y: int| 0 <= y < h ==> (#[trigger] f[y]).len() == w
}

/// `f` is a grid that can be meshed: at least two rows and two columns.
pub open spec fn is_field(f: Seq<Seq<Vec3>>) -> bool {
    &&& f.len() >= 2
    &&& f[0].len() >= 2
    &&& is_grid(f, f.len() as int, f[0].len() as int)
}

/// The rows of `rows` as sequences.
pub open spec fn rows_view(rows: Seq<Vec<Vec3>>) -> Seq<Seq<Vec3>> {
    Seq::new(rows.len(), |y: int| rows[y]@)
}

/// `v` can stand at row `y`, column `x` of a sampling of `img`: its planar
/// coordinates are results of `scale` on `x` and on `y`, and its depth is a
/// result of `shade` on the colour at column `x` of raster row
/// `height - 1 - y`.
pub open spec fn is_sample<S: Fn(u32) -> u32, Z: Fn(u8, u8, u8) -> u32>(
    img: Raster,
    scale: S,
    shade: Z,
    y: int,
    x: int,
    v: Vec3,
) -> bool {
    let p = image_pixel(img, x, image_height(img) - 1 - y);
    &&& call_ensures(scale, (x as u32,), v.x)
    &&& call_ensures(scale, (y as u32,), v.y)
    &&& call_ensures(shade, (p.0, p.1, p.2), v.z)
}

/// `f` is a sampling of `img`: one point per pixel, each as `is_sample`
/// describes, so that row 0 of `f` comes from the last raster row.
pub open spec fn is_sampling<S: Fn(u32) -> u32, Z: Fn(u8, u8, u8) -> u32>(
    img: Raster,
    scale: S,
    shade: Z,
    f: Seq<Seq<Vec3>>,
) -> bool {
    let w = image_width(img) as int;
    let h = image_height(img) as int;
    &&& is_grid(f, h, w)
    &&& forall|y: int, x: int|
        0 <= y < h && 0 <= x < w ==> is_sample(img, scale, shade, y, x, #[trigger] f[y][x])
}

/// A grid of points, one per source pixel, indexed by row then column. Row 0
/// is the bottom of the picture. Every height field has at least two rows and
/// two columns, and all its rows have the same length.
pub struct HeightField {
    rows: Vec<Vec<Vec3>>,
}

impl View for HeightField {
    type V = Seq<Seq<Vec3>>;

    closed spec fn view(&self) -> Seq<Seq<Vec3>> {
        rows_view(self.rows@)
    }
}

impl HeightField {
    #[verifier::type_invariant]
    spec fn well_formed(self) -> bool {
        is_field(rows_view(self.rows@))
    }

    /// Number of rows.
    pub fn height(&self) -> (h: usize)
        ensures
            h == self@.len(),
            is_field(self@),
    {
        proof {
            use_type_invariant(self);
        }
        self.rows.len()
    }

    /// Number of columns.
    pub fn width(&self) -> (w: usize)
        ensures
            w == self@[0].len(),
            is_field(self@),
    {
        proof {
            use_type_invariant(self);
        }
        self.rows[0].len()
    }

    /// The point at row `y`, column `x`.
    pub fn get(&self, y: usize, x: usize) -> (p: Vec3)
        requires
            y < self@.len(),
            x < self@[0].len(),
        ensures
            p == self@[y as int][x as int],
    {
        proof {
            use_type_invariant(self);
            assert(self@[y as int].len() == self@[0].len());
        }
        self.rows[y][x]
    }

    /// Takes rows of points as a height field, if they form a grid of at
    /// least two rows and two columns.
    pub fn from_rows(rows: Vec<Vec<Vec3>>) -> (r: Result<HeightField, InputError>)
        ensures
            match r {
                Ok(field) => is_field(rows_view(rows@)) && field@ == rows_view(rows@),
                Err(InputError::TooSmall { width, height }) => {
                    &&& height == rows@.len()
                    &&& width == (if rows@.len() == 0 { 0 } else { rows@[0]@.len() })
                    &&& (height < 2 || width < 2)
                },
                Err(InputError::Ragged { row }) => {
                    &&& rows@.len() >= 2
                    &&& rows@[0]@.len() >= 2
                    &&& 0 < row < rows@.len()
                    &&& rows@[row as int]@.len() != rows@[0]@.len()
                    &&& is_grid(rows_view(rows@.take(row as int)), row as int, rows@[0]@.len() as int)
                },
                Err(InputError::PixelCount { .. }) => false,
            },
    {
        let height = rows.len();
        let width = if height == 0 { 0 } else { rows[0].len() };
        if height < 2 || width < 2 {
            return Err(InputError::TooSmall { width, height });
        }
        let mut y: usize = 1;
        while y < height
            invariant
                1 <= y <= height,
                width >= 2,
                height == rows@.len(),
                width == rows@[0]@.len(),
                forall|k: int| 0 <= k < y ==> (#[trigger] rows@[k])@.len() == width,
            decreases height - y,
        {
            if rows[y].len() != width {
                assert(is_grid(rows_view(rows@.take(y as int)), y as int, width as int)) by {
                    assert forall|k: int| 0 <= k < y implies (#[trigger] rows_view(
                        rows@.take(y as int),
                    )[k]).len() == width by {
                        assert(rows@.take(y as int)[k] == rows@[k]);
                    }
                }
                return Err(InputError::Ragged { row: y });
            }
            y = y + 1;
        }
        assert(is_field(rows_view(rows@))) by {
            assert forall|k: int| 0 <= k < height implies (#[trigger] rows_view(rows@)[k]).len()
                == width by {
                assert(rows@[k]@.len() == width);
            }
        }
        Ok(HeightField { rows })
    }

    /// Samples an image into a height field, one point per pixel.
    ///
    /// `scale` turns a pixel coordinate into millimetres and `shade` turns a
    /// colour into a depth. An image with fewer than two columns or two rows
    /// is refused, and nothing else is.
    pub fn sample<S: Fn(u32) -> u32, Z: Fn(u8, u8, u8) -> u32>(
        img: &Raster,
        scale: S,
        shade: Z,
    ) -> (r: Result<HeightField, InputError>)
        requires
            forall|v: u32| call_requires(scale, (v,)),
            forall|red: u8, green: u8, blue: u8| call_requires(shade, (red, green, blue)),
        ensures
            match r {
                Ok(field) => {
                    &&& image_width(*img) >= 2
                    &&& image_height(*img) >= 2
                    &&& is_sampling(*img, scale, shade, field@)
                },
                Err(e) => {
                    &&& image_width(*img) < 2 || image_height(*img) < 2
                    &&& e == (InputError::TooSmall {
                        width: image_width(*img) as usize,
                        height: image_height(*img) as usize,
                    })
                },
            },
    {
        let w = img.width();
        let h = img.height();
        if w < 2 || h < 2 {
            return Err(InputError::TooSmall { width: w as usize, height: h as usize });
        }
        let mut rows: Vec<Vec<Vec3>> = Vec::new();
        let mut y: u32 = 0;
        while y < h
            invariant
                y <= h,
                w == image_width(*img),
                h == image_height(*img),
                forall|v: u32| call_requires(scale, (v,)),
                forall|red: u8, green: u8, blue: u8| call_requires(shade, (red, green, blue)),
                rows@.len() == y,
                forall|j: int| 0 <= j < y ==> (#[trigger] rows@[j])@.len() == w,
                forall|j: int, i: int|
                    0 <= j < y && 0 <= i < w ==> is_sample(
                        *img,
                        scale,
                        shade,
                        j,
                        i,
                        #[trigger] rows@[j]@[i],
                    ),
            decreases h - y,
        {
            let mut row: Vec<Vec3> = Vec::new();
            let mut x: u32 = 0;
            while x < w
                invariant
                    x <= w,
                    y < h,
                    w == image_width(*img),
                    h == image_height(*img),
                    forall|v: u32| call_requires(scale, (v,)),
                    forall|red: u8, green: u8, blue: u8| call_requires(shade, (red, green, blue)),
                    row@.len() == x,
                    forall|i: int|
                        0 <= i < x ==> is_sample(*img, scale, shade, y as int, i, #[trigger] row@[i]),
                decreases w - x,
            {
                let (red, green, blue) = img.pixel(x, h - y - 1);
                let depth = shade(red, green, blue);
                let point = Vec3 { x: scale(x), y: scale(y), z: depth };
                row.push(point);
                x = x + 1;
            }
            rows.push(row);
            y = y + 1;
        }
        proof {
            let f = rows_view(rows@);
            assert(is_field(f));
            assert forall|j: int, i: int| 0 <= j < h && 0 <= i < w implies is_sample(
                *img,
                scale,
                shade,
                j,
                i,
                #[trigger] f[j][i],
            ) by {
                assert(f[j][i] == rows@[j]@[i]);
            }
        }
        Ok(HeightField { rows })
    }
}

} // verus!
