use vstd::prelude::*;
use crate::geometry::{Mesh, Triangle, Vec3};
use crate::error::InputError;
use crate::heightfield::{is_field, is_sample, is_sampling, HeightField};
use crate::mesh::{
    build_mesh, cell_column, cell_row, front_count, is_solid, lemma_relief_triangle, triangle_count,
};
use crate::raster::{image_height, image_width, Raster};

verus! {

/// `m` is a lithophane of `img`: the solid over some sampling of the image.
pub open spec fn is_lithophane<
    S: Fn(u32) -> u32,
    Z: Fn(u8, u8, u8) -> u32,
    N: Fn(Vec3, Vec3, Vec3) -> Vec3,
>(img: Raster, scale: S, shade: Z, facet: N, m: Seq<Triangle>) -> bool {
    exists|f: Seq<Seq<Vec3>>|
        is_sampling(img, scale, shade, f) && #[trigger] is_solid(f, facet, m)
}

/// A depth function that ignores the colour gives a flat relief: if `shade`
/// returns `depth` whatever the pixel, every corner of every relief triangle
/// of the solid over a sampling has that depth.
pub proof fn lemma_uniform_shade_flat_relief<
    S: Fn(u32) -> u32,
    Z: Fn(u8, u8, u8) -> u32,
    N: Fn(Vec3, Vec3, Vec3) -> Vec3,
>(img: Raster, scale: S, shade: Z, facet: N, f: Seq<Seq<Vec3>>, m: Seq<Triangle>, depth: u32)
    requires
        is_field(f),
        is_sampling(img, scale, shade, f),
        is_solid(f, facet, m),
        forall|red: u8, green: u8, blue: u8, z: u32|
            call_ensures(shade, (red, green, blue), z) ==> z == depth,
    ensures
        forall|k: int|
            0 <= k < front_count(f.len() as int, f[0].len() as int) ==> {
                &&& (#[trigger] m[k]).v0.z == depth
                &&& m[k].v1.z == depth
                &&& m[k].v2.z == depth
            },
{
    let h = f.len() as int;
    let w = f[0].len() as int;
    assert forall|y: int, x: int| 0 <= y < h && 0 <= x < w implies (#[trigger] f[y][x]).z
        == depth by {
        assert(is_sample(img, scale, shade, y, x, f[y][x]));
    }
    assert forall|k: int| 0 <= k < front_count(h, w) implies {
        &&& (#[trigger] m[k]).v0.z == depth
        &&& m[k].v1.z == depth
        &&& m[k].v2.z == depth
    } by {
        lemma_relief_triangle(f, facet, m, k);
        let y = cell_row(w, k);
        let x = cell_column(w, k);
        assert(f[y][x].z == depth);
        assert(f[y][x + 1].z == depth);
        assert(f[y + 1][x + 1].z == depth);
        assert(f[y + 1][x].z == depth);
    }
}

/// Turns an image into the mesh of its lithophane.
///
/// `scale` maps a pixel coordinate to millimetres, `shade` maps a colour to
/// the depth of the relief at that pixel, and `facet` gives the normal of a
/// relief quad from its first three corners. Images with fewer than two
/// columns or two rows are refused before any triangle is made.
pub fn image_to_mesh<S: Fn(u32) -> u32, Z: Fn(u8, u8, u8) -> u32, N: Fn(Vec3, Vec3, Vec3) -> Vec3>(
    img: &Raster,
    scale: S,
    shade: Z,
    facet: N,
) -> (r: Result<Mesh, InputError>)
    requires
        forall|v: u32| call_requires(scale, (v,)),
        forall|red: u8, green: u8, blue: u8| call_requires(shade, (red, green, blue)),
        forall|a: Vec3, b: Vec3, c: Vec3| call_requires(facet, (a, b, c)),
    ensures
        match r {
            Ok(mesh) => {
                &&& image_width(*img) >= 2
                &&& image_height(*img) >= 2
                &&& is_lithophane(*img, scale, shade, facet, mesh@)
                &&& mesh@.len() == triangle_count(
                    image_height(*img) as int,
                    image_width(*img) as int,
                )
            },
            Err(e) => {
                &&& image_width(*img) < 2 || image_height(*img) < 2
                &&& e == (InputError::TooSmall {
                    width: image_width(*img) as usize,
                    height: image_height(*img) as usize,
                })
            },
        },
{
    match HeightField::sample(img, scale, shade) {
        Ok(field) => {
            let mesh = build_mesh(&field, facet);
            Ok(mesh)
        },
        Err(e) => Err(e),
    }
}

} // verus!
