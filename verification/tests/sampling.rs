use lithophoto::convert::image_to_mesh;
use lithophoto::error::InputError;
use lithophoto::geometry::{Triangle, Vec3};
use lithophoto::heightfield::HeightField;
use lithophoto::raster::Raster;
use lithophoto::stl::generate_stl_mesh;

fn point(x: f32, y: f32, z: f32) -> Vec3 {
    Vec3 { x: x.to_bits(), y: y.to_bits(), z: z.to_bits() }
}

fn coords(p: Vec3) -> (f32, f32, f32) {
    (f32::from_bits(p.x), f32::from_bits(p.y), f32::from_bits(p.z))
}

fn brightness(r: u8, g: u8, b: u8) -> f32 {
    (((r as f32 * 0.299) + (g as f32 * 0.587) + (b as f32 * 0.114)) / 255.0).clamp(0.0, 1.0)
}

fn depth(thickness: f32, contrast: f32, r: u8, g: u8, b: u8) -> f32 {
    thickness - (brightness(r, g, b) * contrast * thickness)
}

fn to_mm(value: u32, mesh_width: f32, width: u32) -> f32 {
    value as f32 * mesh_width / (width as f32)
}

fn cross(v0: Vec3, v1: Vec3, v2: Vec3) -> Vec3 {
    let (ax, ay, az) = coords(v0);
    let (bx, by, bz) = coords(v1);
    let (cx, cy, cz) = coords(v2);
    point(
        (by - ay) * (cz - az) - (bz - az) * (cy - ay),
        (bz - az) * (cx - ax) - (bx - ax) * (cz - az),
        (bx - ax) * (cy - ay) - (by - ay) * (cx - ax),
    )
}

fn lithophane(img: &Raster, mesh_width: f32, thickness: f32, contrast: f32) -> Result<Vec<Triangle>, InputError> {
    let width = img.width();
    image_to_mesh(
        img,
        |v| to_mm(v, mesh_width, width).to_bits(),
        |r, g, b| depth(thickness, contrast, r, g, b).to_bits(),
        cross,
    )
}

fn solid(width: u32, height: u32, colour: (u8, u8, u8)) -> Raster {
    Raster::new(width, height, vec![colour; (width * height) as usize]).unwrap()
}

fn gradient_pixel(x: u32, y: u32) -> (u8, u8, u8) {
    ((10 * x) as u8, (10 * y) as u8, (x + y) as u8)
}

/// Pixel `(x, y)` has red `10 x`, green `10 y`, blue `x + y`.
fn gradient(width: u32, height: u32) -> Raster {
    let pixels = (0..height).flat_map(|y| (0..width).map(move |x| gradient_pixel(x, y))).collect();
    Raster::new(width, height, pixels).unwrap()
}

fn colour_code(r: u8, g: u8, b: u8) -> u32 {
    (r as u32) << 16 | (g as u32) << 8 | b as u32
}

#[test]
fn mid_gray_two_by_two_round_trip() {
    let img = solid(2, 2, (128, 128, 128));
    let mesh = lithophane(&img, 10.0, 2.0, 0.5).unwrap();
    assert_eq!(mesh.len(), 2 * 1 * 1 + 2 + 4 * 1 + 4 * 1);
    assert_eq!(mesh.len(), 12);
    let expected = 2.0f32 - (128.0f32 * 0.299 + 128.0f32 * 0.587 + 128.0f32 * 0.114) / 255.0 * 0.5 * 2.0;
    for t in &mesh[..2] {
        for v in [t.v0, t.v1, t.v2] {
            let z = f32::from_bits(v.z);
            assert!((z - expected).abs() < 1e-6);
            assert!((z - 1.4980392).abs() < 1e-6);
        }
    }
    assert_eq!(coords(mesh[0].v0).0, 0.0);
    assert_eq!(coords(mesh[0].v1).0, 5.0);
    assert_eq!(coords(mesh[0].v2).1, 5.0);
    let bytes = generate_stl_mesh(&mesh);
    assert_eq!(bytes.len(), 84 + 50 * 12);
    assert_eq!(bytes.len(), 684);
    assert_eq!(&bytes[80..84], &[12, 0, 0, 0]);
}

#[test]
fn one_by_five_image_is_rejected() {
    let img = solid(1, 5, (10, 20, 30));
    assert_eq!(lithophane(&img, 10.0, 2.0, 0.5), Err(InputError::TooSmall { width: 1, height: 5 }));
}

#[test]
fn five_by_one_image_is_rejected() {
    let img = solid(5, 1, (10, 20, 30));
    assert_eq!(lithophane(&img, 10.0, 2.0, 0.5), Err(InputError::TooSmall { width: 5, height: 1 }));
    let sampled = HeightField::sample(&img, |v| v, |_, _, _| 0);
    assert_eq!(sampled.err(), Some(InputError::TooSmall { width: 5, height: 1 }));
}

#[test]
fn empty_image_is_rejected() {
    let img = solid(0, 0, (0, 0, 0));
    assert_eq!(lithophane(&img, 10.0, 2.0, 0.5), Err(InputError::TooSmall { width: 0, height: 0 }));
}

#[test]
fn image_triangle_count_follows_the_formula() {
    for (w, h) in [(2u32, 2u32), (3, 2), (2, 3), (6, 4), (5, 9)] {
        let mesh = lithophane(&gradient(w, h), 100.0, 10.0, 0.5).unwrap();
        let (w, h) = (w as usize, h as usize);
        assert_eq!(mesh.len(), 2 * (w - 1) * (h - 1) + 2 + 4 * (w - 1) + 4 * (h - 1));
    }
}

#[test]
fn field_has_the_size_of_the_image() {
    let field = HeightField::sample(&gradient(3, 2), |v| v, colour_code).unwrap();
    assert_eq!(field.width(), 3);
    assert_eq!(field.height(), 2);
}

#[test]
fn field_rows_run_from_the_bottom_of_the_image() {
    let (w, h) = (4u32, 3u32);
    let field = HeightField::sample(&gradient(w, h), |v| 100 + v, colour_code).unwrap();
    for y in 0..h {
        for x in 0..w {
            let source_row = h - y - 1;
            let expected = Vec3 {
                x: 100 + x,
                y: 100 + y,
                z: colour_code((10 * x) as u8, (10 * source_row) as u8, (x + source_row) as u8),
            };
            assert_eq!(field.get(y as usize, x as usize), expected);
        }
    }
}

#[test]
fn raster_keeps_its_pixels_row_after_row() {
    let img = gradient(3, 2);
    assert_eq!(img.width(), 3);
    assert_eq!(img.height(), 2);
    for y in 0..2 {
        for x in 0..3 {
            assert_eq!(img.pixel(x, y), gradient_pixel(x, y));
        }
    }
    assert_eq!(img.pixel(2, 1), (20, 10, 3));
}

#[test]
fn raster_with_too_few_pixels_is_refused() {
    let r = Raster::new(3, 2, vec![(1, 2, 3); 5]);
    assert_eq!(r.err(), Some(InputError::PixelCount { width: 3, height: 2, pixels: 5 }));
}

#[test]
fn raster_with_too_many_pixels_is_refused() {
    let r = Raster::new(0, 7, vec![(1, 2, 3); 1]);
    assert_eq!(r.err(), Some(InputError::PixelCount { width: 0, height: 7, pixels: 1 }));
}

#[test]
fn planar_coordinates_share_one_scale() {
    let (w, h) = (4u32, 3u32);
    let field = HeightField::sample(
        &gradient(w, h),
        |v| to_mm(v, 100.0, w).to_bits(),
        |r, g, b| depth(10.0, 0.5, r, g, b).to_bits(),
    )
    .unwrap();
    assert_eq!(coords(field.get(0, 0)).0, 0.0);
    assert_eq!(coords(field.get(0, 3)).0, 75.0);
    assert_eq!(coords(field.get(2, 1)).0, 25.0);
    assert_eq!(coords(field.get(2, 1)).1, 50.0);
}

#[test]
fn sampled_brightness_runs_from_zero_to_one_and_grows_with_each_channel() {
    // three rows of 256 pixels: one channel rises along the row, the others stay
    let mut pixels = Vec::new();
    for c in 0..256u32 {
        pixels.push((c as u8, 40, 200));
    }
    for c in 0..256u32 {
        pixels.push((40, c as u8, 200));
    }
    for c in 0..256u32 {
        pixels.push((40, 200, c as u8));
    }
    let img = Raster::new(256, 3, pixels).unwrap();
    let field = HeightField::sample(&img, |v| v, |r, g, b| brightness(r, g, b).to_bits()).unwrap();
    for y in 0..3 {
        for x in 0..255 {
            let here = f32::from_bits(field.get(y, x).z);
            let next = f32::from_bits(field.get(y, x + 1).z);
            assert!((0.0..=1.0).contains(&here));
            assert!(here <= next);
        }
    }
    let ends = Raster::new(2, 2, vec![(0, 0, 0), (255, 255, 255), (0, 0, 0), (255, 255, 255)]).unwrap();
    let field = HeightField::sample(&ends, |v| v, |r, g, b| brightness(r, g, b).to_bits()).unwrap();
    assert_eq!(f32::from_bits(field.get(0, 0).z), 0.0);
    assert!((f32::from_bits(field.get(0, 1).z) - 1.0).abs() < 1e-6);
    assert!(f32::from_bits(field.get(0, 1).z) <= 1.0);
}

#[test]
fn black_over_white_image_is_flipped() {
    let img = Raster::new(2, 2, vec![(0, 0, 0), (0, 0, 0), (255, 255, 255), (255, 255, 255)]).unwrap();
    let field = HeightField::sample(&img, |v| v, colour_code).unwrap();
    assert_eq!(field.get(0, 0).z, colour_code(255, 255, 255));
    assert_eq!(field.get(0, 1).z, colour_code(255, 255, 255));
    assert_eq!(field.get(1, 0).z, colour_code(0, 0, 0));
    assert_eq!(field.get(1, 1).z, colour_code(0, 0, 0));
}

#[test]
fn zero_contrast_gives_a_slab() {
    let (w, h) = (5usize, 4usize);
    let thickness = 7.5f32;
    let mesh = lithophane(&gradient(5, 4), 100.0, thickness, 0.0).unwrap();
    for t in &mesh[..2 * (w - 1) * (h - 1)] {
        for v in [t.v0, t.v1, t.v2] {
            assert_eq!(v.z, thickness.to_bits());
        }
    }
}

#[test]
fn full_contrast_maps_white_to_zero_and_black_to_full_thickness() {
    let thickness = 3.0f32;
    let white = lithophane(&solid(2, 2, (255, 255, 255)), 10.0, thickness, 1.0).unwrap();
    let black = lithophane(&solid(2, 2, (0, 0, 0)), 10.0, thickness, 1.0).unwrap();
    for t in &white[..2] {
        for v in [t.v0, t.v1, t.v2] {
            assert!(f32::from_bits(v.z).abs() < 1e-5);
        }
    }
    for t in &black[..2] {
        for v in [t.v0, t.v1, t.v2] {
            assert_eq!(f32::from_bits(v.z), thickness);
        }
    }
}

#[test]
fn darker_pixels_are_thicker() {
    let img = Raster::new(2, 2, vec![(20, 20, 20), (220, 220, 220), (20, 20, 20), (220, 220, 220)]).unwrap();
    let mesh = lithophane(&img, 10.0, 4.0, 0.5).unwrap();
    let dark = f32::from_bits(mesh[0].v0.z);
    let light = f32::from_bits(mesh[0].v1.z);
    assert!(dark > light);
    assert!((dark - (4.0 - 20.0 / 255.0 * 0.5 * 4.0)).abs() < 1e-5);
    assert!((light - (4.0 - 220.0 / 255.0 * 0.5 * 4.0)).abs() < 1e-5);
}

#[test]
fn image_walls_stand_in_the_planes_of_their_normals() {
    let (w, h) = (5usize, 3usize);
    let mesh_width = 100.0f32;
    let mesh = lithophane(&gradient(5, 3), mesh_width, 10.0, 0.5).unwrap();
    let max_x = (w - 1) as f32 * mesh_width / w as f32;
    let max_y = (h - 1) as f32 * mesh_width / w as f32;
    let walls = &mesh[2 * (w - 1) * (h - 1) + 2..];
    let mut per_plane = [0usize; 4];
    for t in walls {
        let corners = [coords(t.v0), coords(t.v1), coords(t.v2)];
        let n = coords(t.normal);
        if n == (-1.0, 0.0, 0.0) {
            assert!(corners.iter().all(|c| c.0 == 0.0));
            per_plane[0] += 1;
        } else if n == (1.0, 0.0, 0.0) {
            assert!(corners.iter().all(|c| c.0 == max_x));
            per_plane[1] += 1;
        } else if n == (0.0, -1.0, 0.0) {
            assert!(corners.iter().all(|c| c.1 == 0.0));
            per_plane[2] += 1;
        } else {
            assert_eq!(n, (0.0, 1.0, 0.0));
            assert!(corners.iter().all(|c| c.1 == max_y));
            per_plane[3] += 1;
        }
    }
    assert_eq!(per_plane, [2 * (h - 1), 2 * (h - 1), 2 * (w - 1), 2 * (w - 1)]);
}

#[test]
fn image_mesh_then_file_is_reproducible() {
    let img = gradient(4, 3);
    let first = generate_stl_mesh(&lithophane(&img, 100.0, 10.0, 0.5).unwrap());
    let second = generate_stl_mesh(&lithophane(&img, 100.0, 10.0, 0.5).unwrap());
    assert_eq!(first, second);
    assert_eq!(first.len(), 84 + 50 * (2 * 3 * 2 + 2 + 4 * 3 + 4 * 2));
}
