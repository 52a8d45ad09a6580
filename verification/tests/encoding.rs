use lithophoto::geometry::{Triangle, Vec3};
use lithophoto::stl::generate_stl_mesh;

fn point(x: f32, y: f32, z: f32) -> Vec3 {
    Vec3 { x: x.to_bits(), y: y.to_bits(), z: z.to_bits() }
}

fn sample_triangle(seed: f32) -> Triangle {
    Triangle {
        normal: point(0.0, 0.0, 1.0),
        v0: point(seed, 0.5, -2.25),
        v1: point(seed + 1.0, 1.5e10, 3.0),
        v2: point(-seed, 7.0, 1.0e-20),
    }
}

fn expected_record(t: &Triangle) -> Vec<u8> {
    let mut out = Vec::new();
    for p in [t.normal, t.v0, t.v1, t.v2] {
        out.extend_from_slice(&f32::from_bits(p.x).to_le_bytes());
        out.extend_from_slice(&f32::from_bits(p.y).to_le_bytes());
        out.extend_from_slice(&f32::from_bits(p.z).to_le_bytes());
    }
    out.extend_from_slice(&[0, 0]);
    out
}

#[test]
fn point_bytes_are_little_endian_coordinates() {
    let p = point(1.0, -2.5, 100.0);
    let bytes = p.to_le_bytes();
    assert_eq!(&bytes[0..4], &1.0f32.to_le_bytes());
    assert_eq!(&bytes[4..8], &(-2.5f32).to_le_bytes());
    assert_eq!(&bytes[8..12], &100.0f32.to_le_bytes());
    assert_eq!(bytes, [0, 0, 0x80, 0x3f, 0, 0, 0x20, 0xc0, 0, 0, 0xc8, 0x42]);
}

#[test]
fn point_bytes_of_distinct_byte_pattern() {
    let p = Vec3 { x: 0x0403_0201, y: 0x0807_0605, z: 0xfffe_fdfc };
    assert_eq!(p.to_le_bytes(), [1, 2, 3, 4, 5, 6, 7, 8, 0xfc, 0xfd, 0xfe, 0xff]);
}

#[test]
fn base_keeps_planar_coordinates_and_zeroes_depth() {
    let p = point(3.0, 4.0, 5.0);
    assert_eq!(p.base(), point(3.0, 4.0, 0.0));
}

#[test]
fn empty_mesh_is_header_and_zero_count() {
    let bytes = generate_stl_mesh(&Vec::new());
    assert_eq!(bytes.len(), 84);
    assert!(bytes.iter().all(|b| *b == 0));
}

#[test]
fn single_triangle_file_is_exact() {
    let t = sample_triangle(1.0);
    let bytes = generate_stl_mesh(&vec![t]);
    assert_eq!(bytes.len(), 84 + 50);
    assert!(bytes[..80].iter().all(|b| *b == 0));
    assert_eq!(&bytes[80..84], &[1, 0, 0, 0]);
    assert_eq!(&bytes[84..], expected_record(&t).as_slice());
    assert_eq!(&bytes[132..134], &[0, 0]);
}

#[test]
fn records_follow_mesh_order() {
    let mesh: Vec<Triangle> = (0..5).map(|i| sample_triangle(i as f32)).collect();
    let bytes = generate_stl_mesh(&mesh);
    assert_eq!(bytes.len(), 84 + 50 * 5);
    assert_eq!(&bytes[80..84], &5u32.to_le_bytes());
    for (i, t) in mesh.iter().enumerate() {
        let start = 84 + 50 * i;
        assert_eq!(&bytes[start..start + 50], expected_record(t).as_slice());
    }
}

#[test]
fn count_field_is_little_endian() {
    let mesh: Vec<Triangle> = (0..258).map(|i| sample_triangle(i as f32)).collect();
    let bytes = generate_stl_mesh(&mesh);
    assert_eq!(&bytes[80..84], &[2, 1, 0, 0]);
    assert_eq!(bytes.len(), 84 + 50 * 258);
}

#[test]
fn encoding_twice_gives_the_same_bytes() {
    let mesh: Vec<Triangle> = (0..7).map(|i| sample_triangle(i as f32 * 0.5)).collect();
    let first = generate_stl_mesh(&mesh);
    let second = generate_stl_mesh(&mesh);
    assert_eq!(first, second);
    assert_eq!(first.len(), 84 + 50 * mesh.len());
}
