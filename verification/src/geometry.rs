use vstd::prelude::*;

verus! {

/// Bit pattern of the single-precision number `0.0`.
pub const ZERO: u32 = 0x0000_0000;

/// Bit pattern of the single-precision number `1.0`.
pub const ONE: u32 = 0x3F80_0000;

/// Bit pattern of the single-precision number `-1.0`.
pub const MINUS_ONE: u32 = 0xBF80_0000;

/// A point or direction in millimetre space. Each coordinate holds the
/// IEEE 754 bit pattern of a single-precision number.
#[derive(Clone, Copy, Debug, PartialEq, Eq, Structural)]
pub struct Vec3 {
    pub x: u32,
    pub y: u32,
    pub z: u32,
}

/// A facet: a normal and three corners in winding order.
#[derive(Clone, Copy, Debug, PartialEq, Eq, Structural)]
pub struct Triangle {
    pub normal: Vec3,
    pub v0: Vec3,
    pub v1: Vec3,
    pub v2: Vec3,
}

/// Triangles in the order in which they are written out.
pub type Mesh = Vec<Triangle>;

/// The four bytes of `v`, least significant first.
pub open spec fn le_bytes(v: u32) -> Seq<u8> {
    seq![
        (v % 256) as u8,
        (v / 256 % 256) as u8,
        (v / 65536 % 256) as u8,
        (v / 16777216) as u8,
    ]
}

/// The twelve bytes of a point: `x`, `y`, `z`, each least significant byte first.
pub open spec fn vec3_bytes(p: Vec3) -> Seq<u8> {
    le_bytes(p.x) + le_bytes(p.y) + le_bytes(p.z)
}

/// The projection of `p` onto the back plane: same `x` and `y`, depth zero.
pub open spec fn base_of(p: Vec3) -> Vec3 {
    Vec3 { x: p.x, y: p.y, z: ZERO }
}

/// The two triangles of the quad `v0 v1 v2 v3`, split along the diagonal from
/// `v0` to `v2`, both carrying the normal `n`.
pub open spec fn quad(n: Vec3, v0: Vec3, v1: Vec3, v2: Vec3, v3: Vec3) -> Seq<Triangle> {
    seq![
        Triangle { normal: n, v0: v0, v1: v1, v2: v2 },
        Triangle { normal: n, v0: v0, v1: v2, v2: v3 },
    ]
}

impl Vec3 {
    /// Serialises the point as twelve bytes.
    pub fn to_le_bytes(&self) -> (bytes: [u8; 12])
        ensures
            bytes@ == vec3_bytes(*self),
    {
        let x = self.x;
        let y = self.y;
        let z = self.z;
        let bytes: [u8; 12] = [
            (x % 256) as u8,
            (x / 256 % 256) as u8,
            (x / 65536 % 256) as u8,
            (x / 16777216) as u8,
            (y % 256) as u8,
            (y / 256 % 256) as u8,
            (y / 65536 % 256) as u8,
            (y / 16777216) as u8,
            (z % 256) as u8,
            (z / 256 % 256) as u8,
            (z / 65536 % 256) as u8,
            (z / 16777216) as u8,
        ];
        assert(bytes@ =~= vec3_bytes(*self));
        bytes
    }

    /// The projection of the point onto the back plane.
    pub fn base(&self) -> (p: Vec3)
        ensures
            p == base_of(*self),
    {
        Vec3 { x: self.x, y: self.y, z: ZERO }
    }
}

} // verus!
