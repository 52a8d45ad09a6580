use vstd::prelude::*;
use crate::geometry::{le_bytes, vec3_bytes, Mesh, Triangle, Vec3};

verus! {

/// Length of the file header.
pub const HEADER_LEN: usize = 80;

/// Length of one triangle record.
pub const RECORD_LEN: usize = 50;

/// The header: eighty zero bytes.
pub open spec fn header() -> Seq<u8> {
    Seq::new(80, |i: int| 0u8)
}

/// The triangle count as it fits the four-byte field: the count modulo 2^32.
pub open spec fn count_field(n: nat) -> u32 {
    (n % 0x1_0000_0000) as u32
}

/// One record: normal, three corners, then two zero attribute bytes.
pub open spec fn triangle_bytes(t: Triangle) -> Seq<u8> {
    vec3_bytes(t.normal) + vec3_bytes(t.v0) + vec3_bytes(t.v1) + vec3_bytes(t.v2) + seq![0u8, 0u8]
}

/// The records of all triangles of `m`, in order.
pub open spec fn records(m: Seq<Triangle>) -> Seq<u8>
    decreases m.len(),
{
    if m.len() == 0 {
        Seq::empty()
    } else {
        records(m.drop_last()) + triangle_bytes(m.last())
    }
}

/// The binary STL file for the triangles `m`.
pub open spec fn stl_bytes(m: Seq<Triangle>) -> Seq<u8> {
    header() + le_bytes(count_field(m.len())) + records(m)
}

/// A record is fifty bytes long.
pub proof fn lemma_triangle_bytes_len(t: Triangle)
    ensures
        triangle_bytes(t).len() == 50,
{
}

/// The records of `n` triangles take `50 n` bytes.
pub proof fn lemma_records_len(m: Seq<Triangle>)
    ensures
        records(m).len() == 50 * m.len(),
    decreases m.len(),
{
    if m.len() > 0 {
        lemma_records_len(m.drop_last());
        lemma_triangle_bytes_len(m.last());
    }
}

/// The records of the first `i + 1` triangles are those of the first `i`
/// followed by the record of triangle `i`.
pub proof fn lemma_records_take_next(m: Seq<Triangle>, i: int)
    requires
        0 <= i < m.len(),
    ensures
        records(m.take(i + 1)) == records(m.take(i)) + triangle_bytes(m[i]),
{
    assert(m.take(i + 1).drop_last() =~= m.take(i));
    assert(m.take(i + 1).last() == m[i]);
}

/// Record `t` of the records of `m` is the record of triangle `t`.
pub proof fn lemma_records_at(m: Seq<Triangle>, t: int)
    requires
        0 <= t < m.len(),
    ensures
        records(m).len() == 50 * m.len(),
        records(m).subrange(50 * t, 50 * t + 50) == triangle_bytes(m[t]),
    decreases m.len(),
{
    lemma_records_len(m);
    lemma_records_len(m.drop_last());
    lemma_triangle_bytes_len(m.last());
    if t == m.len() - 1 {
        assert(records(m).subrange(50 * t, 50 * t + 50) =~= triangle_bytes(m[t]));
    } else {
        lemma_records_at(m.drop_last(), t);
        assert(records(m).subrange(50 * t, 50 * t + 50) =~= records(m.drop_last()).subrange(
            50 * t,
            50 * t + 50,
        ));
    }
}

/// The encoding of `n` triangles is `84 + 50 n` bytes long.
pub proof fn lemma_stl_len(m: Seq<Triangle>)
    ensures
        stl_bytes(m).len() == 84 + 50 * m.len(),
{
    lemma_records_len(m);
}

/// The layout of a file: eighty zero bytes, the count field, and from byte
/// `84 + 50 t` on the record of triangle `t`.
pub proof fn lemma_stl_layout(m: Seq<Triangle>)
    ensures
        stl_bytes(m).len() == 84 + 50 * m.len(),
        forall|i: int| 0 <= i < 80 ==> stl_bytes(m)[i] == 0,
        stl_bytes(m).subrange(80, 84) == le_bytes(count_field(m.len())),
        forall|t: int|
            0 <= t < m.len() ==> #[trigger] stl_bytes(m).subrange(84 + 50 * t, 84 + 50 * t + 50)
                == triangle_bytes(m[t]),
{
    lemma_records_len(m);
    assert(stl_bytes(m).subrange(80, 84) =~= le_bytes(count_field(m.len())));
    assert forall|t: int| 0 <= t < m.len() implies #[trigger] stl_bytes(m).subrange(
        84 + 50 * t,
        84 + 50 * t + 50,
    ) == triangle_bytes(m[t]) by {
        lemma_records_at(m, t);
        assert(stl_bytes(m).subrange(84 + 50 * t, 84 + 50 * t + 50) =~= records(m).subrange(
            50 * t,
            50 * t + 50,
        ));
    }
}

/// Encoding is a function of the triangles alone: equal meshes have equal
/// files, so encoding a mesh twice gives the same bytes.
pub proof fn lemma_stl_deterministic(a: Seq<Triangle>, b: Seq<Triangle>)
    requires
        a == b,
    ensures
        stl_bytes(a) == stl_bytes(b),
        stl_bytes(a).len() == 84 + 50 * a.len(),
{
    lemma_stl_len(a);
}

fn push_u32(out: &mut Vec<u8>, v: u32)
    ensures
        final(out)@ == old(out)@ + le_bytes(v),
{
    out.push((v % 256) as u8);
    out.push((v / 256 % 256) as u8);
    out.push((v / 65536 % 256) as u8);
    out.push((v / 16777216) as u8);
    assert(out@ =~= old(out)@ + le_bytes(v));
}

fn push_vec3(out: &mut Vec<u8>, p: Vec3)
    ensures
        final(out)@ == old(out)@ + vec3_bytes(p),
{
    push_u32(out, p.x);
    push_u32(out, p.y);
    push_u32(out, p.z);
    assert(out@ =~= old(out)@ + vec3_bytes(p));
}

fn push_triangle(out: &mut Vec<u8>, t: Triangle)
    ensures
        final(out)@ == old(out)@ + triangle_bytes(t),
{
    push_vec3(out, t.normal);
    push_vec3(out, t.v0);
    push_vec3(out, t.v1);
    push_vec3(out, t.v2);
    out.push(0u8);
    out.push(0u8);
    assert(out@ =~= old(out)@ + triangle_bytes(t));
}

/// Encodes a mesh as a binary STL file: the header, the triangle count, then
/// one record per triangle in mesh order.
///
/// The count field holds the number of triangles modulo 2^32; a mesh with
/// more triangles than the field can express still gets all its records.
pub fn generate_stl_mesh(m: &Mesh) -> (out: Vec<u8>)
    ensures
        out@ == stl_bytes(m@),
        out@.len() == 84 + 50 * m@.len(),
{
    let mut out: Vec<u8> = Vec::new();
    let mut h: usize = 0;
    while h < HEADER_LEN
        invariant
            h <= HEADER_LEN,
            out@ == Seq::new(h as nat, |i: int| 0u8),
        decreases HEADER_LEN - h,
    {
        out.push(0u8);
        h = h + 1;
        assert(out@ =~= Seq::new(h as nat, |i: int| 0u8));
    }
    let count: u32 = (m.len() as u64 % 0x1_0000_0000u64) as u32;
    push_u32(&mut out, count);
    let ghost prefix = header() + le_bytes(count_field(m@.len()));
    assert(out@ =~= prefix + records(m@.take(0)));
    let mut i: usize = 0;
    while i < m.len()
        invariant
            i <= m.len(),
            out@ == prefix + records(m@.take(i as int)),
        decreases m.len() - i,
    {
        proof {
            lemma_records_take_next(m@, i as int);
        }
        push_triangle(&mut out, m[i]);
        i = i + 1;
        assert(out@ =~= prefix + records(m@.take(i as int)));
    }
    proof {
        assert(m@.take(m@.len() as int) =~= m@);
        lemma_records_len(m@);
    }
    out
}

} // verus!
