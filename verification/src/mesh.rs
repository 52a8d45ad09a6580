use vstd::prelude::*;
use vstd::arithmetic::div_mod::{lemma_div_pos_is_pos, lemma_fundamental_div_mod, lemma_mod_pos_bound};
use crate::geometry::{base_of, quad, Mesh, Triangle, Vec3, MINUS_ONE, ONE, ZERO};
use crate::heightfield::{is_field, HeightField};

verus! {

/// The direction `(-1, 0, 0)`.
pub open spec fn minus_x() -> Vec3 {
    Vec3 { x: MINUS_ONE, y: ZERO, z: ZERO }
}

/// The direction `(1, 0, 0)`.
pub open spec fn plus_x() -> Vec3 {
    Vec3 { x: ONE, y: ZERO, z: ZERO }
}

/// The direction `(0, -1, 0)`.
pub open spec fn minus_y() -> Vec3 {
    Vec3 { x: ZERO, y: MINUS_ONE, z: ZERO }
}

/// The direction `(0, 1, 0)`.
pub open spec fn plus_y() -> Vec3 {
    Vec3 { x: ZERO, y: ONE, z: ZERO }
}

/// The direction `(0, 0, -1)`.
pub open spec fn minus_z() -> Vec3 {
    Vec3 { x: ZERO, y: ZERO, z: MINUS_ONE }
}

/// Number of triangles in the solid over a grid of `h` rows and `w` columns:
/// two per cell of the relief, two for the back, and four per step along
/// each of the two directions for the walls.
pub open spec fn triangle_count(h: int, w: int) -> int {
    2 * (w - 1) * (h - 1) + 2 + 4 * (w - 1) + 4 * (h - 1)
}

/// Number of triangles in the relief over a grid of `h` rows and `w` columns.
pub open spec fn front_count(h: int, w: int) -> int {
    2 * ((h - 1) * (w - 1))
}

/// Position in the mesh of the first of the two triangles of the relief cell
/// at row `y`, column `x`, for a grid of `w` columns. Cells are laid out row
/// by row.
pub open spec fn cell_index(w: int, y: int, x: int) -> int {
    2 * (y * (w - 1) + x)
}

/// The two triangles of the relief cell at row `y`, column `x`, with normal
/// `n`: the quad over the points `(y, x)`, `(y, x + 1)`, `(y + 1, x + 1)`,
/// `(y + 1, x)`.
pub open spec fn front_cell(f: Seq<Seq<Vec3>>, n: Vec3, y: int, x: int) -> Seq<Triangle> {
    quad(n, f[y][x], f[y][x + 1], f[y + 1][x + 1], f[y + 1][x])
}

/// In the mesh `m`, the relief cell at row `y`, column `x` of `f` stands at its
/// place, and the normal that its two triangles share is a result of `facet`
/// on the first three corners of the cell.
pub open spec fn is_front_cell<N: Fn(Vec3, Vec3, Vec3) -> Vec3>(
    f: Seq<Seq<Vec3>>,
    facet: N,
    m: Seq<Triangle>,
    y: int,
    x: int,
) -> bool {
    let k = cell_index(f[0].len() as int, y, x);
    &&& 0 <= k
    &&& k + 2 <= m.len()
    &&& m.subrange(k, k + 2) == front_cell(f, m[k].normal, y, x)
    &&& call_ensures(facet, (f[y][x], f[y][x + 1], f[y + 1][x + 1]), m[k].normal)
}

/// The flat back: one quad at depth zero from the origin to the planar
/// coordinates of the last point of the last row, with normal `(0, 0, -1)`.
pub open spec fn back_cap(f: Seq<Seq<Vec3>>) -> Seq<Triangle> {
    let far = f[f.len() - 1][f[0].len() - 1];
    quad(
        minus_z(),
        Vec3 { x: ZERO, y: ZERO, z: ZERO },
        Vec3 { x: far.x, y: ZERO, z: ZERO },
        Vec3 { x: far.x, y: far.y, z: ZERO },
        Vec3 { x: ZERO, y: far.y, z: ZERO },
    )
}

/// The wall that hangs from the relief edge `p q` down to the back plane, with
/// normal `n`: the quad `p`, `q`, base of `q`, base of `p`.
pub open spec fn wall(n: Vec3, p: Vec3, q: Vec3) -> Seq<Triangle> {
    quad(n, p, q, base_of(q), base_of(p))
}

/// The four wall triangles of column step `x`: the wall in the plane of row 0
/// under the edge from `(0, x + 1)` to `(0, x)`, with normal `(0, -1, 0)`,
/// then the wall in the plane of the last row under the edge from
/// `(h - 1, x)` to `(h - 1, x + 1)`, with normal `(0, 1, 0)`.
pub open spec fn end_wall_step(f: Seq<Seq<Vec3>>, x: int) -> Seq<Triangle> {
    let top = f.len() - 1;
    wall(minus_y(), f[0][x + 1], f[0][x]) + wall(plus_y(), f[top][x], f[top][x + 1])
}

/// The bottom and top walls: `end_wall_step` for each column step in turn.
pub open spec fn end_walls(f: Seq<Seq<Vec3>>) -> Seq<Triangle> {
    Seq::new((4 * (f[0].len() - 1)) as nat, |k: int| end_wall_step(f, k / 4)[k % 4])
}

/// The four wall triangles of row step `y`: the wall in the plane of column 0
/// under the edge from `(y, 0)` to `(y + 1, 0)`, with normal `(-1, 0, 0)`,
/// then the wall in the plane of the last column under the edge from
/// `(y + 1, w - 1)` to `(y, w - 1)`, with normal `(1, 0, 0)`.
pub open spec fn side_wall_step(f: Seq<Seq<Vec3>>, y: int) -> Seq<Triangle> {
    let last = f[0].len() - 1;
    wall(minus_x(), f[y][0], f[y + 1][0]) + wall(plus_x(), f[y + 1][last], f[y][last])
}

/// The left and right walls: `side_wall_step` for each row step in turn.
pub open spec fn side_walls(f: Seq<Seq<Vec3>>) -> Seq<Triangle> {
    Seq::new((4 * (f.len() - 1)) as nat, |k: int| side_wall_step(f, k / 4)[k % 4])
}

/// Everything but the relief: the back, the bottom and top walls, then the
/// left and right walls.
pub open spec fn shell(f: Seq<Seq<Vec3>>) -> Seq<Triangle> {
    back_cap(f) + end_walls(f) + side_walls(f)
}

/// `m` is the solid over the field `f` with facet normals from `facet`: the
/// relief cells row by row, then the shell.
pub open spec fn is_solid<N: Fn(Vec3, Vec3, Vec3) -> Vec3>(
    f: Seq<Seq<Vec3>>,
    facet: N,
    m: Seq<Triangle>,
) -> bool {
    let h = f.len() as int;
    let w = f[0].len() as int;
    &&& m.len() == triangle_count(h, w)
    &&& forall|y: int, x: int|
        #![trigger cell_index(w, y, x)]
        0 <= y < h - 1 && 0 <= x < w - 1 ==> is_front_cell(f, facet, m, y, x)
    &&& m.skip(front_count(h, w)) == shell(f)
}

/// Position in the mesh of the first wall triangle of column step `x`.
pub open spec fn end_wall_index(h: int, w: int, x: int) -> int {
    front_count(h, w) + 2 + 4 * x
}

/// Position in the mesh of the first wall triangle of row step `y`.
pub open spec fn side_wall_index(h: int, w: int, y: int) -> int {
    front_count(h, w) + 2 + 4 * (w - 1) + 4 * y
}

/// Row of the relief cell that holds triangle `k`, for a grid of `w` columns.
pub open spec fn cell_row(w: int, k: int) -> int {
    k / 2 / (w - 1)
}

/// Column of the relief cell that holds triangle `k`, for a grid of `w`
/// columns.
pub open spec fn cell_column(w: int, k: int) -> int {
    k / 2 % (w - 1)
}

/// The two triangles of a relief cell lie inside the relief part of the mesh.
pub proof fn lemma_cell_index_bound(h: int, w: int, y: int, x: int)
    requires
        0 <= y < h - 1,
        0 <= x < w - 1,
    ensures
        0 <= cell_index(w, y, x),
        cell_index(w, y, x) + 2 <= front_count(h, w),
{
    assert(0 <= y * (w - 1) && y * (w - 1) + (w - 1) <= (h - 1) * (w - 1)) by (nonlinear_arith)
        requires
            0 <= y < h - 1,
            0 < w - 1,
    ;
}

/// Triangle `k` of the relief belongs to the cell at row `cell_row`, column
/// `cell_column`: it is the first triangle of that cell if `k` is even and
/// the second if `k` is odd.
pub proof fn lemma_relief_triangle<N: Fn(Vec3, Vec3, Vec3) -> Vec3>(
    f: Seq<Seq<Vec3>>,
    facet: N,
    m: Seq<Triangle>,
    k: int,
)
    requires
        is_field(f),
        is_solid(f, facet, m),
        0 <= k < front_count(f.len() as int, f[0].len() as int),
    ensures
        ({
            let w = f[0].len() as int;
            let y = cell_row(w, k);
            let x = cell_column(w, k);
            &&& 0 <= y < f.len() - 1
            &&& 0 <= x < w - 1
            &&& cell_index(w, y, x) == k - k % 2
            &&& m[k] == front_cell(f, m[k - k % 2].normal, y, x)[k % 2]
        }),
{
    let h = f.len() as int;
    let w = f[0].len() as int;
    let d = w - 1;
    let q = k / 2;
    let y = cell_row(w, k);
    let x = cell_column(w, k);
    lemma_fundamental_div_mod(q, d);
    lemma_mod_pos_bound(q, d);
    lemma_div_pos_is_pos(q, d);
    assert(d * y == y * d) by (nonlinear_arith);
    assert(y < h - 1) by (nonlinear_arith)
        requires
            q == y * d + x,
            0 <= x,
            0 < d,
            q < (h - 1) * d,
    ;
    assert(is_front_cell(f, facet, m, y, x));
    let base = cell_index(w, y, x);
    assert(m.subrange(base, base + 2)[k % 2] == m[base + k % 2]);
}

/// Appends the two triangles of the quad `v0 v1 v2 v3` with the normal `n`.
pub fn add_quad_with_normal(mesh: &mut Mesh, v0: Vec3, v1: Vec3, v2: Vec3, v3: Vec3, n: Vec3)
    ensures
        final(mesh)@ == old(mesh)@ + quad(n, v0, v1, v2, v3),
{
    mesh.push(Triangle { normal: n, v0: v0, v1: v1, v2: v2 });
    mesh.push(Triangle { normal: n, v0: v0, v1: v2, v2: v3 });
    assert(mesh@ =~= old(mesh)@ + quad(n, v0, v1, v2, v3));
}

/// Builds the closed solid over a height field: the relief, one quad per grid
/// cell scanned row by row, each with the normal that `facet` gives for its
/// first three corners; then the flat back; then the bottom and top walls,
/// under the first and last rows, column step by column step; then the left
/// and right walls, under the first and last columns, row step by row step.
/// Each wall carries the outward normal of its plane, and its upper edge runs
/// against the relief edge that it hangs from.
pub fn build_mesh<N: Fn(Vec3, Vec3, Vec3) -> Vec3>(field: &HeightField, facet: N) -> (mesh: Mesh)
    requires
        forall|a: Vec3, b: Vec3, c: Vec3| call_requires(facet, (a, b, c)),
    ensures
        is_field(field@),
        is_solid(field@, facet, mesh@),
        mesh@.len() == triangle_count(field@.len() as int, field@[0].len() as int),
{
    let h = field.height();
    let w = field.width();
    let ghost f = field@;
    let mut mesh: Mesh = Vec::new();
    let mut y: usize = 0;
    while y < h - 1
        invariant
            is_field(f),
            f == field@,
            h == f.len(),
            w == f[0].len(),
            y <= h - 1,
            forall|a: Vec3, b: Vec3, c: Vec3| call_requires(facet, (a, b, c)),
            mesh@.len() == 2 * (y * (w - 1)),
            forall|yy: int, xx: int|
                #![trigger cell_index(w as int, yy, xx)]
                0 <= yy < y && 0 <= xx < w - 1 ==> is_front_cell(f, facet, mesh@, yy, xx),
        decreases h - 1 - y,
    {
        let mut x: usize = 0;
        while x < w - 1
            invariant
                is_field(f),
                f == field@,
                h == f.len(),
                w == f[0].len(),
                y < h - 1,
                x <= w - 1,
                forall|a: Vec3, b: Vec3, c: Vec3| call_requires(facet, (a, b, c)),
                mesh@.len() == 2 * (y * (w - 1) + x),
                forall|yy: int, xx: int|
                    #![trigger cell_index(w as int, yy, xx)]
                    0 <= xx < w - 1 && (0 <= yy < y || (yy == y && xx < x)) ==> is_front_cell(
                        f,
                        facet,
                        mesh@,
                        yy,
                        xx,
                    ),
            decreases w - 1 - x,
        {
            let v0 = field.get(y, x);
            let v1 = field.get(y, x + 1);
            let v2 = field.get(y + 1, x + 1);
            let v3 = field.get(y + 1, x);
            let n = facet(v0, v1, v2);
            let ghost before = mesh@;
            add_quad_with_normal(&mut mesh, v0, v1, v2, v3, n);
            proof {
                assert forall|yy: int, xx: int|
                    #![trigger cell_index(w as int, yy, xx)]
                    0 <= xx < w - 1 && (0 <= yy < y || (yy == y && xx < x + 1)) implies is_front_cell(
                    f,
                    facet,
                    mesh@,
                    yy,
                    xx,
                ) by {
                    let k = cell_index(w as int, yy, xx);
                    if yy == y && xx == x {
                        assert(k == before.len());
                        assert(mesh@.subrange(k, k + 2) =~= front_cell(f, n, yy, xx));
                    } else {
                        assert(is_front_cell(f, facet, before, yy, xx));
                        assert(mesh@.subrange(k, k + 2) =~= before.subrange(k, k + 2));
                    }
                }
            }
            x = x + 1;
        }
        proof {
            assert((y + 1) * (w - 1) == y * (w - 1) + (w - 1)) by (nonlinear_arith);
        }
        y = y + 1;
    }
    let ghost front = mesh@;
    assert(front.len() == front_count(h as int, w as int));

    let far = field.get(h - 1, w - 1);
    add_quad_with_normal(
        &mut mesh,
        Vec3 { x: ZERO, y: ZERO, z: ZERO },
        Vec3 { x: far.x, y: ZERO, z: ZERO },
        Vec3 { x: far.x, y: far.y, z: ZERO },
        Vec3 { x: ZERO, y: far.y, z: ZERO },
        Vec3 { x: ZERO, y: ZERO, z: MINUS_ONE },
    );
    assert(mesh@ =~= front + back_cap(f) + end_walls(f).take(0));

    let mut x: usize = 0;
    while x < w - 1
        invariant
            is_field(f),
            f == field@,
            h == f.len(),
            w == f[0].len(),
            x <= w - 1,
            mesh@ == front + back_cap(f) + end_walls(f).take(4 * x),
        decreases w - 1 - x,
    {
        let a0 = field.get(0, x + 1);
        let a1 = field.get(0, x);
        let b0 = field.get(h - 1, x);
        let b1 = field.get(h - 1, x + 1);
        add_quad_with_normal(
            &mut mesh,
            a0,
            a1,
            a1.base(),
            a0.base(),
            Vec3 { x: ZERO, y: MINUS_ONE, z: ZERO },
        );
        add_quad_with_normal(
            &mut mesh,
            b0,
            b1,
            b1.base(),
            b0.base(),
            Vec3 { x: ZERO, y: ONE, z: ZERO },
        );
        proof {
            let step = end_wall_step(f, x as int);
            assert(end_walls(f).take(4 * (x + 1)) =~= end_walls(f).take(4 * x) + step);
            assert(mesh@ =~= front + back_cap(f) + end_walls(f).take(4 * (x + 1)));
        }
        x = x + 1;
    }
    assert(end_walls(f).take(4 * (w - 1)) =~= end_walls(f));
    assert(mesh@ =~= front + back_cap(f) + end_walls(f) + side_walls(f).take(0));

    let mut y: usize = 0;
    while y < h - 1
        invariant
            is_field(f),
            f == field@,
            h == f.len(),
            w == f[0].len(),
            y <= h - 1,
            mesh@ == front + back_cap(f) + end_walls(f) + side_walls(f).take(4 * y),
        decreases h - 1 - y,
    {
        let a0 = field.get(y, 0);
        let a1 = field.get(y + 1, 0);
        let b0 = field.get(y + 1, w - 1);
        let b1 = field.get(y, w - 1);
        add_quad_with_normal(
            &mut mesh,
            a0,
            a1,
            a1.base(),
            a0.base(),
            Vec3 { x: MINUS_ONE, y: ZERO, z: ZERO },
        );
        add_quad_with_normal(
            &mut mesh,
            b0,
            b1,
            b1.base(),
            b0.base(),
            Vec3 { x: ONE, y: ZERO, z: ZERO },
        );
        proof {
            let step = side_wall_step(f, y as int);
            assert(side_walls(f).take(4 * (y + 1)) =~= side_walls(f).take(4 * y) + step);
            assert(mesh@ =~= front + back_cap(f) + end_walls(f) + side_walls(f).take(4 * (y + 1)));
        }
        y = y + 1;
    }
    proof {
        assert(side_walls(f).take(4 * (h - 1)) =~= side_walls(f));
        assert(mesh@ =~= front + shell(f));
        assert(mesh@.skip(front.len() as int) =~= shell(f));
        assert(2 * (w - 1) * (h - 1) == 2 * ((h - 1) * (w - 1))) by (nonlinear_arith);
        assert forall|yy: int, xx: int|
            #![trigger cell_index(w as int, yy, xx)]
            0 <= yy < h - 1 && 0 <= xx < w - 1 implies is_front_cell(f, facet, mesh@, yy, xx) by {
            let k = cell_index(w as int, yy, xx);
            assert(is_front_cell(f, facet, front, yy, xx));
            assert(mesh@.subrange(k, k + 2) =~= front.subrange(k, k + 2));
        }
    }
    mesh
}

} // verus!
