use vstd::prelude::*;
use crate::geometry::{base_of, Triangle, Vec3, ZERO};
use crate::heightfield::is_field;
use crate::mesh::{
    back_cap, cell_column, cell_index, cell_row, end_wall_index, end_wall_step, end_walls,
    front_count, is_front_cell, is_solid, lemma_cell_index_bound, lemma_relief_triangle,
    side_wall_index, side_wall_step, side_walls,
};

verus! {

/// The directed edge from `a` to `b` is one of the three sides of `t`, taken
/// in winding order.
pub open spec fn has_edge(t: Triangle, a: Vec3, b: Vec3) -> bool {
    ||| t.v0 == a && t.v1 == b
    ||| t.v1 == a && t.v2 == b
    ||| t.v2 == a && t.v0 == b
}

/// Side `e` of `t` as a directed edge: side 0 runs from `v0` to `v1`, side 1
/// from `v1` to `v2`, and side 2 from `v2` to `v0`.
pub open spec fn edge_of(t: Triangle, e: int) -> (Vec3, Vec3) {
    if e == 0 {
        (t.v0, t.v1)
    } else if e == 1 {
        (t.v1, t.v2)
    } else {
        (t.v2, t.v0)
    }
}

/// Triangle `i` of the solid over `h` rows and `w` columns is one of the two
/// triangles of the back.
pub open spec fn is_back(h: int, w: int, i: int) -> bool {
    i == front_count(h, w) || i == front_count(h, w) + 1
}

/// Side `e` of triangle `i` is the foot of a wall: the side of the second
/// triangle of a wall quad that joins the bases of the two relief points.
pub open spec fn is_wall_foot(h: int, w: int, i: int, e: int) -> bool {
    i >= front_count(h, w) + 2 && (i - front_count(h, w)) % 2 == 1 && e == 1
}

/// Some triangle of `m` other than triangle `i` walks side `e` of triangle
/// `i` in the opposite direction.
pub open spec fn has_partner(m: Seq<Triangle>, i: int, e: int) -> bool {
    exists|j: int|
        0 <= j < m.len() && j != i && #[trigger] has_edge(
            m[j],
            edge_of(m[i], e).1,
            edge_of(m[i], e).0,
        )
}

proof fn lemma_partner(m: Seq<Triangle>, i: int, e: int, j: int)
    requires
        0 <= j < m.len(),
        j != i,
        has_edge(m[j], edge_of(m[i], e).1, edge_of(m[i], e).0),
    ensures
        has_partner(m, i, e),
{
}

proof fn lemma_cell_index_steps(w: int, y: int, x: int)
    ensures
        cell_index(w, y + 1, x) == cell_index(w, y, x) + 2 * (w - 1),
        cell_index(w, y, x + 1) == cell_index(w, y, x) + 2,
{
    assert((y + 1) * (w - 1) == y * (w - 1) + (w - 1)) by (nonlinear_arith);
}

/// The two triangles of the relief cell at row `y`, column `x`, as they stand
/// in the mesh.
proof fn lemma_cell_triangles<N: Fn(Vec3, Vec3, Vec3) -> Vec3>(
    f: Seq<Seq<Vec3>>,
    facet: N,
    m: Seq<Triangle>,
    y: int,
    x: int,
)
    requires
        is_field(f),
        is_solid(f, facet, m),
        0 <= y < f.len() - 1,
        0 <= x < f[0].len() - 1,
    ensures
        ({
            let k = cell_index(f[0].len() as int, y, x);
            &&& 0 <= k
            &&& k + 2 <= front_count(f.len() as int, f[0].len() as int)
            &&& k + 2 <= m.len()
            &&& m[k].v0 == f[y][x]
            &&& m[k].v1 == f[y][x + 1]
            &&& m[k].v2 == f[y + 1][x + 1]
            &&& m[k + 1].v0 == f[y][x]
            &&& m[k + 1].v1 == f[y + 1][x + 1]
            &&& m[k + 1].v2 == f[y + 1][x]
        }),
{
    let k = cell_index(f[0].len() as int, y, x);
    lemma_cell_index_bound(f.len() as int, f[0].len() as int, y, x);
    assert(is_front_cell(f, facet, m, y, x));
    assert(m.subrange(k, k + 2)[0] == m[k]);
    assert(m.subrange(k, k + 2)[1] == m[k + 1]);
}

/// The four wall triangles of column step `x`, as they stand in the mesh.
proof fn lemma_end_wall_triangles<N: Fn(Vec3, Vec3, Vec3) -> Vec3>(
    f: Seq<Seq<Vec3>>,
    facet: N,
    m: Seq<Triangle>,
    x: int,
)
    requires
        is_field(f),
        is_solid(f, facet, m),
        0 <= x < f[0].len() - 1,
    ensures
        ({
            let i = end_wall_index(f.len() as int, f[0].len() as int, x);
            &&& i + 4 <= m.len()
            &&& forall|c: int| 0 <= c < 4 ==> #[trigger] m[i + c] == end_wall_step(f, x)[c]
        }),
{
    let h = f.len() as int;
    let w = f[0].len() as int;
    let i = end_wall_index(h, w, x);
    let rest = m.skip(front_count(h, w));
    assert(2 * (w - 1) * (h - 1) == 2 * ((h - 1) * (w - 1))) by (nonlinear_arith);
    assert(back_cap(f).len() == 2);
    assert(end_walls(f).len() == 4 * (w - 1));
    assert forall|c: int| 0 <= c < 4 implies #[trigger] m[i + c] == end_wall_step(f, x)[c] by {
        assert(m[i + c] == rest[2 + 4 * x + c]);
        assert(rest[2 + 4 * x + c] == end_walls(f)[4 * x + c]);
    }
}

/// The four wall triangles of row step `y`, as they stand in the mesh.
proof fn lemma_side_wall_triangles<N: Fn(Vec3, Vec3, Vec3) -> Vec3>(
    f: Seq<Seq<Vec3>>,
    facet: N,
    m: Seq<Triangle>,
    y: int,
)
    requires
        is_field(f),
        is_solid(f, facet, m),
        0 <= y < f.len() - 1,
    ensures
        ({
            let i = side_wall_index(f.len() as int, f[0].len() as int, y);
            &&& i + 4 <= m.len()
            &&& forall|c: int| 0 <= c < 4 ==> #[trigger] m[i + c] == side_wall_step(f, y)[c]
        }),
{
    let h = f.len() as int;
    let w = f[0].len() as int;
    let i = side_wall_index(h, w, y);
    let rest = m.skip(front_count(h, w));
    assert(2 * (w - 1) * (h - 1) == 2 * ((h - 1) * (w - 1))) by (nonlinear_arith);
    assert(back_cap(f).len() == 2);
    assert(end_walls(f).len() == 4 * (w - 1));
    assert(side_walls(f).len() == 4 * (h - 1));
    assert forall|c: int| 0 <= c < 4 implies #[trigger] m[i + c] == side_wall_step(f, y)[c] by {
        assert(m[i + c] == rest[2 + 4 * (w - 1) + 4 * y + c]);
        assert(rest[2 + 4 * (w - 1) + 4 * y + c] == side_walls(f)[4 * y + c]);
    }
}

/// Inside the relief every shared edge is walked in opposite directions by
/// the two triangles that share it: the diagonal of a cell by its two
/// triangles, the edge between a cell and its right neighbour, and the edge
/// between a cell and the cell above it.
pub proof fn lemma_relief_seams<N: Fn(Vec3, Vec3, Vec3) -> Vec3>(
    f: Seq<Seq<Vec3>>,
    facet: N,
    m: Seq<Triangle>,
    y: int,
    x: int,
)
    requires
        is_field(f),
        is_solid(f, facet, m),
        0 <= y < f.len() - 1,
        0 <= x < f[0].len() - 1,
    ensures
        ({
            let w = f[0].len() as int;
            let k = cell_index(w, y, x);
            let right = cell_index(w, y, x + 1);
            let above = cell_index(w, y + 1, x);
            &&& has_edge(m[k], f[y + 1][x + 1], f[y][x])
            &&& has_edge(m[k + 1], f[y][x], f[y + 1][x + 1])
            &&& x + 1 < w - 1 ==> {
                &&& right + 1 != k
                &&& has_edge(m[k], f[y][x + 1], f[y + 1][x + 1])
                &&& has_edge(m[right + 1], f[y + 1][x + 1], f[y][x + 1])
            }
            &&& y + 1 < f.len() - 1 ==> {
                &&& above != k + 1
                &&& has_edge(m[k + 1], f[y + 1][x + 1], f[y + 1][x])
                &&& has_edge(m[above], f[y + 1][x], f[y + 1][x + 1])
            }
        }),
{
    let w = f[0].len() as int;
    let k = cell_index(w, y, x);
    assert(is_front_cell(f, facet, m, y, x));
    let here = m.subrange(k, k + 2);
    assert(here[0] == m[k] && here[1] == m[k + 1]);
    if x + 1 < w - 1 {
        let right = cell_index(w, y, x + 1);
        assert(is_front_cell(f, facet, m, y, x + 1));
        assert(m.subrange(right, right + 2)[1] == m[right + 1]);
    }
    if y + 1 < f.len() - 1 {
        let above = cell_index(w, y + 1, x);
        assert(is_front_cell(f, facet, m, y + 1, x));
        assert(m.subrange(above, above + 2)[0] == m[above]);
        assert((y + 1) * (w - 1) == y * (w - 1) + (w - 1)) by (nonlinear_arith);
    }
}

/// Where the walls meet the relief: every boundary edge of the relief is the
/// upper edge of one wall, and the wall triangle that has it walks it against
/// the relief triangle that has it.
pub proof fn lemma_wall_seams<N: Fn(Vec3, Vec3, Vec3) -> Vec3>(
    f: Seq<Seq<Vec3>>,
    facet: N,
    m: Seq<Triangle>,
)
    requires
        is_field(f),
        is_solid(f, facet, m),
    ensures
        ({
            let h = f.len() as int;
            let w = f[0].len() as int;
            &&& forall|x: int|
                #![trigger end_wall_index(h, w, x)]
                0 <= x < w - 1 ==> {
                    &&& cell_index(w, 0, x) < end_wall_index(h, w, x)
                    &&& cell_index(w, h - 2, x) + 1 < end_wall_index(h, w, x)
                    &&& has_edge(m[cell_index(w, 0, x)], f[0][x], f[0][x + 1])
                    &&& has_edge(m[end_wall_index(h, w, x)], f[0][x + 1], f[0][x])
                    &&& has_edge(m[cell_index(w, h - 2, x) + 1], f[h - 1][x + 1], f[h - 1][x])
                    &&& has_edge(m[end_wall_index(h, w, x) + 2], f[h - 1][x], f[h - 1][x + 1])
                }
            &&& forall|y: int|
                #![trigger side_wall_index(h, w, y)]
                0 <= y < h - 1 ==> {
                    &&& cell_index(w, y, 0) + 1 < side_wall_index(h, w, y)
                    &&& cell_index(w, y, w - 2) < side_wall_index(h, w, y)
                    &&& has_edge(m[cell_index(w, y, 0) + 1], f[y + 1][0], f[y][0])
                    &&& has_edge(m[side_wall_index(h, w, y)], f[y][0], f[y + 1][0])
                    &&& has_edge(m[cell_index(w, y, w - 2)], f[y][w - 1], f[y + 1][w - 1])
                    &&& has_edge(m[side_wall_index(h, w, y) + 2], f[y + 1][w - 1], f[y][w - 1])
                }
        }),
{
    let h = f.len() as int;
    let w = f[0].len() as int;
    let front = front_count(h, w);
    let rest = m.skip(front);
    assert(2 * (w - 1) * (h - 1) == 2 * ((h - 1) * (w - 1))) by (nonlinear_arith);
    assert(back_cap(f).len() == 2);
    assert(end_walls(f).len() == 4 * (w - 1));
    assert forall|x: int|
        #![trigger end_wall_index(h, w, x)]
        0 <= x < w - 1 implies {
        &&& cell_index(w, 0, x) < end_wall_index(h, w, x)
        &&& cell_index(w, h - 2, x) + 1 < end_wall_index(h, w, x)
        &&& has_edge(m[cell_index(w, 0, x)], f[0][x], f[0][x + 1])
        &&& has_edge(m[end_wall_index(h, w, x)], f[0][x + 1], f[0][x])
        &&& has_edge(m[cell_index(w, h - 2, x) + 1], f[h - 1][x + 1], f[h - 1][x])
        &&& has_edge(m[end_wall_index(h, w, x) + 2], f[h - 1][x], f[h - 1][x + 1])
    } by {
        let low = cell_index(w, 0, x);
        let high = cell_index(w, h - 2, x);
        lemma_cell_index_bound(h, w, 0, x);
        lemma_cell_index_bound(h, w, h - 2, x);
        assert(is_front_cell(f, facet, m, 0, x));
        assert(is_front_cell(f, facet, m, h - 2, x));
        assert(m.subrange(low, low + 2)[0] == m[low]);
        assert(m.subrange(high, high + 2)[1] == m[high + 1]);
        let i = end_wall_index(h, w, x);
        assert(m[i] == rest[2 + 4 * x]);
        assert(m[i + 2] == rest[2 + 4 * x + 2]);
        assert(rest[2 + 4 * x] == end_walls(f)[4 * x]);
        assert(rest[2 + 4 * x + 2] == end_walls(f)[4 * x + 2]);
    }
    assert forall|y: int|
        #![trigger side_wall_index(h, w, y)]
        0 <= y < h - 1 implies {
        &&& cell_index(w, y, 0) + 1 < side_wall_index(h, w, y)
        &&& cell_index(w, y, w - 2) < side_wall_index(h, w, y)
        &&& has_edge(m[cell_index(w, y, 0) + 1], f[y + 1][0], f[y][0])
        &&& has_edge(m[side_wall_index(h, w, y)], f[y][0], f[y + 1][0])
        &&& has_edge(m[cell_index(w, y, w - 2)], f[y][w - 1], f[y + 1][w - 1])
        &&& has_edge(m[side_wall_index(h, w, y) + 2], f[y + 1][w - 1], f[y][w - 1])
    } by {
        let first = cell_index(w, y, 0);
        let last = cell_index(w, y, w - 2);
        lemma_cell_index_bound(h, w, y, 0);
        lemma_cell_index_bound(h, w, y, w - 2);
        assert(is_front_cell(f, facet, m, y, 0));
        assert(is_front_cell(f, facet, m, y, w - 2));
        assert(m.subrange(first, first + 2)[1] == m[first + 1]);
        assert(m.subrange(last, last + 2)[0] == m[last]);
        let i = side_wall_index(h, w, y);
        assert(m[i] == rest[2 + 4 * (w - 1) + 4 * y]);
        assert(m[i + 2] == rest[2 + 4 * (w - 1) + 4 * y + 2]);
        assert(rest[2 + 4 * (w - 1) + 4 * y] == side_walls(f)[4 * y]);
        assert(rest[2 + 4 * (w - 1) + 4 * y + 2] == side_walls(f)[4 * y + 2]);
    }
}

/// `(y, x)` lies on the boundary of a grid of `h` rows and `w` columns.
pub open spec fn on_boundary(h: int, w: int, y: int, x: int) -> bool {
    &&& 0 <= y < h
    &&& 0 <= x < w
    &&& (y == 0 || y == h - 1 || x == 0 || x == w - 1)
}

/// Under every boundary point of the relief one wall triangle walks the
/// vertical edge from the point down to its base. It is the first triangle of
/// its wall quad.
proof fn lemma_post_down<N: Fn(Vec3, Vec3, Vec3) -> Vec3>(
    f: Seq<Seq<Vec3>>,
    facet: N,
    m: Seq<Triangle>,
    y: int,
    x: int,
) -> (j: int)
    requires
        is_field(f),
        is_solid(f, facet, m),
        on_boundary(f.len() as int, f[0].len() as int, y, x),
    ensures
        front_count(f.len() as int, f[0].len() as int) + 2 <= j < m.len(),
        (j - front_count(f.len() as int, f[0].len() as int)) % 2 == 0,
        has_edge(m[j], f[y][x], base_of(f[y][x])),
{
    let h = f.len() as int;
    let w = f[0].len() as int;
    if y == 0 && x <= w - 2 {
        lemma_end_wall_triangles(f, facet, m, x);
        let j = end_wall_index(h, w, x);
        assert(m[j + 0] == end_wall_step(f, x)[0]);
        j
    } else if y == 0 {
        lemma_side_wall_triangles(f, facet, m, 0);
        let j = side_wall_index(h, w, 0) + 2;
        assert(m[side_wall_index(h, w, 0) + 2] == side_wall_step(f, 0)[2]);
        j
    } else if y == h - 1 && x >= 1 {
        lemma_end_wall_triangles(f, facet, m, x - 1);
        let j = end_wall_index(h, w, x - 1) + 2;
        assert(m[end_wall_index(h, w, x - 1) + 2] == end_wall_step(f, x - 1)[2]);
        j
    } else if y == h - 1 {
        lemma_side_wall_triangles(f, facet, m, h - 2);
        let j = side_wall_index(h, w, h - 2);
        assert(m[j + 0] == side_wall_step(f, h - 2)[0]);
        j
    } else if x == 0 {
        lemma_side_wall_triangles(f, facet, m, y - 1);
        let j = side_wall_index(h, w, y - 1);
        assert(m[j + 0] == side_wall_step(f, y - 1)[0]);
        j
    } else {
        lemma_side_wall_triangles(f, facet, m, y);
        let j = side_wall_index(h, w, y) + 2;
        assert(m[side_wall_index(h, w, y) + 2] == side_wall_step(f, y)[2]);
        j
    }
}

/// Under every boundary point of the relief one wall triangle walks the
/// vertical edge from the base up to the point. It is the second triangle of
/// its wall quad.
proof fn lemma_post_up<N: Fn(Vec3, Vec3, Vec3) -> Vec3>(
    f: Seq<Seq<Vec3>>,
    facet: N,
    m: Seq<Triangle>,
    y: int,
    x: int,
) -> (j: int)
    requires
        is_field(f),
        is_solid(f, facet, m),
        on_boundary(f.len() as int, f[0].len() as int, y, x),
    ensures
        front_count(f.len() as int, f[0].len() as int) + 2 <= j < m.len(),
        (j - front_count(f.len() as int, f[0].len() as int)) % 2 == 1,
        has_edge(m[j], base_of(f[y][x]), f[y][x]),
{
    let h = f.len() as int;
    let w = f[0].len() as int;
    if y == 0 && x >= 1 {
        lemma_end_wall_triangles(f, facet, m, x - 1);
        let j = end_wall_index(h, w, x - 1) + 1;
        assert(m[end_wall_index(h, w, x - 1) + 1] == end_wall_step(f, x - 1)[1]);
        j
    } else if y == 0 {
        lemma_side_wall_triangles(f, facet, m, 0);
        let j = side_wall_index(h, w, 0) + 1;
        assert(m[side_wall_index(h, w, 0) + 1] == side_wall_step(f, 0)[1]);
        j
    } else if y == h - 1 && x <= w - 2 {
        lemma_end_wall_triangles(f, facet, m, x);
        let j = end_wall_index(h, w, x) + 3;
        assert(m[end_wall_index(h, w, x) + 3] == end_wall_step(f, x)[3]);
        j
    } else if y == h - 1 {
        lemma_side_wall_triangles(f, facet, m, h - 2);
        let j = side_wall_index(h, w, h - 2) + 3;
        assert(m[side_wall_index(h, w, h - 2) + 3] == side_wall_step(f, h - 2)[3]);
        j
    } else if x == 0 {
        lemma_side_wall_triangles(f, facet, m, y);
        let j = side_wall_index(h, w, y) + 1;
        assert(m[side_wall_index(h, w, y) + 1] == side_wall_step(f, y)[1]);
        j
    } else {
        lemma_side_wall_triangles(f, facet, m, y - 1);
        let j = side_wall_index(h, w, y - 1) + 3;
        assert(m[side_wall_index(h, w, y - 1) + 3] == side_wall_step(f, y - 1)[3]);
        j
    }
}

/// Every side of a relief triangle is walked in the opposite direction by
/// another triangle: by its neighbour in the relief, or at the boundary by a
/// wall.
proof fn lemma_relief_edge_paired<N: Fn(Vec3, Vec3, Vec3) -> Vec3>(
    f: Seq<Seq<Vec3>>,
    facet: N,
    m: Seq<Triangle>,
    y: int,
    x: int,
    c: int,
    e: int,
)
    requires
        is_field(f),
        is_solid(f, facet, m),
        0 <= y < f.len() - 1,
        0 <= x < f[0].len() - 1,
        0 <= c < 2,
        0 <= e < 3,
    ensures
        has_partner(m, cell_index(f[0].len() as int, y, x) + c, e),
{
    let h = f.len() as int;
    let w = f[0].len() as int;
    let k = cell_index(w, y, x);
    let i = k + c;
    lemma_cell_triangles(f, facet, m, y, x);
    if c == 0 && e == 0 {
        if y > 0 {
            lemma_cell_triangles(f, facet, m, y - 1, x);
            lemma_cell_index_steps(w, y - 1, x);
            lemma_partner(m, i, e, cell_index(w, y - 1, x) + 1);
        } else {
            lemma_end_wall_triangles(f, facet, m, x);
            let j = end_wall_index(h, w, x);
            assert(m[j + 0] == end_wall_step(f, x)[0]);
            lemma_partner(m, i, e, j);
        }
    } else if c == 0 && e == 1 {
        if x + 1 < w - 1 {
            lemma_cell_triangles(f, facet, m, y, x + 1);
            lemma_cell_index_steps(w, y, x);
            lemma_partner(m, i, e, cell_index(w, y, x + 1) + 1);
        } else {
            lemma_side_wall_triangles(f, facet, m, y);
            let j = side_wall_index(h, w, y) + 2;
            assert(m[side_wall_index(h, w, y) + 2] == side_wall_step(f, y)[2]);
            lemma_partner(m, i, e, j);
        }
    } else if c == 0 {
        lemma_partner(m, i, e, k + 1);
    } else if e == 0 {
        lemma_partner(m, i, e, k);
    } else if e == 1 {
        if y + 1 < h - 1 {
            lemma_cell_triangles(f, facet, m, y + 1, x);
            lemma_cell_index_steps(w, y, x);
            lemma_partner(m, i, e, cell_index(w, y + 1, x));
        } else {
            lemma_end_wall_triangles(f, facet, m, x);
            let j = end_wall_index(h, w, x) + 2;
            assert(m[end_wall_index(h, w, x) + 2] == end_wall_step(f, x)[2]);
            lemma_partner(m, i, e, j);
        }
    } else {
        if x > 0 {
            lemma_cell_triangles(f, facet, m, y, x - 1);
            lemma_cell_index_steps(w, y, x - 1);
            lemma_partner(m, i, e, cell_index(w, y, x - 1));
        } else {
            lemma_side_wall_triangles(f, facet, m, y);
            let j = side_wall_index(h, w, y);
            assert(m[j + 0] == side_wall_step(f, y)[0]);
            lemma_partner(m, i, e, j);
        }
    }
}

/// Every side of a bottom or top wall triangle but the foot of the wall is
/// walked in the opposite direction by another triangle.
proof fn lemma_end_wall_edge_paired<N: Fn(Vec3, Vec3, Vec3) -> Vec3>(
    f: Seq<Seq<Vec3>>,
    facet: N,
    m: Seq<Triangle>,
    x: int,
    c: int,
    e: int,
)
    requires
        is_field(f),
        is_solid(f, facet, m),
        0 <= x < f[0].len() - 1,
        0 <= c < 4,
        0 <= e < 3,
        !(c % 2 == 1 && e == 1),
    ensures
        has_partner(m, end_wall_index(f.len() as int, f[0].len() as int, x) + c, e),
{
    let h = f.len() as int;
    let w = f[0].len() as int;
    let start = end_wall_index(h, w, x);
    let i = start + c;
    lemma_end_wall_triangles(f, facet, m, x);
    assert(m[start + 0] == end_wall_step(f, x)[0]);
    assert(m[start + 1] == end_wall_step(f, x)[1]);
    assert(m[start + 2] == end_wall_step(f, x)[2]);
    assert(m[start + 3] == end_wall_step(f, x)[3]);
    if e == 0 && c == 0 {
        lemma_cell_triangles(f, facet, m, 0, x);
        lemma_partner(m, i, e, cell_index(w, 0, x));
    } else if e == 0 && c == 2 {
        lemma_cell_triangles(f, facet, m, h - 2, x);
        lemma_partner(m, i, e, cell_index(w, h - 2, x) + 1);
    } else if e == 0 {
        lemma_partner(m, i, e, i - 1);
    } else if e == 2 && c % 2 == 0 {
        lemma_partner(m, i, e, i + 1);
    } else if e == 1 && c == 0 {
        let j = lemma_post_up(f, facet, m, 0, x);
        lemma_partner(m, i, e, j);
    } else if e == 1 {
        let j = lemma_post_up(f, facet, m, h - 1, x + 1);
        lemma_partner(m, i, e, j);
    } else if c == 1 {
        let j = lemma_post_down(f, facet, m, 0, x + 1);
        lemma_partner(m, i, e, j);
    } else {
        let j = lemma_post_down(f, facet, m, h - 1, x);
        lemma_partner(m, i, e, j);
    }
}

/// Every side of a left or right wall triangle but the foot of the wall is
/// walked in the opposite direction by another triangle.
proof fn lemma_side_wall_edge_paired<N: Fn(Vec3, Vec3, Vec3) -> Vec3>(
    f: Seq<Seq<Vec3>>,
    facet: N,
    m: Seq<Triangle>,
    y: int,
    c: int,
    e: int,
)
    requires
        is_field(f),
        is_solid(f, facet, m),
        0 <= y < f.len() - 1,
        0 <= c < 4,
        0 <= e < 3,
        !(c % 2 == 1 && e == 1),
    ensures
        has_partner(m, side_wall_index(f.len() as int, f[0].len() as int, y) + c, e),
{
    let h = f.len() as int;
    let w = f[0].len() as int;
    let start = side_wall_index(h, w, y);
    let i = start + c;
    lemma_side_wall_triangles(f, facet, m, y);
    assert(m[start + 0] == side_wall_step(f, y)[0]);
    assert(m[start + 1] == side_wall_step(f, y)[1]);
    assert(m[start + 2] == side_wall_step(f, y)[2]);
    assert(m[start + 3] == side_wall_step(f, y)[3]);
    if e == 0 && c == 0 {
        lemma_cell_triangles(f, facet, m, y, 0);
        lemma_partner(m, i, e, cell_index(w, y, 0) + 1);
    } else if e == 0 && c == 2 {
        lemma_cell_triangles(f, facet, m, y, w - 2);
        lemma_partner(m, i, e, cell_index(w, y, w - 2));
    } else if e == 0 {
        lemma_partner(m, i, e, i - 1);
    } else if e == 2 && c % 2 == 0 {
        lemma_partner(m, i, e, i + 1);
    } else if e == 1 && c == 0 {
        let j = lemma_post_up(f, facet, m, y + 1, 0);
        lemma_partner(m, i, e, j);
    } else if e == 1 {
        let j = lemma_post_up(f, facet, m, y, w - 1);
        lemma_partner(m, i, e, j);
    } else if c == 1 {
        let j = lemma_post_down(f, facet, m, y, 0);
        lemma_partner(m, i, e, j);
    } else {
        let j = lemma_post_down(f, facet, m, y + 1, w - 1);
        lemma_partner(m, i, e, j);
    }
}

/// The relief and the walls fit together: every side of every triangle of the
/// solid, but for the two triangles of the back and the feet of the walls, is
/// walked in the opposite direction by another triangle of the solid.
pub proof fn lemma_edges_above_the_back_are_paired<N: Fn(Vec3, Vec3, Vec3) -> Vec3>(
    f: Seq<Seq<Vec3>>,
    facet: N,
    m: Seq<Triangle>,
    i: int,
    e: int,
)
    requires
        is_field(f),
        is_solid(f, facet, m),
        0 <= i < m.len(),
        0 <= e < 3,
        !is_back(f.len() as int, f[0].len() as int, i),
        !is_wall_foot(f.len() as int, f[0].len() as int, i, e),
    ensures
        has_partner(m, i, e),
{
    let h = f.len() as int;
    let w = f[0].len() as int;
    let front = front_count(h, w);
    assert(2 * (w - 1) * (h - 1) == 2 * ((h - 1) * (w - 1))) by (nonlinear_arith);
    if i < front {
        lemma_relief_triangle(f, facet, m, i);
        lemma_relief_edge_paired(f, facet, m, cell_row(w, i), cell_column(w, i), i % 2, e);
    } else {
        let r = i - front - 2;
        if r < 4 * (w - 1) {
            assert(end_wall_index(h, w, r / 4) + r % 4 == i);
            lemma_end_wall_edge_paired(f, facet, m, r / 4, r % 4, e);
        } else {
            let s = r - 4 * (w - 1);
            assert(side_wall_index(h, w, s / 4) + s % 4 == i);
            lemma_side_wall_edge_paired(f, facet, m, s / 4, s % 4, e);
        }
    }
}

/// The rim of the back. The back walks its four sides in the order origin,
/// far end of row 0, far corner, far end of column 0; the foot of every wall
/// runs round the solid in that same sense. So where a foot coincides with a
/// side of the back the two repeat the directed edge instead of reversing it,
/// and the sides of the back are left out of
/// `lemma_edges_above_the_back_are_paired`.
pub proof fn lemma_feet_follow_the_back<N: Fn(Vec3, Vec3, Vec3) -> Vec3>(
    f: Seq<Seq<Vec3>>,
    facet: N,
    m: Seq<Triangle>,
)
    requires
        is_field(f),
        is_solid(f, facet, m),
    ensures
        ({
            let h = f.len() as int;
            let w = f[0].len() as int;
            let front = front_count(h, w);
            let far = f[h - 1][w - 1];
            let origin = Vec3 { x: ZERO, y: ZERO, z: ZERO };
            let along_x = Vec3 { x: far.x, y: ZERO, z: ZERO };
            let along_y = Vec3 { x: ZERO, y: far.y, z: ZERO };
            &&& has_edge(m[front], origin, along_x)
            &&& has_edge(m[front], along_x, base_of(far))
            &&& has_edge(m[front + 1], base_of(far), along_y)
            &&& has_edge(m[front + 1], along_y, origin)
            &&& forall|x: int|
                #![trigger end_wall_index(h, w, x)]
                0 <= x < w - 1 ==> {
                    &&& has_edge(
                        m[end_wall_index(h, w, x) + 1],
                        base_of(f[0][x]),
                        base_of(f[0][x + 1]),
                    )
                    &&& has_edge(
                        m[end_wall_index(h, w, x) + 3],
                        base_of(f[h - 1][x + 1]),
                        base_of(f[h - 1][x]),
                    )
                }
            &&& forall|y: int|
                #![trigger side_wall_index(h, w, y)]
                0 <= y < h - 1 ==> {
                    &&& has_edge(
                        m[side_wall_index(h, w, y) + 1],
                        base_of(f[y + 1][0]),
                        base_of(f[y][0]),
                    )
                    &&& has_edge(
                        m[side_wall_index(h, w, y) + 3],
                        base_of(f[y][w - 1]),
                        base_of(f[y + 1][w - 1]),
                    )
                }
        }),
{
    let h = f.len() as int;
    let w = f[0].len() as int;
    let front = front_count(h, w);
    let rest = m.skip(front);
    assert(2 * (w - 1) * (h - 1) == 2 * ((h - 1) * (w - 1))) by (nonlinear_arith);
    assert(back_cap(f).len() == 2);
    assert(m[front] == rest[0] && rest[0] == back_cap(f)[0]);
    assert(m[front + 1] == rest[1] && rest[1] == back_cap(f)[1]);
    assert forall|x: int|
        #![trigger end_wall_index(h, w, x)]
        0 <= x < w - 1 implies {
        &&& has_edge(m[end_wall_index(h, w, x) + 1], base_of(f[0][x]), base_of(f[0][x + 1]))
        &&& has_edge(
            m[end_wall_index(h, w, x) + 3],
            base_of(f[h - 1][x + 1]),
            base_of(f[h - 1][x]),
        )
    } by {
        lemma_end_wall_triangles(f, facet, m, x);
        assert(m[end_wall_index(h, w, x) + 1] == end_wall_step(f, x)[1]);
        assert(m[end_wall_index(h, w, x) + 3] == end_wall_step(f, x)[3]);
    }
    assert forall|y: int|
        #![trigger side_wall_index(h, w, y)]
        0 <= y < h - 1 implies {
        &&& has_edge(m[side_wall_index(h, w, y) + 1], base_of(f[y + 1][0]), base_of(f[y][0]))
        &&& has_edge(
            m[side_wall_index(h, w, y) + 3],
            base_of(f[y][w - 1]),
            base_of(f[y + 1][w - 1]),
        )
    } by {
        lemma_side_wall_triangles(f, facet, m, y);
        assert(m[side_wall_index(h, w, y) + 1] == side_wall_step(f, y)[1]);
        assert(m[side_wall_index(h, w, y) + 3] == side_wall_step(f, y)[3]);
    }
}

} // verus!
