use vstd::prelude::*;

verus! {

/// Largest coordinate magnitude the grid builder accepts.
///
/// Vertex positions are given in integer (fixed-point) coordinates; keeping
/// every referenced coordinate within this bound keeps all derived arithmetic
/// (extents, cell indexing, the resolution heuristic) inside the machine
/// integer ranges used by the executable code.
pub const COORD_LIMIT: i32 = 0x1000_0000;

/// Number of vertices stored in a flat coordinate array (three values each).
pub open spec fn vertex_count(positions: Seq<i32>) -> int {
    positions.len() as int / 3
}

/// Coordinate `axis` of vertex `v`.
pub open spec fn coord(positions: Seq<i32>, v: int, axis: int) -> int {
    positions[3 * v + axis] as int
}

/// Vertex referenced by corner `j` of triangle `t`.
pub open spec fn tri_vertex(indices: Seq<u32>, t: int, j: int) -> int {
    indices[3 * t + j] as int
}

/// Coordinate `axis` of corner `j` of triangle `t`.
pub open spec fn tri_coord(
    positions: Seq<i32>,
    indices: Seq<u32>,
    t: int,
    j: int,
    axis: int,
) -> int {
    coord(positions, tri_vertex(indices, t, j), axis)
}

/// The first `n` triangles are well formed: the coordinate array holds whole
/// vertices, the index array holds exactly `n` index triplets, and every
/// referenced vertex exists.
pub open spec fn valid_triangles(positions: Seq<i32>, indices: Seq<u32>, n: int) -> bool {
    &&& positions.len() % 3 == 0
    &&& indices.len() == 3 * n
    &&& forall|t: int, j: int|
        0 <= t < n && 0 <= j < 3 ==> #[trigger] tri_vertex(indices, t, j) < vertex_count(
            positions,
        )
}

/// Every coordinate of every referenced vertex is within `COORD_LIMIT`.
pub open spec fn coords_bounded(positions: Seq<i32>, indices: Seq<u32>, n: int) -> bool {
    forall|t: int, j: int, axis: int|
        0 <= t < n && 0 <= j < 3 && 0 <= axis < 3 ==> -COORD_LIMIT <= #[trigger] tri_coord(
            positions,
            indices,
            t,
            j,
            axis,
        ) <= COORD_LIMIT
}

pub open spec fn min3(a: int, b: int, c: int) -> int {
    vstd::math::min(vstd::math::min(a, b), c)
}

pub open spec fn max3(a: int, b: int, c: int) -> int {
    vstd::math::max(vstd::math::max(a, b), c)
}

/// Smallest coordinate of triangle `t` along `axis`.
pub open spec fn tri_min(positions: Seq<i32>, indices: Seq<u32>, t: int, axis: int) -> int {
    min3(
        tri_coord(positions, indices, t, 0, axis),
        tri_coord(positions, indices, t, 1, axis),
        tri_coord(positions, indices, t, 2, axis),
    )
}

/// Largest coordinate of triangle `t` along `axis`.
pub open spec fn tri_max(positions: Seq<i32>, indices: Seq<u32>, t: int, axis: int) -> int {
    max3(
        tri_coord(positions, indices, t, 0, axis),
        tri_coord(positions, indices, t, 1, axis),
        tri_coord(positions, indices, t, 2, axis),
    )
}

/// Componentwise minimum over all corners of the first `n` triangles (`n >= 1`).
pub open spec fn mesh_min(positions: Seq<i32>, indices: Seq<u32>, n: int, axis: int) -> int
    decreases n,
{
    if n <= 1 {
        tri_min(positions, indices, 0, axis)
    } else {
        vstd::math::min(
            mesh_min(positions, indices, n - 1, axis),
            tri_min(positions, indices, n - 1, axis),
        )
    }
}

/// Componentwise maximum over all corners of the first `n` triangles (`n >= 1`).
pub open spec fn mesh_max(positions: Seq<i32>, indices: Seq<u32>, n: int, axis: int) -> int
    decreases n,
{
    if n <= 1 {
        tri_max(positions, indices, 0, axis)
    } else {
        vstd::math::max(
            mesh_max(positions, indices, n - 1, axis),
            tri_max(positions, indices, n - 1, axis),
        )
    }
}

/// The mesh minimum bounds every corner from below and is attained by some corner.
pub proof fn lemma_mesh_min_attained(positions: Seq<i32>, indices: Seq<u32>, n: int, axis: int)
    requires
        n >= 1,
    ensures
        forall|t: int, j: int|
            0 <= t < n && 0 <= j < 3 ==> mesh_min(positions, indices, n, axis) <= #[trigger] tri_coord(
                positions,
                indices,
                t,
                j,
                axis,
            ),
        exists|t: int, j: int|
            0 <= t < n && 0 <= j < 3 && tri_coord(positions, indices, t, j, axis) == mesh_min(
                positions,
                indices,
                n,
                axis,
            ),
    decreases n,
{
    if n == 1 {
        let a = tri_coord(positions, indices, 0, 0, axis);
        let b = tri_coord(positions, indices, 0, 1, axis);
        let c = tri_coord(positions, indices, 0, 2, axis);
        assert(mesh_min(positions, indices, 1, axis) == min3(a, b, c));
        if min3(a, b, c) == a {
            assert(tri_coord(positions, indices, 0, 0, axis) == mesh_min(positions, indices, n, axis));
        } else if min3(a, b, c) == b {
            assert(tri_coord(positions, indices, 0, 1, axis) == mesh_min(positions, indices, n, axis));
        } else {
            assert(tri_coord(positions, indices, 0, 2, axis) == mesh_min(positions, indices, n, axis));
        }
    } else {
        lemma_mesh_min_attained(positions, indices, n - 1, axis);
        let m = mesh_min(positions, indices, n, axis);
        let last = tri_min(positions, indices, n - 1, axis);
        if last < mesh_min(positions, indices, n - 1, axis) {
            let a = tri_coord(positions, indices, n - 1, 0, axis);
            let b = tri_coord(positions, indices, n - 1, 1, axis);
            let c = tri_coord(positions, indices, n - 1, 2, axis);
            if last == a {
                assert(tri_coord(positions, indices, n - 1, 0, axis) == m);
            } else if last == b {
                assert(tri_coord(positions, indices, n - 1, 1, axis) == m);
            } else {
                assert(tri_coord(positions, indices, n - 1, 2, axis) == m);
            }
        } else {
            let (t0, j0) = choose|t: int, j: int|
                0 <= t < n - 1 && 0 <= j < 3 && tri_coord(positions, indices, t, j, axis)
                    == mesh_min(positions, indices, n - 1, axis);
            assert(tri_coord(positions, indices, t0, j0, axis) == m);
        }
    }
}

/// The mesh maximum bounds every corner from above and is attained by some corner.
pub proof fn lemma_mesh_max_attained(positions: Seq<i32>, indices: Seq<u32>, n: int, axis: int)
    requires
        n >= 1,
    ensures
        forall|t: int, j: int|
            0 <= t < n && 0 <= j < 3 ==> #[trigger] tri_coord(positions, indices, t, j, axis)
                <= mesh_max(positions, indices, n, axis),
        exists|t: int, j: int|
            0 <= t < n && 0 <= j < 3 && tri_coord(positions, indices, t, j, axis) == mesh_max(
                positions,
                indices,
                n,
                axis,
            ),
    decreases n,
{
    if n == 1 {
        let a = tri_coord(positions, indices, 0, 0, axis);
        let b = tri_coord(positions, indices, 0, 1, axis);
        let c = tri_coord(positions, indices, 0, 2, axis);
        assert(mesh_max(positions, indices, 1, axis) == max3(a, b, c));
        if max3(a, b, c) == a {
            assert(tri_coord(positions, indices, 0, 0, axis) == mesh_max(positions, indices, n, axis));
        } else if max3(a, b, c) == b {
            assert(tri_coord(positions, indices, 0, 1, axis) == mesh_max(positions, indices, n, axis));
        } else {
            assert(tri_coord(positions, indices, 0, 2, axis) == mesh_max(positions, indices, n, axis));
        }
    } else {
        lemma_mesh_max_attained(positions, indices, n - 1, axis);
        let m = mesh_max(positions, indices, n, axis);
        let last = tri_max(positions, indices, n - 1, axis);
        if last > mesh_max(positions, indices, n - 1, axis) {
            let a = tri_coord(positions, indices, n - 1, 0, axis);
            let b = tri_coord(positions, indices, n - 1, 1, axis);
            let c = tri_coord(positions, indices, n - 1, 2, axis);
            if last == a {
                assert(tri_coord(positions, indices, n - 1, 0, axis) == m);
            } else if last == b {
                assert(tri_coord(positions, indices, n - 1, 1, axis) == m);
            } else {
                assert(tri_coord(positions, indices, n - 1, 2, axis) == m);
            }
        } else {
            let (t0, j0) = choose|t: int, j: int|
                0 <= t < n - 1 && 0 <= j < 3 && tri_coord(positions, indices, t, j, axis)
                    == mesh_max(positions, indices, n - 1, axis);
            assert(tri_coord(positions, indices, t0, j0, axis) == m);
        }
    }
}

fn min_i32(a: i32, b: i32) -> (r: i32)
    ensures
        r as int == vstd::math::min(a as int, b as int),
{
    if a <= b {
        a
    } else {
        b
    }
}

fn max_i32(a: i32, b: i32) -> (r: i32)
    ensures
        r as int == vstd::math::max(a as int, b as int),
{
    if a >= b {
        a
    } else {
        b
    }
}

fn min3_i32(a: i32, b: i32, c: i32) -> (r: i32)
    ensures
        r as int == min3(a as int, b as int, c as int),
{
    min_i32(min_i32(a, b), c)
}

fn max3_i32(a: i32, b: i32, c: i32) -> (r: i32)
    ensures
        r as int == max3(a as int, b as int, c as int),
{
    max_i32(max_i32(a, b), c)
}

/// The axis-aligned extent of one triangle: its componentwise smallest and
/// largest corner coordinates.  This is the one place that reads triangle
/// geometry; the bounding-box reduction and both overlap passes build on it.
pub fn triangle_extent(positions: &Vec<i32>, indices: &Vec<u32>, t: usize) -> (r: ([i32; 3], [i32; 3]))
    requires
        positions@.len() % 3 == 0,
        3 * t + 3 <= indices@.len(),
        forall|j: int| 0 <= j < 3 ==> #[trigger] tri_vertex(indices@, t as int, j) < vertex_count(
            positions@,
        ),
    ensures
        forall|axis: int|
            0 <= axis < 3 ==> r.0@[axis] as int == tri_min(positions@, indices@, t as int, axis),
        forall|axis: int|
            0 <= axis < 3 ==> r.1@[axis] as int == tri_max(positions@, indices@, t as int, axis),
{
    let num_indices = indices.len();
    let num_coords = positions.len();
    proof {
        assert(3 * (num_coords as int / 3) == num_coords as int);
        assert(3 * t + 3 <= num_indices);
    }
    let i0 = indices[3 * t] as usize;
    let i1 = indices[3 * t + 1] as usize;
    let i2 = indices[3 * t + 2] as usize;
    assert(i0 as int == tri_vertex(indices@, t as int, 0));
    assert(i1 as int == tri_vertex(indices@, t as int, 1));
    assert(i2 as int == tri_vertex(indices@, t as int, 2));
    assert(3 * (i0 as int) + 3 <= num_coords as int);
    assert(3 * (i1 as int) + 3 <= num_coords as int);
    assert(3 * (i2 as int) + 3 <= num_coords as int);
    let x0 = positions[3 * i0];
    let y0 = positions[3 * i0 + 1];
    let z0 = positions[3 * i0 + 2];
    let x1 = positions[3 * i1];
    let y1 = positions[3 * i1 + 1];
    let z1 = positions[3 * i1 + 2];
    let x2 = positions[3 * i2];
    let y2 = positions[3 * i2 + 1];
    let z2 = positions[3 * i2 + 2];
    let mn = [min3_i32(x0, x1, x2), min3_i32(y0, y1, y2), min3_i32(z0, z1, z2)];
    let mx = [max3_i32(x0, x1, x2), max3_i32(y0, y1, y2), max3_i32(z0, z1, z2)];
    proof {
        assert forall|axis: int| 0 <= axis < 3 implies mn@[axis] as int == tri_min(
            positions@,
            indices@,
            t as int,
            axis,
        ) && mx@[axis] as int == tri_max(positions@, indices@, t as int, axis) by {
            assert(tri_coord(positions@, indices@, t as int, 0, axis) == positions@[3 * (i0 as int)
                + axis] as int);
            assert(tri_coord(positions@, indices@, t as int, 1, axis) == positions@[3 * (i1 as int)
                + axis] as int);
            assert(tri_coord(positions@, indices@, t as int, 2, axis) == positions@[3 * (i2 as int)
                + axis] as int);
        }
    }
    (mn, mx)
}

} // verus!
