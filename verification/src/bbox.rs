use vstd::prelude::*;

use crate::mesh::{
    coords_bounded, lemma_mesh_max_attained, lemma_mesh_min_attained, mesh_max, mesh_min,
    tri_coord, triangle_extent, valid_triangles, COORD_LIMIT,
};

verus! {

/// Axis-aligned bounding box of the referenced triangle vertices.
#[derive(Clone, Copy, PartialEq, Eq, Debug)]
pub struct BBox {
    pub min: [i32; 3],
    pub max: [i32; 3],
}

impl BBox {
    /// The box is ordered and all its faces lie within the coordinate bound.
    pub open spec fn bounded(self) -> bool {
        forall|axis: int|
            0 <= axis < 3 ==> -COORD_LIMIT as int <= #[trigger] (self.min@[axis] as int)
                <= self.max@[axis] as int <= COORD_LIMIT as int
    }

    /// Extent of the box along `axis`.
    pub open spec fn extent(self, axis: int) -> int {
        self.max@[axis] - self.min@[axis]
    }

    /// Every corner of the first `n` triangles lies inside the box componentwise.
    pub open spec fn contains_mesh(self, positions: Seq<i32>, indices: Seq<u32>, n: int) -> bool {
        forall|t: int, j: int, axis: int|
            0 <= t < n && 0 <= j < 3 && 0 <= axis < 3 ==> self.min@[axis] as int
                <= #[trigger] tri_coord(positions, indices, t, j, axis) <= self.max@[axis] as int
    }

    /// Some corner of the first `n` triangles touches the low face on `axis`.
    pub open spec fn touches_low(self, positions: Seq<i32>, indices: Seq<u32>, n: int, axis: int) -> bool {
        exists|t: int, j: int|
            0 <= t < n && 0 <= j < 3 && #[trigger] tri_coord(positions, indices, t, j, axis)
                == self.min@[axis] as int
    }

    /// Some corner of the first `n` triangles touches the high face on `axis`.
    pub open spec fn touches_high(self, positions: Seq<i32>, indices: Seq<u32>, n: int, axis: int) -> bool {
        exists|t: int, j: int|
            0 <= t < n && 0 <= j < 3 && #[trigger] tri_coord(positions, indices, t, j, axis)
                == self.max@[axis] as int
    }

    /// The box is tight: along every axis some corner touches the low face and
    /// some corner touches the high face.
    pub open spec fn tight_for_mesh(self, positions: Seq<i32>, indices: Seq<u32>, n: int) -> bool {
        forall|axis: int|
            0 <= axis < 3 ==> #[trigger] self.touches_low(positions, indices, n, axis)
                && self.touches_high(positions, indices, n, axis)
    }
}

/// Componentwise min/max reduction over every vertex referenced by a triangle.
///
/// The result is exactly the componentwise mesh minimum and maximum: it
/// contains every referenced vertex and touches it on all six faces, with no
/// slack added here.
pub fn calculate_bbox(positions: &Vec<i32>, indices: &Vec<u32>, triangle_count: usize) -> (r: BBox)
    requires
        1 <= triangle_count,
        valid_triangles(positions@, indices@, triangle_count as int),
        coords_bounded(positions@, indices@, triangle_count as int),
    ensures
        forall|axis: int|
            0 <= axis < 3 ==> r.min@[axis] as int == mesh_min(
                positions@,
                indices@,
                triangle_count as int,
                axis,
            ),
        forall|axis: int|
            0 <= axis < 3 ==> r.max@[axis] as int == mesh_max(
                positions@,
                indices@,
                triangle_count as int,
                axis,
            ),
        r.bounded(),
        r.contains_mesh(positions@, indices@, triangle_count as int),
        r.tight_for_mesh(positions@, indices@, triangle_count as int),
{
    let ghost n = triangle_count as int;
    let (first_min, first_max) = triangle_extent(positions, indices, 0);
    let mut mnx = first_min[0];
    let mut mny = first_min[1];
    let mut mnz = first_min[2];
    let mut mxx = first_max[0];
    let mut mxy = first_max[1];
    let mut mxz = first_max[2];
    let mut t: usize = 1;
    while t < triangle_count
        invariant
            1 <= t <= triangle_count,
            mnx as int == mesh_min(positions@, indices@, t as int, 0),
            mny as int == mesh_min(positions@, indices@, t as int, 1),
            mnz as int == mesh_min(positions@, indices@, t as int, 2),
            mxx as int == mesh_max(positions@, indices@, t as int, 0),
            mxy as int == mesh_max(positions@, indices@, t as int, 1),
            mxz as int == mesh_max(positions@, indices@, t as int, 2),
        decreases triangle_count - t,
    {
        let (tmn, tmx) = triangle_extent(positions, indices, t);
        mnx = min_pair(mnx, tmn[0]);
        mny = min_pair(mny, tmn[1]);
        mnz = min_pair(mnz, tmn[2]);
        mxx = max_pair(mxx, tmx[0]);
        mxy = max_pair(mxy, tmx[1]);
        mxz = max_pair(mxz, tmx[2]);
        t = t + 1;
    }
    let r = BBox { min: [mnx, mny, mnz], max: [mxx, mxy, mxz] };
    proof {
        assert forall|axis: int| 0 <= axis < 3 implies r.min@[axis] as int == mesh_min(
            positions@,
            indices@,
            n,
            axis,
        ) && r.max@[axis] as int == mesh_max(positions@, indices@, n, axis) by {
        }
        assert forall|axis: int|
            0 <= axis < 3 implies #[trigger] r.touches_low(positions@, indices@, n, axis)
            && r.touches_high(positions@, indices@, n, axis) by {
            lemma_mesh_min_attained(positions@, indices@, n, axis);
            lemma_mesh_max_attained(positions@, indices@, n, axis);
            let (tl, jl) = choose|t0: int, j0: int|
                0 <= t0 < n && 0 <= j0 < 3 && tri_coord(positions@, indices@, t0, j0, axis)
                    == mesh_min(positions@, indices@, n, axis);
            assert(tri_coord(positions@, indices@, tl, jl, axis) == r.min@[axis] as int);
            let (th, jh) = choose|t0: int, j0: int|
                0 <= t0 < n && 0 <= j0 < 3 && tri_coord(positions@, indices@, t0, j0, axis)
                    == mesh_max(positions@, indices@, n, axis);
            assert(tri_coord(positions@, indices@, th, jh, axis) == r.max@[axis] as int);
        }
        assert forall|t0: int, j0: int, axis: int|
            0 <= t0 < n && 0 <= j0 < 3 && 0 <= axis < 3 implies r.min@[axis] as int
            <= #[trigger] tri_coord(positions@, indices@, t0, j0, axis) <= r.max@[axis] as int by {
            lemma_mesh_min_attained(positions@, indices@, n, axis);
            lemma_mesh_max_attained(positions@, indices@, n, axis);
        }
        assert forall|axis: int|
            0 <= axis < 3 implies -COORD_LIMIT as int <= #[trigger] (r.min@[axis] as int)
            <= r.max@[axis] as int <= COORD_LIMIT as int by {
            lemma_mesh_min_attained(positions@, indices@, n, axis);
            lemma_mesh_max_attained(positions@, indices@, n, axis);
            let (tl, jl) = choose|t0: int, j0: int|
                0 <= t0 < n && 0 <= j0 < 3 && tri_coord(positions@, indices@, t0, j0, axis)
                    == mesh_min(positions@, indices@, n, axis);
            assert(-COORD_LIMIT <= tri_coord(positions@, indices@, tl, jl, axis) <= COORD_LIMIT);
            let (th, jh) = choose|t0: int, j0: int|
                0 <= t0 < n && 0 <= j0 < 3 && tri_coord(positions@, indices@, t0, j0, axis)
                    == mesh_max(positions@, indices@, n, axis);
            assert(-COORD_LIMIT <= tri_coord(positions@, indices@, th, jh, axis) <= COORD_LIMIT);
            assert(mesh_min(positions@, indices@, n, axis) <= tri_coord(
                positions@,
                indices@,
                th,
                jh,
                axis,
            ));
        }
    }
    r
}

fn min_pair(a: i32, b: i32) -> (r: i32)
    ensures
        r as int == vstd::math::min(a as int, b as int),
{
    if a <= b {
        a
    } else {
        b
    }
}

fn max_pair(a: i32, b: i32) -> (r: i32)
    ensures
        r as int == vstd::math::max(a as int, b as int),
{
    if a >= b {
        a
    } else {
        b
    }
}

} // verus!
