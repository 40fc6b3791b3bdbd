use vstd::prelude::*;

use crate::bbox::{calculate_bbox, BBox};
use crate::mesh::{
    coords_bounded, mesh_max, mesh_min, tri_coord, tri_min, tri_max, tri_vertex,
    triangle_extent, vertex_count, COORD_LIMIT,
};
use crate::pair_counter::{count_pairs, count_total_pairs};
use crate::pair_writer::{references_valid, write_pairs, Cell};
use crate::resolution::{calc_grid_resolution, spec_res_axis, MAX_EXTENT};
use crate::space::GridSpace;

verus! {

/// Size of one grid cell along an axis: the exact rational
/// `num / den` in mesh coordinate units, where `num` is the bounding-box
/// extent and `den` the cell count along that axis.
#[derive(Clone, Copy, PartialEq, Eq, Debug)]
pub struct CellSize {
    pub num: u64,
    pub den: u64,
}

/// Why a grid could not be built from the given mesh.
#[derive(Clone, Copy, PartialEq, Eq, Debug)]
pub enum BuildError {
    /// The mesh has no triangles.
    EmptyMesh,
    /// More triangles than a 32-bit triangle reference can name.
    TooManyTriangles,
    /// The coordinate array does not hold whole vertices.
    MalformedPositions,
    /// The index array does not hold exactly one triplet per triangle.
    MalformedIndices,
    /// An index triplet references a vertex that does not exist.
    IndexOutOfBounds,
    /// A referenced coordinate lies outside the supported range.
    CoordinateOutOfRange,
    /// The resolution heuristic asks for more cells than the 32-bit cell
    /// index of the layout can address.
    GridTooLarge,
    /// More overlap pairs than a 32-bit offset can address.
    TooManyReferences,
}

/// The finished, immutable spatial index.
pub struct Grid {
    pub bbox: BBox,
    pub resolution: [u32; 3],
    pub cell_size: [CellSize; 3],
    pub cells: Vec<Cell>,
    pub references: Vec<u32>,
}

impl Grid {
    /// The grid geometry that its cell layout is defined against.
    pub open spec fn space(self) -> GridSpace {
        GridSpace { bbox: self.bbox, resolution: self.resolution }
    }

    /// The record a consumer reads for a world point inside the box: the
    /// point's cell is `floor((p - min) / cell_size)` per axis, linearized
    /// x-fastest; the record's window in the references array holds the
    /// candidate triangles for that cell.
    pub fn cell_record_at(&self, point: [i32; 3]) -> (r: Cell)
        requires
            self.space().wf(),
            self.cells@.len() == self.space().ncells(),
            forall|a: int|
                0 <= a < 3 ==> self.bbox.min@[a] as int <= #[trigger] (point@[a] as int)
                    <= self.bbox.max@[a] as int,
        ensures
            r == self.cells@[self.space().lin(
                self.space().cell_of(point@[0] as int, 0),
                self.space().cell_of(point@[1] as int, 1),
                self.space().cell_of(point@[2] as int, 2),
            )],
    {
        let space = GridSpace { bbox: self.bbox, resolution: self.resolution };
        let cx = crate::space::cell_index(&space, point[0], 0);
        let cy = crate::space::cell_index(&space, point[1], 1);
        let cz = crate::space::cell_index(&space, point[2], 2);
        proof {
            crate::space::lemma_cell_of_bounds(space, point@[0] as int, 0);
            crate::space::lemma_cell_of_bounds(space, point@[1] as int, 1);
            crate::space::lemma_cell_of_bounds(space, point@[2] as int, 2);
        }
        let l = crate::space::cell_linear(&space, cx, cy, cz);
        self.cells[l]
    }

    /// Cell `l`'s window lists triangle `t`.
    pub open spec fn cell_lists(self, l: int, t: int) -> bool {
        exists|i: int|
            self.cells@[l].offset as int <= i < self.cells@[l].offset as int
                + self.cells@[l].count as int && (#[trigger] self.references@[i]) as int == t
    }
}

/// Bounding-box extent of the mesh along `axis`.
pub open spec fn mesh_extent(positions: Seq<i32>, indices: Seq<u32>, n: int, axis: int) -> int {
    mesh_max(positions, indices, n, axis) - mesh_min(positions, indices, n, axis)
}

/// The cell count the density heuristic chooses along `axis`.
pub open spec fn grid_res(positions: Seq<i32>, indices: Seq<u32>, n: int, axis: int) -> int {
    spec_res_axis(
        mesh_extent(positions, indices, n, 0),
        mesh_extent(positions, indices, n, 1),
        mesh_extent(positions, indices, n, 2),
        n,
        axis,
    )
}

/// Every index triplet references an existing vertex.
pub open spec fn indices_in_bounds(positions: Seq<i32>, indices: Seq<u32>, n: int) -> bool {
    forall|t: int, j: int|
        0 <= t < n && 0 <= j < 3 ==> #[trigger] tri_vertex(indices, t, j) < vertex_count(positions)
}

/// Every per-axis cell count fits the 32-bit resolution field.
pub open spec fn resolution_fits(positions: Seq<i32>, indices: Seq<u32>, n: int) -> bool {
    forall|axis: int| 0 <= axis < 3 ==> #[trigger] grid_res(positions, indices, n, axis) <= u32::MAX
}

/// The total cell count fits the 32-bit cell index of the layout.
pub open spec fn cell_total_fits(positions: Seq<i32>, indices: Seq<u32>, n: int) -> bool {
    grid_res(positions, indices, n, 0) * grid_res(positions, indices, n, 1) * grid_res(
        positions,
        indices,
        n,
        2,
    ) <= u32::MAX
}

/// `s` is the grid geometry the mesh determines: the tight bounding box and
/// the heuristic resolution.
pub open spec fn space_matches(s: GridSpace, positions: Seq<i32>, indices: Seq<u32>, n: int) -> bool {
    &&& forall|a: int|
        0 <= a < 3 ==> #[trigger] s.bbox.min@[a] as int == mesh_min(positions, indices, n, a)
    &&& forall|a: int|
        0 <= a < 3 ==> #[trigger] s.bbox.max@[a] as int == mesh_max(positions, indices, n, a)
    &&& forall|a: int|
        0 <= a < 3 ==> #[trigger] s.resolution@[a] as int == grid_res(positions, indices, n, a)
}

/// The number of overlap pairs fits the 32-bit offsets of the layout.
pub open spec fn references_fit(positions: Seq<i32>, indices: Seq<u32>, n: int) -> bool {
    forall|s: GridSpace|
        #[trigger] space_matches(s, positions, indices, n) ==> s.total_pairs(positions, indices, n)
            <= u32::MAX
}

/// A grid is the correct index for the mesh: tight bounding box, heuristic
/// resolution, exact cell sizes, exclusive prefix-sum offsets with exact
/// per-cell counts, and a references array that lists, for every cell,
/// exactly the triangles whose clamped bounding-box range overlaps it.
pub open spec fn grid_valid(g: Grid, positions: Seq<i32>, indices: Seq<u32>, n: int) -> bool {
    &&& space_matches(g.space(), positions, indices, n)
    &&& g.space().wf()
    &&& forall|a: int|
        0 <= a < 3 ==> #[trigger] g.cell_size@[a].num as int == mesh_extent(positions, indices, n, a)
            && g.cell_size@[a].den as int == grid_res(positions, indices, n, a)
    &&& g.cells@.len() == g.space().ncells()
    &&& forall|l: int|
        0 <= l < g.space().ncells() ==> #[trigger] g.cells@[l].offset as int
            == g.space().cell_offset(positions, indices, n, l) && g.cells@[l].count as int
            == g.space().cell_count(positions, indices, l, n)
    &&& g.references@.len() == g.space().cell_offset(positions, indices, n, g.space().ncells())
    &&& references_valid(g.space(), positions, indices, n, g.cells@, g.references@)
}

/// Builds the uniform grid over one immutable mesh: bounding-box reduction,
/// resolution choice, per-cell counting, prefix sum and compaction, run as
/// strictly ordered phases over the borrowed input.
pub struct GridBuilder {
    pub positions: Vec<i32>,
    pub indices: Vec<u32>,
    pub triangle_count: usize,
}

impl GridBuilder {
    /// Takes the mesh the grid will index: a flat coordinate array (three
    /// values per vertex), a flat index array (three indices per triangle),
    /// and the triangle count.
    pub fn new(positions: Vec<i32>, indices: Vec<u32>, triangle_count: usize) -> (r: GridBuilder)
        ensures
            r.positions@ == positions@,
            r.indices@ == indices@,
            r.triangle_count == triangle_count,
    {
        GridBuilder { positions, indices, triangle_count }
    }

    /// Runs the full pipeline and returns the finished grid, or says exactly
    /// why the input was rejected.
    #[verifier::rlimit(60)]
    pub fn build(&self) -> (r: Result<Grid, BuildError>)
        ensures
            ({
                let pp = self.positions@;
                let ii = self.indices@;
                let n = self.triangle_count as int;
                let c1 = n >= 1;
                let c2 = n <= u32::MAX;
                let c3 = pp.len() % 3 == 0;
                let c4 = ii.len() == 3 * n;
                let c5 = indices_in_bounds(pp, ii, n);
                let c6 = coords_bounded(pp, ii, n);
                let c7 = resolution_fits(pp, ii, n) && cell_total_fits(pp, ii, n);
                let c8 = references_fit(pp, ii, n);
                &&& (r == Result::<Grid, BuildError>::Err(BuildError::EmptyMesh) <==> !c1)
                &&& (r == Result::<Grid, BuildError>::Err(BuildError::TooManyTriangles) <==> c1
                    && !c2)
                &&& (r == Result::<Grid, BuildError>::Err(BuildError::MalformedPositions) <==> c1
                    && c2 && !c3)
                &&& (r == Result::<Grid, BuildError>::Err(BuildError::MalformedIndices) <==> c1
                    && c2 && c3 && !c4)
                &&& (r == Result::<Grid, BuildError>::Err(BuildError::IndexOutOfBounds) <==> c1
                    && c2 && c3 && c4 && !c5)
                &&& (r == Result::<Grid, BuildError>::Err(BuildError::CoordinateOutOfRange) <==> c1
                    && c2 && c3 && c4 && c5 && !c6)
                &&& (r == Result::<Grid, BuildError>::Err(BuildError::GridTooLarge) <==> c1 && c2
                    && c3 && c4 && c5 && c6 && !c7)
                &&& (r == Result::<Grid, BuildError>::Err(BuildError::TooManyReferences) <==> c1
                    && c2 && c3 && c4 && c5 && c6 && c7 && !c8)
                &&& (r is Ok <==> c1 && c2 && c3 && c4 && c5 && c6 && c7 && c8)
                &&& (r matches Ok(g) ==> grid_valid(g, pp, ii, n))
                &&& (r matches Ok(g) ==> forall|a: int|
                    0 <= a < 3 ==> #[trigger] g.resolution@[a] >= 1)
                &&& (r matches Ok(g) ==> forall|l: int|
                    0 <= l < g.cells@.len() - 1 ==> #[trigger] g.cells@[l + 1].offset as int
                        == g.cells@[l].offset as int + g.cells@[l].count as int)
                &&& (r matches Ok(g) ==> g.cells@.len() >= 1 && g.cells@.last().offset as int
                    + g.cells@.last().count as int == g.references@.len())
            }),
    {
        let ghost pp = self.positions@;
        let ghost ii = self.indices@;
        let n = self.triangle_count;
        let ghost ni = n as int;
        if n == 0 {
            return Err(BuildError::EmptyMesh);
        }
        if n > u32::MAX as usize {
            return Err(BuildError::TooManyTriangles);
        }
        if self.positions.len() % 3 != 0 {
            return Err(BuildError::MalformedPositions);
        }
        if self.indices.len() % 3 != 0 || self.indices.len() / 3 != n {
            proof {
                assert(ii.len() != 3 * ni);
            }
            return Err(BuildError::MalformedIndices);
        }
        proof {
            assert(3 * (ii.len() as int / 3) == ii.len() as int);
            assert(ii.len() == 3 * ni);
        }
        let vcount = self.positions.len() / 3;
        let mut t: usize = 0;
        while t < n
            invariant
                t <= n,
                forall|t2: int, j: int|
                    0 <= t2 < t && 0 <= j < 3 ==> #[trigger] tri_vertex(ii, t2, j) < vertex_count(
                        pp,
                    ),
            decreases n - t,
        {
            let i0 = self.indices[3 * t];
            let i1 = self.indices[3 * t + 1];
            let i2 = self.indices[3 * t + 2];
            if i0 as usize >= vcount || i1 as usize >= vcount || i2 as usize >= vcount {
                proof {
                    if i0 as usize >= vcount {
                        assert(tri_vertex(ii, t as int, 0) >= vertex_count(pp));
                    } else if i1 as usize >= vcount {
                        assert(tri_vertex(ii, t as int, 1) >= vertex_count(pp));
                    } else {
                        assert(tri_vertex(ii, t as int, 2) >= vertex_count(pp));
                    }
                }
                return Err(BuildError::IndexOutOfBounds);
            }
            t = t + 1;
        }
        let mut t2: usize = 0;
        while t2 < n
            invariant
                t2 <= n,
                forall|t3: int, j: int, a: int|
                    0 <= t3 < t2 && 0 <= j < 3 && 0 <= a < 3 ==> -COORD_LIMIT <= #[trigger] tri_coord(
                        pp,
                        ii,
                        t3,
                        j,
                        a,
                    ) <= COORD_LIMIT,
            decreases n - t2,
        {
            let (tmn, tmx) = triangle_extent(&self.positions, &self.indices, t2);
            let mut a: usize = 0;
            while a < 3
                invariant
                    a <= 3,
                    forall|a2: int|
                        0 <= a2 < a ==> -COORD_LIMIT <= tri_min(pp, ii, t2 as int, a2)
                            && tri_max(pp, ii, t2 as int, a2) <= COORD_LIMIT,
                decreases 3 - a,
            {
                if tmn[a] < -COORD_LIMIT || tmx[a] > COORD_LIMIT {
                    proof {
                        let ai = a as int;
                        let ti = t2 as int;
                        let x0 = tri_coord(pp, ii, ti, 0, ai);
                        let x1 = tri_coord(pp, ii, ti, 1, ai);
                        let x2 = tri_coord(pp, ii, ti, 2, ai);
                        if tmn@[ai] < -COORD_LIMIT {
                            if tri_min(pp, ii, ti, ai) == x0 {
                                assert(!(-COORD_LIMIT <= tri_coord(pp, ii, ti, 0, ai)
                                    <= COORD_LIMIT));
                            } else if tri_min(pp, ii, ti, ai) == x1 {
                                assert(!(-COORD_LIMIT <= tri_coord(pp, ii, ti, 1, ai)
                                    <= COORD_LIMIT));
                            } else {
                                assert(!(-COORD_LIMIT <= tri_coord(pp, ii, ti, 2, ai)
                                    <= COORD_LIMIT));
                            }
                        } else {
                            if tri_max(pp, ii, ti, ai) == x0 {
                                assert(!(-COORD_LIMIT <= tri_coord(pp, ii, ti, 0, ai)
                                    <= COORD_LIMIT));
                            } else if tri_max(pp, ii, ti, ai) == x1 {
                                assert(!(-COORD_LIMIT <= tri_coord(pp, ii, ti, 1, ai)
                                    <= COORD_LIMIT));
                            } else {
                                assert(!(-COORD_LIMIT <= tri_coord(pp, ii, ti, 2, ai)
                                    <= COORD_LIMIT));
                            }
                        }
                        assert(!coords_bounded(pp, ii, ni));
                    }
                    return Err(BuildError::CoordinateOutOfRange);
                }
                a = a + 1;
            }
            proof {
                assert forall|j: int, a2: int| 0 <= j < 3 && 0 <= a2 < 3 implies -COORD_LIMIT
                    <= #[trigger] tri_coord(pp, ii, t2 as int, j, a2) <= COORD_LIMIT by {
                    assert(tri_min(pp, ii, t2 as int, a2) <= tri_coord(pp, ii, t2 as int, j, a2)
                        <= tri_max(pp, ii, t2 as int, a2));
                }
            }
            t2 = t2 + 1;
        }
        proof {
            assert(coords_bounded(pp, ii, ni));
        }
        // phase one: the bounding box
        let bbox = calculate_bbox(&self.positions, &self.indices, n);
        let e0 = (bbox.max[0] as i64 - bbox.min[0] as i64) as u64;
        let e1 = (bbox.max[1] as i64 - bbox.min[1] as i64) as u64;
        let e2 = (bbox.max[2] as i64 - bbox.min[2] as i64) as u64;
        proof {
            assert(e0 as int == mesh_extent(pp, ii, ni, 0));
            assert(e1 as int == mesh_extent(pp, ii, ni, 1));
            assert(e2 as int == mesh_extent(pp, ii, ni, 2));
            assert(e0 <= MAX_EXTENT && e1 <= MAX_EXTENT && e2 <= MAX_EXTENT);
        }
        // phase two: the resolution and cell-size decision
        let extents = [e0, e1, e2];
        proof {
            assert(extents@[0] == e0 && extents@[1] == e1 && extents@[2] == e2);
        }
        let resolution = match calc_grid_resolution(extents, n as u64) {
            Some(resolution) => resolution,
            None => {
                proof {
                    assert(exists|axis: int|
                        0 <= axis < 3 && spec_res_axis(e0 as int, e1 as int, e2 as int, ni, axis)
                            > u32::MAX);
                    let ax = choose|axis: int|
                        0 <= axis < 3 && spec_res_axis(e0 as int, e1 as int, e2 as int, ni, axis)
                            > u32::MAX;
                    assert(grid_res(pp, ii, ni, ax) > u32::MAX);
                    assert(!resolution_fits(pp, ii, ni));
                }
                return Err(BuildError::GridTooLarge);
            },
        };
        proof {
            assert((resolution@[0] as int) * (resolution@[1] as int)
                <= 0x1_0000_0000_0000_0000int) by (nonlinear_arith)
                requires
                    resolution@[0] <= 0xFFFF_FFFFu32,
                    resolution@[1] <= 0xFFFF_FFFFu32,
            ;
            assert((resolution@[0] as int) * (resolution@[1] as int) * (resolution@[2] as int)
                <= 0x1_0000_0000_0000_0000_0000_0000int) by (nonlinear_arith)
                requires
                    resolution@[0] <= 0xFFFF_FFFFu32,
                    resolution@[1] <= 0xFFFF_FFFFu32,
                    resolution@[2] <= 0xFFFF_FFFFu32,
            ;
        }
        let nc128 = (resolution[0] as u128) * (resolution[1] as u128) * (resolution[2] as u128);
        if nc128 > u32::MAX as u128 {
            proof {
                assert(!cell_total_fits(pp, ii, ni));
            }
            return Err(BuildError::GridTooLarge);
        }
        let space = GridSpace { bbox, resolution };
        proof {
            assert(1 <= (resolution@[0] as int) * (resolution@[1] as int) * (resolution@[2]
                as int)) by (nonlinear_arith)
                requires
                    1 <= resolution@[0],
                    1 <= resolution@[1],
                    1 <= resolution@[2],
            ;
            assert(space.wf());
            assert(space_matches(space, pp, ii, ni));
            assert(space.bbox.contains_mesh(pp, ii, ni));
        }
        // the references array must stay addressable by 32-bit offsets
        let total = count_total_pairs(&self.positions, &self.indices, n, &space);
        if total > 0xFFFF_FFFFu64 {
            proof {
                assert(!references_fit(pp, ii, ni));
            }
            return Err(BuildError::TooManyReferences);
        }
        // phase three: per-cell overlap counting
        let counts = count_pairs(&self.positions, &self.indices, n, &space);
        // phase four: prefix sum and scatter
        let (cells, references) = match write_pairs(
            &self.positions,
            &self.indices,
            n,
            &space,
            &counts,
        ) {
            Some(out) => out,
            None => {
                // cannot happen: the per-triangle total was just checked, and
                // the per-cell sum the prefix pass takes is the same number
                proof {
                    crate::space::lemma_totals_agree(space, pp, ii, ni);
                    assert(false);
                }
                return Err(BuildError::TooManyReferences);
            },
        };
        let cell_size = [
            CellSize { num: e0, den: resolution[0] as u64 },
            CellSize { num: e1, den: resolution[1] as u64 },
            CellSize { num: e2, den: resolution[2] as u64 },
        ];
        let grid = Grid { bbox, resolution, cell_size, cells, references };
        proof {
            assert(grid.space() == space);
            assert forall|a: int| 0 <= a < 3 implies #[trigger] grid.cell_size@[a].num as int
                == mesh_extent(pp, ii, ni, a) && grid.cell_size@[a].den as int == grid_res(
                pp,
                ii,
                ni,
                a,
            ) by {
                if a == 0 {
                } else if a == 1 {
                } else {
                }
            }
            assert(references_fit(pp, ii, ni)) by {
                assert forall|s: GridSpace|
                    #[trigger] space_matches(s, pp, ii, ni) implies s.total_pairs(pp, ii, ni)
                    <= u32::MAX && s.cell_offset(pp, ii, ni, s.ncells()) <= u32::MAX by {
                    assert(s.bbox.min =~= space.bbox.min);
                    assert(s.bbox.max =~= space.bbox.max);
                    assert(s.resolution =~= space.resolution);
                    assert(s == space);
                }
            }
            assert forall|l: int| 0 <= l < grid.space().ncells() implies #[trigger] grid.cells@[l].offset as int == grid.space().cell_offset(pp, ii, ni, l) && grid.cells@[l].count
                as int == grid.space().cell_count(pp, ii, l, ni) by {
                assert(grid.cells@[l].offset as int == space.cell_offset(pp, ii, ni, l));
                assert(grid.cells@[l].count == counts@[l]);
            }
            assert(space_matches(grid.space(), pp, ii, ni));
            assert(grid.space().wf());
            assert(grid.cells@.len() == grid.space().ncells());
            assert(grid.references@.len() == grid.space().cell_offset(
                pp,
                ii,
                ni,
                grid.space().ncells(),
            ));
            assert(references_valid(grid.space(), pp, ii, ni, grid.cells@, grid.references@));
            assert(grid_valid(grid, pp, ii, ni));
            assert forall|l: int| 0 <= l < grid.cells@.len() - 1 implies #[trigger] grid.cells@[l
                + 1].offset as int == grid.cells@[l].offset as int + grid.cells@[l].count
                as int by {
                assert(grid.cells@[l + 1].offset as int == space.cell_offset(pp, ii, ni, l + 1));
            }
            assert(grid.cells@.len() >= 1);
            assert(grid.cells@.last().offset as int + grid.cells@.last().count as int
                == grid.references@.len()) by {
                let last = grid.cells@.len() - 1;
                assert(grid.cells@[last].offset as int == space.cell_offset(pp, ii, ni, last));
            }
        }
        Ok(grid)
    }
}

/// Building twice from one immutable mesh gives the same bounding box,
/// resolution, cell sizes and cell records; within each cell the two
/// reference arrays list exactly the same triangles, so they can differ
/// only in the order inside a cell's window.
pub proof fn lemma_build_deterministic(
    positions: Seq<i32>,
    indices: Seq<u32>,
    n: int,
    g1: Grid,
    g2: Grid,
)
    requires
        grid_valid(g1, positions, indices, n),
        grid_valid(g2, positions, indices, n),
        1 <= n,
    ensures
        g1.bbox.min@ == g2.bbox.min@,
        g1.bbox.max@ == g2.bbox.max@,
        g1.resolution@ == g2.resolution@,
        g1.cell_size@ == g2.cell_size@,
        g1.cells@ == g2.cells@,
        g1.references@.len() == g2.references@.len(),
        forall|l: int, t: int|
            0 <= l < g1.cells@.len() && 0 <= t < n ==> (#[trigger] g1.cell_lists(l, t)
                <==> #[trigger] g2.cell_lists(l, t)),
{
    let s1 = g1.space();
    let s2 = g2.space();
    assert(g1.bbox.min =~= g2.bbox.min);
    assert(g1.bbox.max =~= g2.bbox.max);
    assert(g1.resolution =~= g2.resolution);
    assert(g1.bbox.min@ =~= g2.bbox.min@);
    assert(g1.bbox.max@ =~= g2.bbox.max@);
    assert(g1.resolution@ =~= g2.resolution@);
    assert(s1 == s2);
    assert forall|a: int| 0 <= a < 3 implies g1.cell_size@[a] == g2.cell_size@[a] by {
        assert(g1.cell_size@[a].num as int == mesh_extent(positions, indices, n, a));
        assert(g2.cell_size@[a].num as int == mesh_extent(positions, indices, n, a));
    }
    assert(g1.cell_size =~= g2.cell_size);
    assert(g1.cell_size@ =~= g2.cell_size@);
    assert forall|l: int| 0 <= l < g1.cells@.len() implies g1.cells@[l] == g2.cells@[l] by {
        assert(g1.cells@[l].offset as int == s1.cell_offset(positions, indices, n, l));
        assert(g2.cells@[l].offset as int == s2.cell_offset(positions, indices, n, l));
    }
    assert(g1.cells@ =~= g2.cells@);
    assert forall|l: int, t: int|
        0 <= l < g1.cells@.len() && 0 <= t < n implies (#[trigger] g1.cell_lists(l, t)
        <==> #[trigger] g2.cell_lists(l, t)) by {
        crate::space::lemma_window_in_array(s1, positions, indices, n, l);
        if g1.cell_lists(l, t) {
            let iw = choose|i: int|
                g1.cells@[l].offset as int <= i < g1.cells@[l].offset as int + g1.cells@[l].count
                    as int && (#[trigger] g1.references@[i]) as int == t;
            assert(0 <= iw < g1.references@.len());
            assert(s1.overlaps_lin(positions, indices, t, l));
            assert(g2.cell_lists(l, t));
        }
        if g2.cell_lists(l, t) {
            let iw = choose|i: int|
                g2.cells@[l].offset as int <= i < g2.cells@[l].offset as int + g2.cells@[l].count
                    as int && (#[trigger] g2.references@[i]) as int == t;
            assert(0 <= iw < g2.references@.len());
            assert(s2.overlaps_lin(positions, indices, t, l));
            assert(g1.cell_lists(l, t));
        }
    }
}

/// Number of entries equal to `t` in `refs[a..b)`.
pub open spec fn occurrences(refs: Seq<u32>, t: int, a: int, b: int) -> int
    decreases b - a,
{
    if b <= a {
        0
    } else {
        occurrences(refs, t, a, b - 1) + if refs[b - 1] as int == t {
            1int
        } else {
            0int
        }
    }
}

/// Number of cells with linear index below `l` whose range box contains
/// triangle `t`.
pub open spec fn overlapped_cells(
    ss: GridSpace,
    positions: Seq<i32>,
    indices: Seq<u32>,
    t: int,
    l: int,
) -> int
    decreases l,
{
    if l <= 0 {
        0
    } else {
        overlapped_cells(ss, positions, indices, t, l - 1) + if ss.overlaps_lin(
            positions,
            indices,
            t,
            l - 1,
        ) {
            1int
        } else {
            0int
        }
    }
}

proof fn lemma_occurrences_split(refs: Seq<u32>, t: int, a: int, b: int, c: int)
    requires
        a <= b <= c,
    ensures
        occurrences(refs, t, a, c) == occurrences(refs, t, a, b) + occurrences(refs, t, b, c),
    decreases c - b,
{
    if b < c {
        lemma_occurrences_split(refs, t, a, b, c - 1);
    }
}

proof fn lemma_occurrences_none(refs: Seq<u32>, t: int, a: int, b: int)
    requires
        forall|k: int| a <= k < b ==> (#[trigger] refs[k]) as int != t,
    ensures
        occurrences(refs, t, a, b) == 0,
    decreases b - a,
{
    if a < b {
        lemma_occurrences_none(refs, t, a, b - 1);
    }
}

/// In a range of pairwise distinct entries, a value occurs once if it is
/// present and otherwise not at all.
proof fn lemma_occurrences_distinct(refs: Seq<u32>, t: int, a: int, b: int)
    requires
        a <= b,
        forall|i: int, j: int|
            a <= i < b && a <= j < b && i != j ==> #[trigger] refs[i] != #[trigger] refs[j],
    ensures
        occurrences(refs, t, a, b) == (if exists|k: int|
            a <= k < b && (#[trigger] refs[k]) as int == t {
            1int
        } else {
            0int
        }),
    decreases b - a,
{
    if a < b {
        lemma_occurrences_distinct(refs, t, a, b - 1);
        if refs[b - 1] as int == t {
            assert forall|k: int| a <= k < b - 1 implies (#[trigger] refs[k]) as int != t by {
                assert(refs[k] != refs[b - 1]);
            }
            lemma_occurrences_none(refs, t, a, b - 1);
            assert(exists|k: int| a <= k < b && (#[trigger] refs[k]) as int == t);
        } else {
            if exists|k: int| a <= k < b && (#[trigger] refs[k]) as int == t {
                let k = choose|k: int| a <= k < b && (#[trigger] refs[k]) as int == t;
                assert(k < b - 1);
                assert(exists|k2: int| a <= k2 < b - 1 && (#[trigger] refs[k2]) as int == t);
            }
        }
    }
}

proof fn lemma_occurrences_prefix(
    positions: Seq<i32>,
    indices: Seq<u32>,
    n: int,
    g: Grid,
    t: int,
    l: int,
)
    requires
        grid_valid(g, positions, indices, n),
        0 <= t < n,
        0 <= l <= g.space().ncells(),
    ensures
        occurrences(g.references@, t, 0, g.space().cell_offset(positions, indices, n, l))
            == overlapped_cells(g.space(), positions, indices, t, l),
    decreases l,
{
    let ss = g.space();
    let refs = g.references@;
    if l > 0 {
        lemma_occurrences_prefix(positions, indices, n, g, t, l - 1);
        let a = ss.cell_offset(positions, indices, n, l - 1);
        let b = ss.cell_offset(positions, indices, n, l);
        crate::space::lemma_window_in_array(ss, positions, indices, n, l - 1);
        assert(b == a + ss.cell_count(positions, indices, l - 1, n));
        assert(g.cells@[l - 1].offset as int == a);
        assert(g.cells@[l - 1].count as int == b - a);
        lemma_occurrences_split(refs, t, 0, a, b);
        assert forall|i2: int, j2: int|
            a <= i2 < b && a <= j2 < b && i2 != j2 implies #[trigger] refs[i2] != #[trigger] refs[j2] by {
            assert(g.cells@[l - 1].offset as int <= i2 < g.cells@[l - 1].offset as int + g.cells@[
                l - 1].count as int);
        }
        lemma_occurrences_distinct(refs, t, a, b);
        if ss.overlaps_lin(positions, indices, t, l - 1) {
            let iw = choose|i2: int|
                g.cells@[l - 1].offset as int <= i2 < g.cells@[l - 1].offset as int + g.cells@[l
                    - 1].count as int && (#[trigger] refs[i2]) as int == t;
            assert(a <= iw < b && refs[iw] as int == t);
            assert(occurrences(refs, t, a, b) == 1);
        } else {
            assert forall|k: int| a <= k < b implies (#[trigger] refs[k]) as int != t by {
                if refs[k] as int == t {
                    assert(g.cells@[l - 1].offset as int <= k < g.cells@[l - 1].offset as int
                        + g.cells@[l - 1].count as int);
                    assert(ss.overlaps_lin(positions, indices, refs[k] as int, l - 1));
                }
            }
            lemma_occurrences_none(refs, t, a, b);
        }
    }
}

/// Exactness of the compacted layout: across the whole references array, a
/// triangle occurs exactly as many times as there are cells that its
/// clamped bounding-box range overlaps — once per overlapped cell, with no
/// duplicate within a cell and no omission.
pub proof fn lemma_reference_exactness(
    positions: Seq<i32>,
    indices: Seq<u32>,
    n: int,
    g: Grid,
    t: int,
)
    requires
        grid_valid(g, positions, indices, n),
        0 <= t < n,
    ensures
        occurrences(g.references@, t, 0, g.references@.len() as int) == overlapped_cells(
            g.space(),
            positions,
            indices,
            t,
            g.space().ncells(),
        ),
        occurrences(g.references@, t, 0, g.references@.len() as int) == g.space().tri_cell_count(
            positions,
            indices,
            t,
        ),
{
    lemma_occurrences_prefix(positions, indices, n, g, t, g.space().ncells());
    lemma_overlapped_cells_in(g.space(), positions, indices, t, g.space().ncells());
    crate::space::lemma_box_count(g.space(), positions, indices, t);
}

proof fn lemma_overlapped_cells_in(
    ss: GridSpace,
    positions: Seq<i32>,
    indices: Seq<u32>,
    t: int,
    l: int,
)
    ensures
        overlapped_cells(ss, positions, indices, t, l) == crate::space::overlapped_in(
            ss,
            positions,
            indices,
            t,
            0,
            l,
        ),
    decreases l,
{
    if l > 0 {
        lemma_overlapped_cells_in(ss, positions, indices, t, l - 1);
    }
}

} // verus!
