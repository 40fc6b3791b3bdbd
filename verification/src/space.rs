use vstd::prelude::*;

use crate::bbox::BBox;
use crate::mesh::{tri_coord, tri_max, tri_min, tri_vertex, triangle_extent, vertex_count};
use vstd::arithmetic::div_mod::{
    lemma_div_denominator, lemma_div_is_ordered, lemma_div_pos_is_pos,
    lemma_fundamental_div_mod, lemma_fundamental_div_mod_converse, lemma_mod_bound,
};

verus! {

/// The geometry of a grid: its bounding box and per-axis cell counts.
///
/// Both overlap passes and the final grid layout are defined against this
/// value alone, so counting and scattering use one and the same predicate.
#[derive(Clone, Copy, PartialEq, Eq, Debug)]
pub struct GridSpace {
    pub bbox: BBox,
    pub resolution: [u32; 3],
}

impl GridSpace {
    pub open spec fn nx(self) -> int {
        self.resolution@[0] as int
    }

    pub open spec fn ny(self) -> int {
        self.resolution@[1] as int
    }

    pub open spec fn nz(self) -> int {
        self.resolution@[2] as int
    }

    /// Total number of cells.
    pub open spec fn ncells(self) -> int {
        self.nx() * self.ny() * self.nz()
    }

    /// Well-formed: an ordered, bounded box, at least one cell per axis, and
    /// a total cell count that fits the 32-bit cell index of the layout.
    pub open spec fn wf(self) -> bool {
        &&& self.bbox.bounded()
        &&& forall|a: int| 0 <= a < 3 ==> #[trigger] self.resolution@[a] >= 1
        &&& self.ncells() <= u32::MAX
    }

    /// Linear index of cell (cx, cy, cz): x varies fastest, then y, then z.
    pub open spec fn lin(self, cx: int, cy: int, cz: int) -> int {
        cx + self.nx() * (cy + self.ny() * cz)
    }

    pub open spec fn valid_cell(self, cx: int, cy: int, cz: int) -> bool {
        0 <= cx < self.nx() && 0 <= cy < self.ny() && 0 <= cz < self.nz()
    }

    pub open spec fn cell_x(self, l: int) -> int {
        l % self.nx()
    }

    pub open spec fn cell_y(self, l: int) -> int {
        (l / self.nx()) % self.ny()
    }

    pub open spec fn cell_z(self, l: int) -> int {
        l / (self.nx() * self.ny())
    }

    /// Index of the cell containing coordinate `p` along `axis`: the floor of
    /// `(p - min) / cell_size` clamped into the valid range.  The cell size
    /// along an axis is `extent / resolution`, so the floor is computed as
    /// `(p - min) * resolution / extent`; a degenerate axis has a single cell.
    pub open spec fn cell_of(self, p: int, axis: int) -> int {
        let bmin = self.bbox.min@[axis] as int;
        let ext = self.bbox.extent(axis);
        let res = self.resolution@[axis] as int;
        if ext == 0 {
            0
        } else {
            let raw = (p - bmin) * res / ext;
            if raw < 0 {
                0
            } else if raw > res - 1 {
                res - 1
            } else {
                raw
            }
        }
    }

    /// First cell of triangle `t`'s clamped index range along `axis`.
    pub open spec fn tri_lo(self, positions: Seq<i32>, indices: Seq<u32>, t: int, axis: int) -> int {
        self.cell_of(tri_min(positions, indices, t, axis), axis)
    }

    /// Last cell of triangle `t`'s clamped index range along `axis`.
    pub open spec fn tri_hi(self, positions: Seq<i32>, indices: Seq<u32>, t: int, axis: int) -> int {
        self.cell_of(tri_max(positions, indices, t, axis), axis)
    }

    /// The conservative overlap predicate: triangle `t` overlaps the cell
    /// (cx, cy, cz) exactly when the cell lies inside the triangle's clamped
    /// bounding-box index range.
    pub open spec fn overlaps(
        self,
        positions: Seq<i32>,
        indices: Seq<u32>,
        t: int,
        cx: int,
        cy: int,
        cz: int,
    ) -> bool {
        &&& self.tri_lo(positions, indices, t, 0) <= cx <= self.tri_hi(positions, indices, t, 0)
        &&& self.tri_lo(positions, indices, t, 1) <= cy <= self.tri_hi(positions, indices, t, 1)
        &&& self.tri_lo(positions, indices, t, 2) <= cz <= self.tri_hi(positions, indices, t, 2)
    }

    /// Overlap against the cell with linear index `l`.
    pub open spec fn overlaps_lin(self, positions: Seq<i32>, indices: Seq<u32>, t: int, l: int) -> bool {
        self.overlaps(positions, indices, t, self.cell_x(l), self.cell_y(l), self.cell_z(l))
    }

    /// Number of cells in triangle `t`'s clamped index-range box.
    pub open spec fn tri_cell_count(self, positions: Seq<i32>, indices: Seq<u32>, t: int) -> int {
        (self.tri_hi(positions, indices, t, 0) - self.tri_lo(positions, indices, t, 0) + 1) * (
        self.tri_hi(positions, indices, t, 1) - self.tri_lo(positions, indices, t, 1) + 1) * (
        self.tri_hi(positions, indices, t, 2) - self.tri_lo(positions, indices, t, 2) + 1)
    }

    /// Total number of (triangle, cell) overlap pairs over the first `n`
    /// triangles.
    pub open spec fn total_pairs(self, positions: Seq<i32>, indices: Seq<u32>, n: int) -> int
        decreases n,
    {
        if n <= 0 {
            0
        } else {
            self.total_pairs(positions, indices, n - 1) + self.tri_cell_count(
                positions,
                indices,
                n - 1,
            )
        }
    }

    /// Number of triangles among the first `k` that overlap cell `l`.
    pub open spec fn cell_count(self, positions: Seq<i32>, indices: Seq<u32>, l: int, k: int) -> int
        decreases k,
    {
        if k <= 0 {
            0
        } else {
            self.cell_count(positions, indices, l, k - 1) + if self.overlaps_lin(
                positions,
                indices,
                k - 1,
                l,
            ) {
                1int
            } else {
                0int
            }
        }
    }

    /// Exclusive prefix sum of the per-cell overlap counts in linear order.
    pub open spec fn cell_offset(self, positions: Seq<i32>, indices: Seq<u32>, n: int, l: int) -> int
        decreases l,
    {
        if l <= 0 {
            0
        } else {
            self.cell_offset(positions, indices, n, l - 1) + self.cell_count(
                positions,
                indices,
                l - 1,
                n,
            )
        }
    }

    /// Cells of triangle `t`'s range box that an x-fastest walk has already
    /// visited when it stands at (cx, cy, cz).
    pub open spec fn visited_before(
        self,
        positions: Seq<i32>,
        indices: Seq<u32>,
        t: int,
        px: int,
        py: int,
        pz: int,
        cx: int,
        cy: int,
        cz: int,
    ) -> bool {
        &&& self.overlaps(positions, indices, t, px, py, pz)
        &&& (pz < cz || (pz == cz && (py < cy || (py == cy && px < cx))))
    }

    /// Count of cell `l` once the walk over triangle `t`'s range box has
    /// reached (cx, cy, cz): the full count over the first `t` triangles,
    /// plus one if the walk has already visited the cell.
    pub open spec fn counted_upto(
        self,
        positions: Seq<i32>,
        indices: Seq<u32>,
        t: int,
        l: int,
        cx: int,
        cy: int,
        cz: int,
    ) -> int {
        self.cell_count(positions, indices, l, t) + if self.visited_before(
            positions,
            indices,
            t,
            self.cell_x(l),
            self.cell_y(l),
            self.cell_z(l),
            cx,
            cy,
            cz,
        ) {
            1int
        } else {
            0int
        }
    }
}

/// A valid cell's linear index is in range, and delinearizing it gives the
/// cell back.
pub proof fn lemma_lin_delin(s: GridSpace, cx: int, cy: int, cz: int)
    requires
        s.wf(),
        s.valid_cell(cx, cy, cz),
    ensures
        0 <= s.lin(cx, cy, cz) < s.ncells(),
        s.cell_x(s.lin(cx, cy, cz)) == cx,
        s.cell_y(s.lin(cx, cy, cz)) == cy,
        s.cell_z(s.lin(cx, cy, cz)) == cz,
{
    let nx = s.nx();
    let ny = s.ny();
    let nz = s.nz();
    let q = cy + ny * cz;
    let l = s.lin(cx, cy, cz);
    assert(0 <= q && l == q * nx + cx && q == cz * ny + cy && l < nx * ny * nz && 0 <= ny * cz
        && q < ny * nz) by (nonlinear_arith)
        requires
            0 <= cx < nx,
            0 <= cy < ny,
            0 <= cz < nz,
            q == cy + ny * cz,
            l == cx + nx * (cy + ny * cz),
    ;
    lemma_fundamental_div_mod_converse(l, nx, q, cx);
    assert(s.cell_x(l) == cx);
    assert(l / nx == q);
    lemma_fundamental_div_mod_converse(q, ny, cz, cy);
    assert(s.cell_y(l) == cy);
    lemma_div_denominator(l, nx, ny);
    assert(l / (nx * ny) == (l / nx) / ny);
    assert(s.cell_z(l) == cz);
}

/// Delinearizing any in-range linear index gives a valid cell whose linear
/// index is the original.
pub proof fn lemma_delin_lin(s: GridSpace, l: int)
    requires
        s.wf(),
        0 <= l < s.ncells(),
    ensures
        s.valid_cell(s.cell_x(l), s.cell_y(l), s.cell_z(l)),
        s.lin(s.cell_x(l), s.cell_y(l), s.cell_z(l)) == l,
{
    let nx = s.nx();
    let ny = s.ny();
    let nz = s.nz();
    lemma_mod_bound(l, nx);
    lemma_div_pos_is_pos(l, nx);
    let q = l / nx;
    lemma_mod_bound(q, ny);
    lemma_div_pos_is_pos(q, ny);
    lemma_div_denominator(l, nx, ny);
    assert(s.cell_z(l) == q / ny);
    // q / ny < nz, else l would be at least nx * ny * nz
    lemma_fundamental_div_mod(l, nx);
    lemma_fundamental_div_mod(q, ny);
    assert(q < ny * nz) by (nonlinear_arith)
        requires
            l < nx * ny * nz,
            l == nx * q + l % nx,
            0 <= l % nx,
            0 < nx,
            0 < ny,
            0 < nz,
            0 <= q,
    ;
    assert(q / ny < nz) by {
        if q / ny >= nz {
            assert(q >= ny * nz) by (nonlinear_arith)
                requires
                    q == ny * (q / ny) + q % ny,
                    0 <= q % ny,
                    q / ny >= nz,
                    0 < ny,
            ;
        }
    }
    assert(s.valid_cell(s.cell_x(l), s.cell_y(l), s.cell_z(l)));
    assert(l == nx * q + l % nx && q == ny * (q / ny) + q % ny);
    assert(s.lin(s.cell_x(l), s.cell_y(l), s.cell_z(l)) == l) by (nonlinear_arith)
        requires
            l == nx * q + l % nx,
            q == ny * (q / ny) + q % ny,
            s.lin(s.cell_x(l), s.cell_y(l), s.cell_z(l)) == l % nx + nx * (q % ny + ny * (q
                / ny)),
            s.cell_x(l) == l % nx,
            s.cell_y(l) == q % ny,
            s.cell_z(l) == q / ny,
    ;
}

/// Each per-cell count is at most the number of triangles considered.
pub proof fn lemma_cell_count_le(s: GridSpace, positions: Seq<i32>, indices: Seq<u32>, l: int, k: int)
    requires
        k >= 0,
    ensures
        0 <= s.cell_count(positions, indices, l, k) <= k,
    decreases k,
{
    if k > 0 {
        lemma_cell_count_le(s, positions, indices, l, k - 1);
    }
}

/// Counting more triangles never shrinks a cell's count.
pub proof fn lemma_cell_count_monotone(
    s: GridSpace,
    positions: Seq<i32>,
    indices: Seq<u32>,
    l: int,
    k1: int,
    k2: int,
)
    requires
        0 <= k1 <= k2,
    ensures
        s.cell_count(positions, indices, l, k1) <= s.cell_count(positions, indices, l, k2),
    decreases k2,
{
    if k1 < k2 {
        lemma_cell_count_monotone(s, positions, indices, l, k1, k2 - 1);
    }
}

/// Cell offsets never decrease along the linear cell order.
pub proof fn lemma_offset_monotone(
    s: GridSpace,
    positions: Seq<i32>,
    indices: Seq<u32>,
    n: int,
    l1: int,
    l2: int,
)
    requires
        0 <= l1 <= l2,
        n >= 0,
    ensures
        s.cell_offset(positions, indices, n, l1) <= s.cell_offset(positions, indices, n, l2),
    decreases l2,
{
    if l1 < l2 {
        lemma_offset_monotone(s, positions, indices, n, l1, l2 - 1);
        lemma_cell_count_le(s, positions, indices, l2 - 1, n);
    }
}

/// The window a cell reserves in the references array lies inside the array,
/// and the windows of two distinct cells are disjoint.
pub proof fn lemma_window_in_array(
    s: GridSpace,
    positions: Seq<i32>,
    indices: Seq<u32>,
    n: int,
    l: int,
)
    requires
        n >= 0,
        0 <= l < s.ncells(),
    ensures
        s.cell_offset(positions, indices, n, l) + s.cell_count(positions, indices, l, n)
            == s.cell_offset(positions, indices, n, l + 1),
        s.cell_offset(positions, indices, n, l + 1) <= s.cell_offset(
            positions,
            indices,
            n,
            s.ncells(),
        ),
        0 <= s.cell_offset(positions, indices, n, l),
{
    lemma_offset_monotone(s, positions, indices, n, l + 1, s.ncells());
    lemma_offset_monotone(s, positions, indices, n, 0, l);
}

/// The cell index of a coordinate is always a valid cell, and mapping a
/// larger coordinate never gives a smaller cell.
pub proof fn lemma_cell_of_bounds(s: GridSpace, p: int, axis: int)
    requires
        s.wf(),
        0 <= axis < 3,
    ensures
        0 <= s.cell_of(p, axis) < s.resolution@[axis] as int,
{
    assert(s.resolution@[axis] >= 1);
}

pub proof fn lemma_cell_of_monotone(s: GridSpace, p: int, q: int, axis: int)
    requires
        s.wf(),
        0 <= axis < 3,
        p <= q,
    ensures
        s.cell_of(p, axis) <= s.cell_of(q, axis),
{
    let bmin = s.bbox.min@[axis] as int;
    let ext = s.bbox.extent(axis);
    let res = s.resolution@[axis] as int;
    if ext != 0 {
        assert((p - bmin) * res <= (q - bmin) * res) by (nonlinear_arith)
            requires
                p <= q,
                res >= 1,
        ;
        lemma_div_is_ordered((p - bmin) * res, (q - bmin) * res, ext);
    }
}

/// Cell index of one in-box coordinate, as a machine integer.
pub fn cell_index(space: &GridSpace, p: i32, axis: usize) -> (c: u32)
    requires
        space.wf(),
        axis < 3,
        space.bbox.min@[axis as int] <= p <= space.bbox.max@[axis as int],
    ensures
        c as int == space.cell_of(p as int, axis as int),
{
    let bmin = space.bbox.min[axis];
    let bmax = space.bbox.max[axis];
    let res = space.resolution[axis];
    if bmax == bmin {
        return 0;
    }
    let diff = (p as i64 - bmin as i64) as u64;
    let ext = (bmax as i64 - bmin as i64) as u64;
    proof {
        assert((diff as int) * (res as int) <= 0x2000_0000_0000_0000int) by (nonlinear_arith)
            requires
                diff <= 0x2000_0000u64,
                res <= 0xFFFF_FFFFu64,
        ;
    }
    let raw = diff * (res as u64) / ext;
    let c = if raw > (res - 1) as u64 {
        res - 1
    } else {
        raw as u32
    };
    proof {
        lemma_div_pos_is_pos((diff as int) * (res as int), ext as int);
        assert(c as int == space.cell_of(p as int, axis as int));
    }
    c
}

/// The clamped cell index range of one triangle's bounding box: the cells
/// `[r.0[a], r.1[a]]` along each axis.  Both overlap passes call this and
/// nothing else, so counting and scattering share one predicate.
pub fn cell_range(space: &GridSpace, positions: &Vec<i32>, indices: &Vec<u32>, t: usize) -> (r: (
    [u32; 3],
    [u32; 3],
))
    requires
        space.wf(),
        positions@.len() % 3 == 0,
        3 * t + 3 <= indices@.len(),
        forall|j: int| 0 <= j < 3 ==> #[trigger] tri_vertex(indices@, t as int, j) < vertex_count(
            positions@,
        ),
        forall|j: int, a: int|
            0 <= j < 3 && 0 <= a < 3 ==> space.bbox.min@[a] as int <= #[trigger] tri_coord(
                positions@,
                indices@,
                t as int,
                j,
                a,
            ) <= space.bbox.max@[a] as int,
    ensures
        forall|a: int|
            0 <= a < 3 ==> r.0@[a] as int == space.tri_lo(positions@, indices@, t as int, a),
        forall|a: int|
            0 <= a < 3 ==> r.1@[a] as int == space.tri_hi(positions@, indices@, t as int, a),
        forall|a: int|
            0 <= a < 3 ==> r.0@[a] <= r.1@[a] && (r.1@[a] as int) < space.resolution@[a] as int,
{
    let (tmn, tmx) = triangle_extent(positions, indices, t);
    proof {
        assert forall|a: int| 0 <= a < 3 implies space.bbox.min@[a] <= #[trigger] tmn@[a]
            <= space.bbox.max@[a] && space.bbox.min@[a] <= tmx@[a] <= space.bbox.max@[a] by {
            assert(space.bbox.min@[a] as int <= tri_coord(positions@, indices@, t as int, 0, a)
                <= space.bbox.max@[a] as int);
            assert(space.bbox.min@[a] as int <= tri_coord(positions@, indices@, t as int, 1, a)
                <= space.bbox.max@[a] as int);
            assert(space.bbox.min@[a] as int <= tri_coord(positions@, indices@, t as int, 2, a)
                <= space.bbox.max@[a] as int);
        }
    }
    let lo = [
        cell_index(space, tmn[0], 0),
        cell_index(space, tmn[1], 1),
        cell_index(space, tmn[2], 2),
    ];
    let hi = [
        cell_index(space, tmx[0], 0),
        cell_index(space, tmx[1], 1),
        cell_index(space, tmx[2], 2),
    ];
    proof {
        assert forall|a: int|
            0 <= a < 3 implies lo@[a] as int == space.tri_lo(positions@, indices@, t as int, a)
            && hi@[a] as int == space.tri_hi(positions@, indices@, t as int, a) && lo@[a] <= hi@[a]
            && (hi@[a] as int) < space.resolution@[a] as int by {
            lemma_cell_of_monotone(
                *space,
                tri_min(positions@, indices@, t as int, a),
                tri_max(positions@, indices@, t as int, a),
                a,
            );
            lemma_cell_of_bounds(*space, tri_max(positions@, indices@, t as int, a), a);
            if a == 0 {
            } else if a == 1 {
            } else {
            }
        }
    }
    (lo, hi)
}

/// Total cell count of a well-formed grid, as a machine integer.
pub fn cell_total(space: &GridSpace) -> (nc: usize)
    requires
        space.wf(),
    ensures
        nc as int == space.ncells(),
        nc <= u32::MAX as usize,
{
    let r0 = space.resolution[0] as u64;
    let r1 = space.resolution[1] as u64;
    let r2 = space.resolution[2] as u64;
    proof {
        assert((r0 as int) * (r1 as int) <= (r0 as int) * (r1 as int) * (r2 as int))
            by (nonlinear_arith)
            requires
                1 <= r0,
                1 <= r1,
                1 <= r2,
        ;
        assert((r0 as int) * (r1 as int) * (r2 as int) == space.ncells());
        assert(space.ncells() <= u32::MAX);
    }
    let nc = r0 * r1 * r2;
    nc as usize
}

/// Linear index of a valid cell, as a machine integer.
pub fn cell_linear(space: &GridSpace, cx: u32, cy: u32, cz: u32) -> (l: usize)
    requires
        space.wf(),
        (cx as int) < space.nx(),
        (cy as int) < space.ny(),
        (cz as int) < space.nz(),
    ensures
        l as int == space.lin(cx as int, cy as int, cz as int),
        (l as int) < space.ncells(),
{
    proof {
        lemma_lin_delin(*space, cx as int, cy as int, cz as int);
        let nxi = space.nx();
        let nyi = space.ny();
        let li = space.lin(cx as int, cy as int, cz as int);
        assert(0 <= nyi * (cz as int) && (cy as int) + nyi * (cz as int) <= li && nxi * ((cy
            as int) + nyi * (cz as int)) <= li && nyi * (cz as int) <= li) by (nonlinear_arith)
            requires
                0 <= (cx as int) && (cx as int) < nxi,
                0 <= (cy as int) && (cy as int) < nyi,
                1 <= nxi,
                1 <= nyi,
                0 <= cz as int,
                li == cx as int + nxi * ((cy as int) + nyi * (cz as int)),
        ;
    }
    let inner = (cy as u64) + (space.resolution[1] as u64) * (cz as u64);
    let l64 = (cx as u64) + (space.resolution[0] as u64) * inner;
    l64 as usize
}

/// Number of cells with linear index in `[a, b)` whose range box for
/// triangle `t` contains them.
pub open spec fn overlapped_in(
    ss: GridSpace,
    positions: Seq<i32>,
    indices: Seq<u32>,
    t: int,
    a: int,
    b: int,
) -> int
    decreases b - a,
{
    if b <= a {
        0
    } else {
        overlapped_in(ss, positions, indices, t, a, b - 1) + if ss.overlaps_lin(
            positions,
            indices,
            t,
            b - 1,
        ) {
            1int
        } else {
            0int
        }
    }
}

proof fn lemma_overlapped_in_split(
    ss: GridSpace,
    positions: Seq<i32>,
    indices: Seq<u32>,
    t: int,
    a: int,
    b: int,
    c: int,
)
    requires
        a <= b <= c,
    ensures
        overlapped_in(ss, positions, indices, t, a, c) == overlapped_in(
            ss,
            positions,
            indices,
            t,
            a,
            b,
        ) + overlapped_in(ss, positions, indices, t, b, c),
    decreases c - b,
{
    if b < c {
        lemma_overlapped_in_split(ss, positions, indices, t, a, b, c - 1);
    }
}

/// Within one x row of cells, the overlapped cells are exactly the clamped
/// x range, provided the row's y and z indices lie in the triangle's range.
proof fn lemma_row_count(
    ss: GridSpace,
    positions: Seq<i32>,
    indices: Seq<u32>,
    t: int,
    cy: int,
    cz: int,
    k: int,
)
    requires
        ss.wf(),
        0 <= cy < ss.ny(),
        0 <= cz < ss.nz(),
        0 <= k <= ss.nx(),
    ensures
        ({
            let lo0 = ss.tri_lo(positions, indices, t, 0);
            let hi0 = ss.tri_hi(positions, indices, t, 0);
            let inyz = ss.tri_lo(positions, indices, t, 1) <= cy <= ss.tri_hi(
                positions,
                indices,
                t,
                1,
            ) && ss.tri_lo(positions, indices, t, 2) <= cz <= ss.tri_hi(positions, indices, t, 2);
            let rb = ss.lin(0, cy, cz);
            overlapped_in(ss, positions, indices, t, rb, rb + k) == (if inyz {
                if k <= lo0 {
                    0int
                } else if k <= hi0 + 1 {
                    k - lo0
                } else {
                    hi0 + 1 - lo0
                }
            } else {
                0int
            })
        }),
    decreases k,
{
    lemma_cell_of_bounds(ss, tri_min(positions, indices, t, 0), 0);
    lemma_cell_of_bounds(ss, tri_max(positions, indices, t, 0), 0);
    lemma_cell_of_monotone(
        ss,
        tri_min(positions, indices, t, 0),
        tri_max(positions, indices, t, 0),
        0,
    );
    if k > 0 {
        lemma_row_count(ss, positions, indices, t, cy, cz, k - 1);
        lemma_lin_delin(ss, k - 1, cy, cz);
        let rb = ss.lin(0, cy, cz);
        assert(ss.lin(k - 1, cy, cz) == rb + k - 1);
        assert(ss.overlaps_lin(positions, indices, t, rb + k - 1) == ss.overlaps(
            positions,
            indices,
            t,
            k - 1,
            cy,
            cz,
        ));
    }
}

/// Within one z slab of cells, the overlapped cells are exactly the clamped
/// x range crossed with the clamped y range, provided the slab's z index
/// lies in the triangle's range.
proof fn lemma_slab_count(
    ss: GridSpace,
    positions: Seq<i32>,
    indices: Seq<u32>,
    t: int,
    cz: int,
    j: int,
)
    requires
        ss.wf(),
        0 <= cz < ss.nz(),
        0 <= j <= ss.ny(),
    ensures
        ({
            let lo1 = ss.tri_lo(positions, indices, t, 1);
            let hi1 = ss.tri_hi(positions, indices, t, 1);
            let wx = ss.tri_hi(positions, indices, t, 0) + 1 - ss.tri_lo(positions, indices, t, 0);
            let inz = ss.tri_lo(positions, indices, t, 2) <= cz <= ss.tri_hi(
                positions,
                indices,
                t,
                2,
            );
            let sb = ss.lin(0, 0, cz);
            overlapped_in(ss, positions, indices, t, sb, sb + j * ss.nx()) == (if inz {
                (if j <= lo1 {
                    0int
                } else if j <= hi1 + 1 {
                    j - lo1
                } else {
                    hi1 + 1 - lo1
                }) * wx
            } else {
                0int
            })
        }),
    decreases j,
{
    let nx = ss.nx();
    let ny = ss.ny();
    let sb = ss.lin(0, 0, cz);
    let lo1 = ss.tri_lo(positions, indices, t, 1);
    let hi1 = ss.tri_hi(positions, indices, t, 1);
    let wx = ss.tri_hi(positions, indices, t, 0) + 1 - ss.tri_lo(positions, indices, t, 0);
    lemma_cell_of_bounds(ss, tri_min(positions, indices, t, 1), 1);
    lemma_cell_of_bounds(ss, tri_max(positions, indices, t, 1), 1);
    lemma_cell_of_monotone(
        ss,
        tri_min(positions, indices, t, 1),
        tri_max(positions, indices, t, 1),
        1,
    );
    if j == 0 {
        assert(j * nx == 0) by (nonlinear_arith)
            requires
                j == 0,
        ;
    } else {
        lemma_slab_count(ss, positions, indices, t, cz, j - 1);
        let rb = ss.lin(0, j - 1, cz);
        assert(rb == sb + (j - 1) * nx) by (nonlinear_arith)
            requires
                rb == 0 + nx * ((j - 1) + ny * cz),
                sb == 0 + nx * (0 + ny * cz),
        ;
        assert(j * nx == (j - 1) * nx + nx) by (nonlinear_arith);
        assert(0 <= (j - 1) * nx) by (nonlinear_arith)
            requires
                0 <= j - 1,
                0 <= nx,
        ;
        lemma_overlapped_in_split(ss, positions, indices, t, sb, rb, rb + nx);
        lemma_row_count(ss, positions, indices, t, j - 1, cz, nx);
        // combine the previous rows with this one
        let prev = if j - 1 <= lo1 {
            0int
        } else if j - 1 <= hi1 + 1 {
            j - 1 - lo1
        } else {
            hi1 + 1 - lo1
        };
        let cur = if j <= lo1 {
            0int
        } else if j <= hi1 + 1 {
            j - lo1
        } else {
            hi1 + 1 - lo1
        };
        if lo1 <= j - 1 <= hi1 {
            assert(cur * wx == prev * wx + wx) by (nonlinear_arith)
                requires
                    cur == prev + 1,
            ;
        } else {
            assert(cur == prev);
        }
    }
}

/// The number of cells of the whole grid inside triangle `t`'s clamped
/// range box is the product of the per-axis range widths.
pub proof fn lemma_box_count(ss: GridSpace, positions: Seq<i32>, indices: Seq<u32>, t: int)
    requires
        ss.wf(),
    ensures
        overlapped_in(ss, positions, indices, t, 0, ss.ncells()) == ss.tri_cell_count(
            positions,
            indices,
            t,
        ),
{
    let nx = ss.nx();
    let ny = ss.ny();
    let nz = ss.nz();
    let lo2 = ss.tri_lo(positions, indices, t, 2);
    let hi2 = ss.tri_hi(positions, indices, t, 2);
    let wx = ss.tri_hi(positions, indices, t, 0) + 1 - ss.tri_lo(positions, indices, t, 0);
    let wy = ss.tri_hi(positions, indices, t, 1) + 1 - ss.tri_lo(positions, indices, t, 1);
    let wz = hi2 + 1 - lo2;
    lemma_cell_of_bounds(ss, tri_min(positions, indices, t, 0), 0);
    lemma_cell_of_bounds(ss, tri_max(positions, indices, t, 0), 0);
    lemma_cell_of_monotone(
        ss,
        tri_min(positions, indices, t, 0),
        tri_max(positions, indices, t, 0),
        0,
    );
    lemma_cell_of_bounds(ss, tri_min(positions, indices, t, 1), 1);
    lemma_cell_of_bounds(ss, tri_max(positions, indices, t, 1), 1);
    lemma_cell_of_monotone(
        ss,
        tri_min(positions, indices, t, 1),
        tri_max(positions, indices, t, 1),
        1,
    );
    lemma_cell_of_bounds(ss, tri_min(positions, indices, t, 2), 2);
    lemma_cell_of_bounds(ss, tri_max(positions, indices, t, 2), 2);
    lemma_cell_of_monotone(
        ss,
        tri_min(positions, indices, t, 2),
        tri_max(positions, indices, t, 2),
        2,
    );
    lemma_volume_count(ss, positions, indices, t, nz);
    assert(nz * (nx * ny) == ss.ncells()) by (nonlinear_arith)
        requires
            ss.ncells() == nx * ny * nz,
    ;
    assert(hi2 < nz);
    assert(wz * (wy * wx) == wx * wy * wz) by (nonlinear_arith);
    assert(ss.tri_cell_count(positions, indices, t) == wx * wy * wz) by (nonlinear_arith)
        requires
            ss.tri_cell_count(positions, indices, t) == (ss.tri_hi(positions, indices, t, 0) + 1
                - ss.tri_lo(positions, indices, t, 0)) * (ss.tri_hi(positions, indices, t, 1) + 1
                - ss.tri_lo(positions, indices, t, 1)) * (ss.tri_hi(positions, indices, t, 2) + 1
                - ss.tri_lo(positions, indices, t, 2)),
            wx == ss.tri_hi(positions, indices, t, 0) + 1 - ss.tri_lo(positions, indices, t, 0),
            wy == ss.tri_hi(positions, indices, t, 1) + 1 - ss.tri_lo(positions, indices, t, 1),
            wz == ss.tri_hi(positions, indices, t, 2) + 1 - ss.tri_lo(positions, indices, t, 2),
    ;
}

proof fn lemma_volume_count(ss: GridSpace, positions: Seq<i32>, indices: Seq<u32>, t: int, m: int)
    requires
        ss.wf(),
        0 <= m <= ss.nz(),
    ensures
        ({
            let lo2 = ss.tri_lo(positions, indices, t, 2);
            let hi2 = ss.tri_hi(positions, indices, t, 2);
            let wx = ss.tri_hi(positions, indices, t, 0) + 1 - ss.tri_lo(positions, indices, t, 0);
            let wy = ss.tri_hi(positions, indices, t, 1) + 1 - ss.tri_lo(positions, indices, t, 1);
            overlapped_in(ss, positions, indices, t, 0, m * (ss.nx() * ss.ny())) == (if m <= lo2 {
                0int
            } else if m <= hi2 + 1 {
                m - lo2
            } else {
                hi2 + 1 - lo2
            }) * (wy * wx)
        }),
    decreases m,
{
    let nx = ss.nx();
    let ny = ss.ny();
    let lo2 = ss.tri_lo(positions, indices, t, 2);
    let hi2 = ss.tri_hi(positions, indices, t, 2);
    let lo1 = ss.tri_lo(positions, indices, t, 1);
    let hi1 = ss.tri_hi(positions, indices, t, 1);
    let wx = ss.tri_hi(positions, indices, t, 0) + 1 - ss.tri_lo(positions, indices, t, 0);
    let wy = hi1 + 1 - lo1;
    lemma_cell_of_bounds(ss, tri_min(positions, indices, t, 1), 1);
    lemma_cell_of_bounds(ss, tri_max(positions, indices, t, 1), 1);
    lemma_cell_of_monotone(
        ss,
        tri_min(positions, indices, t, 1),
        tri_max(positions, indices, t, 1),
        1,
    );
    lemma_cell_of_bounds(ss, tri_min(positions, indices, t, 2), 2);
    lemma_cell_of_bounds(ss, tri_max(positions, indices, t, 2), 2);
    lemma_cell_of_monotone(
        ss,
        tri_min(positions, indices, t, 2),
        tri_max(positions, indices, t, 2),
        2,
    );
    if m == 0 {
        assert(m * (nx * ny) == 0) by (nonlinear_arith)
            requires
                m == 0,
        ;
    } else {
        lemma_volume_count(ss, positions, indices, t, m - 1);
        let sb = ss.lin(0, 0, m - 1);
        assert(sb == (m - 1) * (nx * ny)) by (nonlinear_arith)
            requires
                sb == 0 + nx * (0 + ny * (m - 1)),
        ;
        assert(m * (nx * ny) == (m - 1) * (nx * ny) + nx * ny) by (nonlinear_arith);
        assert(0 <= (m - 1) * (nx * ny)) by (nonlinear_arith)
            requires
                0 <= m - 1,
                0 <= nx * ny,
        ;
        assert(0 <= nx * ny) by (nonlinear_arith)
            requires
                0 <= nx,
                0 <= ny,
        ;
        lemma_overlapped_in_split(ss, positions, indices, t, 0, sb, sb + ny * nx);
        assert(ny * nx == nx * ny) by (nonlinear_arith);
        lemma_slab_count(ss, positions, indices, t, m - 1, ny);
        // the full slab holds wy * wx overlapped cells when its z is in range
        assert(hi1 < ny);
        let prev = if m - 1 <= lo2 {
            0int
        } else if m - 1 <= hi2 + 1 {
            m - 1 - lo2
        } else {
            hi2 + 1 - lo2
        };
        let cur = if m <= lo2 {
            0int
        } else if m <= hi2 + 1 {
            m - lo2
        } else {
            hi2 + 1 - lo2
        };
        if lo2 <= m - 1 <= hi2 {
            assert(cur * (wy * wx) == prev * (wy * wx) + wy * wx) by (nonlinear_arith)
                requires
                    cur == prev + 1,
            ;
        } else {
            assert(cur == prev);
        }
    }
}

proof fn lemma_offset_zero(ss: GridSpace, positions: Seq<i32>, indices: Seq<u32>, l: int)
    ensures
        ss.cell_offset(positions, indices, 0, l) == 0,
    decreases l,
{
    if l > 0 {
        lemma_offset_zero(ss, positions, indices, l - 1);
    }
}

proof fn lemma_offset_peel(ss: GridSpace, positions: Seq<i32>, indices: Seq<u32>, n: int, l: int)
    requires
        n >= 1,
    ensures
        ss.cell_offset(positions, indices, n, l) == ss.cell_offset(positions, indices, n - 1, l)
            + overlapped_in(ss, positions, indices, n - 1, 0, l),
    decreases l,
{
    if l > 0 {
        lemma_offset_peel(ss, positions, indices, n, l - 1);
    }
}

/// Double counting: summing the per-cell overlap counts over all cells
/// gives the same total as summing the per-triangle range-box sizes over
/// all triangles.
pub proof fn lemma_totals_agree(ss: GridSpace, positions: Seq<i32>, indices: Seq<u32>, n: int)
    requires
        ss.wf(),
        n >= 0,
    ensures
        ss.cell_offset(positions, indices, n, ss.ncells()) == ss.total_pairs(
            positions,
            indices,
            n,
        ),
    decreases n,
{
    if n == 0 {
        lemma_offset_zero(ss, positions, indices, ss.ncells());
    } else {
        lemma_totals_agree(ss, positions, indices, n - 1);
        lemma_offset_peel(ss, positions, indices, n, ss.ncells());
        lemma_box_count(ss, positions, indices, n - 1);
    }
}

} // verus!
