use vstd::prelude::*;

use crate::mesh::{tri_coord, tri_vertex, valid_triangles, vertex_count};
use crate::space::{
    cell_linear, cell_range, cell_total, lemma_cell_count_le, lemma_delin_lin, lemma_lin_delin,
    GridSpace,
};

verus! {

/// Walk triangle `t`'s clamped cell range in x-fastest order and increment
/// every visited cell's counter.
fn add_triangle(
    positions: &Vec<i32>,
    indices: &Vec<u32>,
    t: usize,
    space: &GridSpace,
    counts: &mut Vec<u32>,
)
    requires
        space.wf(),
        t < u32::MAX,
        positions@.len() % 3 == 0,
        3 * t + 3 <= indices@.len(),
        forall|j: int| 0 <= j < 3 ==> #[trigger] tri_vertex(indices@, t as int, j) < vertex_count(
            positions@,
        ),
        forall|j: int, a: int|
            0 <= j < 3 && 0 <= a < 3 ==> space.bbox.min@[a] as int <= #[trigger] tri_coord(
                positions@,
                indices@,
                t as int,
                j,
                a,
            ) <= space.bbox.max@[a] as int,
        old(counts)@.len() == space.ncells(),
        forall|l: int|
            0 <= l < space.ncells() ==> #[trigger] old(counts)@[l] as int == space.cell_count(
                positions@,
                indices@,
                l,
                t as int,
            ),
    ensures
        final(counts)@.len() == space.ncells(),
        forall|l: int|
            0 <= l < space.ncells() ==> #[trigger] final(counts)@[l] as int == space.cell_count(
                positions@,
                indices@,
                l,
                t as int + 1,
            ),
{
    let ghost pp = positions@;
    let ghost ii = indices@;
    let ghost ss = *space;
    let ghost ti = t as int;
    let (lo, hi) = cell_range(space, positions, indices, t);
    let lx = lo[0];
    let ly = lo[1];
    let lz = lo[2];
    let hx = hi[0];
    let hy = hi[1];
    let hz = hi[2];
    proof {
        assert forall|l: int| 0 <= l < ss.ncells() implies #[trigger] counts@[l] as int
            == ss.counted_upto(pp, ii, ti, l, lx as int, ly as int, lz as int) by {
            lemma_delin_lin(ss, l);
        }
    }
    let mut cz = lz;
    while cz <= hz
        invariant
            lz <= cz,
            cz as int <= hz as int + 1,
            counts@.len() == ss.ncells(),
            forall|l: int|
                0 <= l < ss.ncells() ==> #[trigger] counts@[l] as int == ss.counted_upto(
                    pp,
                    ii,
                    ti,
                    l,
                    lx as int,
                    ly as int,
                    cz as int,
                ),
        decreases hz as int + 1 - cz as int,
    {
        let mut cy = ly;
        while cy <= hy
            invariant
                ly <= cy,
                cy as int <= hy as int + 1,
                lz <= cz <= hz,
                counts@.len() == ss.ncells(),
                forall|l: int|
                    0 <= l < ss.ncells() ==> #[trigger] counts@[l] as int == ss.counted_upto(
                        pp,
                        ii,
                        ti,
                        l,
                        lx as int,
                        cy as int,
                        cz as int,
                    ),
            decreases hy as int + 1 - cy as int,
        {
            let mut cx = lx;
            while cx <= hx
                invariant
                    lx <= cx,
                    cx as int <= hx as int + 1,
                    ly <= cy <= hy,
                    lz <= cz <= hz,
                    counts@.len() == ss.ncells(),
                    forall|l: int|
                        0 <= l < ss.ncells() ==> #[trigger] counts@[l] as int == ss.counted_upto(
                            pp,
                            ii,
                            ti,
                            l,
                            cx as int,
                            cy as int,
                            cz as int,
                        ),
                decreases hx as int + 1 - cx as int,
            {
                let l = cell_linear(space, cx, cy, cz);
                proof {
                    lemma_lin_delin(ss, cx as int, cy as int, cz as int);
                    lemma_cell_count_le(ss, pp, ii, l as int, ti);
                    assert(ss.overlaps(pp, ii, ti, cx as int, cy as int, cz as int));
                    assert(counts@[l as int] as int == ss.cell_count(pp, ii, l as int, ti));
                }
                let c = counts[l];
                counts[l] = c + 1;
                proof {
                    assert forall|l2: int| 0 <= l2 < ss.ncells() implies #[trigger] counts@[l2]
                        as int == ss.counted_upto(
                        pp,
                        ii,
                        ti,
                        l2,
                        cx as int + 1,
                        cy as int,
                        cz as int,
                    ) by {
                        lemma_delin_lin(ss, l2);
                        if l2 != l as int {
                            assert(!(ss.cell_x(l2) == cx as int && ss.cell_y(l2) == cy as int
                                && ss.cell_z(l2) == cz as int));
                        }
                    }
                }
                cx = cx + 1;
            }
            proof {
                assert forall|l2: int| 0 <= l2 < ss.ncells() implies #[trigger] counts@[l2] as int
                    == ss.counted_upto(pp, ii, ti, l2, lx as int, cy as int + 1, cz as int) by {
                    lemma_delin_lin(ss, l2);
                    assert(counts@[l2] as int == ss.counted_upto(
                        pp,
                        ii,
                        ti,
                        l2,
                        cx as int,
                        cy as int,
                        cz as int,
                    ));
                }
            }
            cy = cy + 1;
        }
        proof {
            assert forall|l2: int| 0 <= l2 < ss.ncells() implies #[trigger] counts@[l2] as int
                == ss.counted_upto(pp, ii, ti, l2, lx as int, ly as int, cz as int + 1) by {
                lemma_delin_lin(ss, l2);
                assert(counts@[l2] as int == ss.counted_upto(
                    pp,
                    ii,
                    ti,
                    l2,
                    lx as int,
                    cy as int,
                    cz as int,
                ));
            }
        }
        cz = cz + 1;
    }
    proof {
        assert forall|l: int| 0 <= l < ss.ncells() implies #[trigger] counts@[l] as int
            == ss.cell_count(pp, ii, l, ti + 1) by {
            lemma_delin_lin(ss, l);
            assert(counts@[l] as int == ss.counted_upto(pp, ii, ti, l, lx as int, ly as int, cz as int));
        }
    }
}

/// Histogram pass: count, for every grid cell, how many triangles' clamped
/// bounding-box ranges contain it.
///
/// The per-cell counter plays the role of the shared atomic counter of a
/// data-parallel dispatch; the walk order does not matter for the result,
/// which is exactly the per-cell overlap count.
pub fn count_pairs(
    positions: &Vec<i32>,
    indices: &Vec<u32>,
    triangle_count: usize,
    space: &GridSpace,
) -> (counts: Vec<u32>)
    requires
        1 <= triangle_count <= u32::MAX,
        valid_triangles(positions@, indices@, triangle_count as int),
        space.wf(),
        space.bbox.contains_mesh(positions@, indices@, triangle_count as int),
    ensures
        counts@.len() == space.ncells(),
        forall|l: int|
            0 <= l < space.ncells() ==> #[trigger] counts@[l] as int == space.cell_count(
                positions@,
                indices@,
                l,
                triangle_count as int,
            ),
{
    let nc = cell_total(space);
    let mut counts: Vec<u32> = Vec::new();
    let mut i: usize = 0;
    while i < nc
        invariant
            counts@.len() == i,
            i <= nc,
            forall|l: int| 0 <= l < i ==> #[trigger] counts@[l] == 0u32,
        decreases nc - i,
    {
        counts.push(0);
        i = i + 1;
    }
    let mut t: usize = 0;
    while t < triangle_count
        invariant
            t <= triangle_count,
            counts@.len() == space.ncells(),
            forall|l: int|
                0 <= l < space.ncells() ==> #[trigger] counts@[l] as int == space.cell_count(
                    positions@,
                    indices@,
                    l,
                    t as int,
                ),
        decreases triangle_count - t,
    {
        add_triangle(positions, indices, t, space, &mut counts);
        t = t + 1;
    }
    counts
}

/// Total number of (triangle, cell) overlap pairs, computed per triangle
/// from the size of its clamped cell range.  This is the length the
/// references array must have, found without touching per-cell counters.
pub fn count_total_pairs(
    positions: &Vec<i32>,
    indices: &Vec<u32>,
    triangle_count: usize,
    space: &GridSpace,
) -> (r: u64)
    requires
        1 <= triangle_count <= u32::MAX,
        valid_triangles(positions@, indices@, triangle_count as int),
        space.wf(),
        space.bbox.contains_mesh(positions@, indices@, triangle_count as int),
    ensures
        r as int == space.total_pairs(positions@, indices@, triangle_count as int),
{
    let ghost pp = positions@;
    let ghost ii = indices@;
    let ghost ss = *space;
    let mut sum: u64 = 0;
    let mut t: usize = 0;
    while t < triangle_count
        invariant
            t <= triangle_count,
            sum as int == ss.total_pairs(pp, ii, t as int),
            sum as int <= (t as int) * 0xFFFF_FFFFint,
        decreases triangle_count - t,
    {
        let (lo, hi) = cell_range(space, positions, indices, t);
        let dx = (hi[0] as u64) - (lo[0] as u64) + 1;
        let dy = (hi[1] as u64) - (lo[1] as u64) + 1;
        let dz = (hi[2] as u64) - (lo[2] as u64) + 1;
        proof {
            let r0 = ss.nx();
            let r1 = ss.ny();
            let r2 = ss.nz();
            assert((dx as int) * (dy as int) <= r0 * r1 && r0 * r1 <= r0 * r1 * r2 && (dx as int)
                * (dy as int) * (dz as int) <= r0 * r1 * r2) by (nonlinear_arith)
                requires
                    1 <= dx as int <= r0,
                    1 <= dy as int <= r1,
                    1 <= dz as int <= r2,
            ;
            assert(r0 * r1 * r2 == ss.ncells());
            assert((dx as int) * (dy as int) * (dz as int) == ss.tri_cell_count(pp, ii, t as int));
        }
        let prod = dx * dy * dz;
        sum = sum + prod;
        t = t + 1;
    }
    sum
}

} // verus!
