use vstd::prelude::*;

use crate::mesh::valid_triangles;
use crate::space::{
    cell_linear, cell_range, cell_total, lemma_cell_count_le, lemma_cell_count_monotone,
    lemma_delin_lin, lemma_lin_delin, lemma_offset_monotone, lemma_window_in_array, GridSpace,
};

verus! {

/// One cell's record in the finished grid: the start of its window in the
/// references array and the number of references stored there.
#[derive(Clone, Copy, PartialEq, Eq, Debug)]
pub struct Cell {
    pub offset: u32,
    pub count: u32,
}

/// The references array lists, for every cell, exactly the triangles whose
/// clamped bounding-box range overlaps it: each listed triangle overlaps the
/// cell (soundness), every overlapping triangle is listed (completeness),
/// and none is listed twice in one cell (exactness).
pub open spec fn references_valid(
    ss: GridSpace,
    positions: Seq<i32>,
    indices: Seq<u32>,
    n: int,
    cells: Seq<Cell>,
    refs: Seq<u32>,
) -> bool {
    &&& forall|l: int, i: int|
        #![trigger refs[i], cells[l]]
        0 <= l < ss.ncells() && cells[l].offset as int <= i < cells[l].offset as int
            + cells[l].count as int ==> (refs[i] as int) < n && ss.overlaps_lin(
            positions,
            indices,
            refs[i] as int,
            l,
        )
    &&& forall|l: int, tp: int|
        0 <= l < ss.ncells() && 0 <= tp < n && #[trigger] ss.overlaps_lin(positions, indices, tp, l)
            ==> exists|i: int|
            cells[l].offset as int <= i < cells[l].offset as int + cells[l].count as int
                && (#[trigger] refs[i]) as int == tp
    &&& forall|l: int, i1: int, i2: int|
        #![trigger refs[i1], refs[i2], cells[l]]
        0 <= l < ss.ncells() && cells[l].offset as int <= i1 < cells[l].offset as int
            + cells[l].count as int && cells[l].offset as int <= i2 < cells[l].offset as int
            + cells[l].count as int && i1 != i2 ==> refs[i1] != refs[i2]
}

/// State of the scatter pass once the first `t` triangles have been fully
/// written: every cursor stands `cell_count(l, t)` slots past its cell's
/// offset, and each window below its cursor lists exactly the overlapping
/// triangles among the first `t`.
pub open spec fn scatter_done(
    ss: GridSpace,
    positions: Seq<i32>,
    indices: Seq<u32>,
    offsets: Seq<u32>,
    cursors: Seq<u32>,
    refs: Seq<u32>,
    t: int,
) -> bool {
    &&& forall|l: int|
        0 <= l < ss.ncells() ==> #[trigger] cursors[l] as int == offsets[l] as int + ss.cell_count(
            positions,
            indices,
            l,
            t,
        )
    &&& forall|l: int, i: int|
        #![trigger refs[i], cursors[l]]
        0 <= l < ss.ncells() && offsets[l] as int <= i < cursors[l] as int ==> (refs[i] as int) < t
            && ss.overlaps_lin(positions, indices, refs[i] as int, l)
    &&& forall|l: int, tp: int|
        0 <= l < ss.ncells() && 0 <= tp < t && #[trigger] ss.overlaps_lin(positions, indices, tp, l)
            ==> exists|i: int|
            offsets[l] as int <= i < cursors[l] as int && (#[trigger] refs[i]) as int == tp
    &&& forall|l: int, i1: int, i2: int|
        #![trigger refs[i1], refs[i2], cursors[l]]
        0 <= l < ss.ncells() && offsets[l] as int <= i1 < cursors[l] as int && offsets[l] as int
            <= i2 < cursors[l] as int && i1 != i2 ==> refs[i1] != refs[i2]
}

/// State of the scatter pass while triangle `t`'s range box is being walked
/// and the walk stands at (cx, cy, cz).
pub open spec fn scatter_mid(
    ss: GridSpace,
    positions: Seq<i32>,
    indices: Seq<u32>,
    offsets: Seq<u32>,
    cursors: Seq<u32>,
    refs: Seq<u32>,
    t: int,
    cx: int,
    cy: int,
    cz: int,
) -> bool {
    &&& forall|l: int|
        0 <= l < ss.ncells() ==> #[trigger] cursors[l] as int == offsets[l] as int
            + ss.counted_upto(positions, indices, t, l, cx, cy, cz)
    &&& forall|l: int, i: int|
        #![trigger refs[i], cursors[l]]
        0 <= l < ss.ncells() && offsets[l] as int <= i < cursors[l] as int ==> ((refs[i] as int) < t
            && ss.overlaps_lin(positions, indices, refs[i] as int, l)) || ((refs[i] as int) == t
            && ss.visited_before(
            positions,
            indices,
            t,
            ss.cell_x(l),
            ss.cell_y(l),
            ss.cell_z(l),
            cx,
            cy,
            cz,
        ))
    &&& forall|l: int, tp: int|
        0 <= l < ss.ncells() && 0 <= tp < t && #[trigger] ss.overlaps_lin(positions, indices, tp, l)
            ==> exists|i: int|
            offsets[l] as int <= i < cursors[l] as int && (#[trigger] refs[i]) as int == tp
    &&& forall|l: int|
        #![trigger ss.cell_x(l)]
        #![trigger cursors[l]]
        0 <= l < ss.ncells() && ss.visited_before(
            positions,
            indices,
            t,
            ss.cell_x(l),
            ss.cell_y(l),
            ss.cell_z(l),
            cx,
            cy,
            cz,
        ) ==> exists|i: int|
            (#[trigger] cursors[l]) as int > i >= offsets[l] as int && (#[trigger] refs[i]) as int
                == t
    &&& forall|l: int, i1: int, i2: int|
        #![trigger refs[i1], refs[i2], cursors[l]]
        0 <= l < ss.ncells() && offsets[l] as int <= i1 < cursors[l] as int && offsets[l] as int
            <= i2 < cursors[l] as int && i1 != i2 ==> refs[i1] != refs[i2]
}

/// Requirements shared by every scatter step: the grid is well formed, the
/// offsets are the exclusive prefix sums, and the references array has one
/// slot per overlap pair.
pub open spec fn scatter_frame(
    ss: GridSpace,
    positions: Seq<i32>,
    indices: Seq<u32>,
    n: int,
    offsets: Seq<u32>,
    refs_len: int,
) -> bool {
    &&& ss.wf()
    &&& 1 <= n <= u32::MAX
    &&& valid_triangles(positions, indices, n)
    &&& ss.bbox.contains_mesh(positions, indices, n)
    &&& offsets.len() == ss.ncells()
    &&& forall|l: int|
        0 <= l < ss.ncells() ==> #[trigger] offsets[l] as int == ss.cell_offset(
            positions,
            indices,
            n,
            l,
        )
    &&& refs_len == ss.cell_offset(positions, indices, n, ss.ncells())
    &&& refs_len <= u32::MAX
}

/// Writing triangle `t` into cell `l = lin(cx, cy, cz)` and advancing that
/// cell's cursor takes the scatter state one step further in x.
proof fn lemma_scatter_write(
    ss: GridSpace,
    positions: Seq<i32>,
    indices: Seq<u32>,
    n: int,
    offsets: Seq<u32>,
    pcur: Seq<u32>,
    prefs: Seq<u32>,
    cursors: Seq<u32>,
    refs: Seq<u32>,
    t: int,
    tt: u32,
    cu: u32,
    cx: int,
    cy: int,
    cz: int,
    l: int,
)
    requires
        scatter_frame(ss, positions, indices, n, offsets, prefs.len() as int),
        0 <= t < n,
        ss.valid_cell(cx, cy, cz),
        l == ss.lin(cx, cy, cz),
        ss.overlaps(positions, indices, t, cx, cy, cz),
        pcur.len() == ss.ncells(),
        scatter_mid(ss, positions, indices, offsets, pcur, prefs, t, cx, cy, cz),
        tt as int == t,
        cu as int == pcur[l] as int + 1,
        refs == prefs.update(pcur[l] as int, tt),
        cursors == pcur.update(l, cu),
    ensures
        scatter_mid(ss, positions, indices, offsets, cursors, refs, t, cx + 1, cy, cz),
        refs.len() == prefs.len(),
        0 <= (pcur[l] as int) && (pcur[l] as int) < prefs.len(),
{
    let pp = positions;
    let ii = indices;
    lemma_lin_delin(ss, cx, cy, cz);
    lemma_cell_count_le(ss, pp, ii, l, t);
    lemma_cell_count_monotone(ss, pp, ii, l, t + 1, n);
    lemma_window_in_array(ss, pp, ii, n, l);
    let idx = pcur[l] as int;
    assert(!ss.visited_before(pp, ii, t, cx, cy, cz, cx, cy, cz));
    assert(pcur[l] as int == offsets[l] as int + ss.cell_count(pp, ii, l, t));
    assert(idx < ss.cell_offset(pp, ii, n, l) + ss.cell_count(pp, ii, l, n));
    assert(0 <= idx < prefs.len());
    assert(refs[idx] == tt);
    // window bounds and disjointness, per cell
    assert forall|l2: int| 0 <= l2 < ss.ncells() && l2 != l implies (#[trigger] pcur[l2]) as int
        <= ss.cell_offset(pp, ii, n, l2 + 1) && pcur[l2] as int <= prefs.len() && (l2 < l
        ==> ss.cell_offset(pp, ii, n, l2 + 1) <= idx) && (l2 > l ==> idx < ss.cell_offset(
        pp, ii, n, l2)) && offsets[l2] as int <= pcur[l2] as int && !(ss.cell_x(l2) == cx
        && ss.cell_y(l2) == cy && ss.cell_z(l2) == cz) by {
        lemma_delin_lin(ss, l2);
        lemma_cell_count_le(ss, pp, ii, l2, t);
        lemma_cell_count_monotone(ss, pp, ii, l2, t, n);
        lemma_cell_count_monotone(ss, pp, ii, l2, t + 1, n);
        lemma_window_in_array(ss, pp, ii, n, l2);
        if l2 < l {
            lemma_offset_monotone(ss, pp, ii, n, l2 + 1, l);
        } else {
            lemma_offset_monotone(ss, pp, ii, n, l + 1, l2);
        }
    }
    // cursor accounting
    assert forall|l2: int| 0 <= l2 < ss.ncells() implies #[trigger] cursors[l2] as int
        == offsets[l2] as int + ss.counted_upto(pp, ii, t, l2, cx + 1, cy, cz) by {
        lemma_delin_lin(ss, l2);
    }
    // soundness
    assert forall|l2: int, i: int|
        #![trigger refs[i], cursors[l2]]
        0 <= l2 < ss.ncells() && offsets[l2] as int <= i < cursors[l2] as int implies ((refs[i]
        as int) < t && ss.overlaps_lin(pp, ii, refs[i] as int, l2)) || ((refs[i] as int) == t
        && ss.visited_before(
        pp,
        ii,
        t,
        ss.cell_x(l2),
        ss.cell_y(l2),
        ss.cell_z(l2),
        cx + 1,
        cy,
        cz,
    )) by {
        lemma_delin_lin(ss, l2);
        if l2 == l {
            if i == idx {
                assert(refs[i] == tt);
            } else {
                assert(refs[i] == prefs[i]);
                assert(offsets[l2] as int <= i < pcur[l2] as int);
            }
        } else {
            assert(pcur[l2] as int <= prefs.len());
            assert(i != idx);
            assert(0 <= i < prefs.len());
            assert(refs[i] == prefs[i]);
        }
    }
    // completeness for triangles before t
    assert forall|l2: int, tp: int|
        0 <= l2 < ss.ncells() && 0 <= tp < t && #[trigger] ss.overlaps_lin(pp, ii, tp, l2)
        implies exists|i: int|
        offsets[l2] as int <= i < cursors[l2] as int && (#[trigger] refs[i]) as int == tp by {
        lemma_delin_lin(ss, l2);
        let iw = choose|i: int|
            offsets[l2] as int <= i < pcur[l2] as int && (#[trigger] prefs[i]) as int == tp;
        assert(prefs[iw] as int == tp);
        if l2 == l {
            assert(iw < idx);
        } else {
            assert(pcur[l2] as int <= prefs.len());
            assert(iw != idx);
        }
        assert(0 <= iw < prefs.len());
        assert(refs[iw] == prefs[iw]);
        assert(offsets[l2] as int <= iw < cursors[l2] as int && refs[iw] as int == tp);
    }
    // completeness for triangle t itself
    assert forall|l2: int|
        #![trigger ss.cell_x(l2)]
        #![trigger cursors[l2]]
        0 <= l2 < ss.ncells() && ss.visited_before(
        pp,
        ii,
        t,
        ss.cell_x(l2),
        ss.cell_y(l2),
        ss.cell_z(l2),
        cx + 1,
        cy,
        cz,
    ) implies exists|i: int|
        (#[trigger] cursors[l2]) as int > i >= offsets[l2] as int && (#[trigger] refs[i]) as int
        == t by {
        lemma_delin_lin(ss, l2);
        if l2 == l {
            assert(cursors[l2] as int > idx >= offsets[l2] as int && refs[idx] as int == t);
        } else {
            assert(ss.visited_before(
                pp,
                ii,
                t,
                ss.cell_x(l2),
                ss.cell_y(l2),
                ss.cell_z(l2),
                cx,
                cy,
                cz,
            ));
            let iw = choose|i: int|
                pcur[l2] as int > i >= offsets[l2] as int && (#[trigger] prefs[i]) as int == t;
            assert(prefs[iw] as int == t);
            assert(pcur[l2] as int <= prefs.len());
            assert(iw != idx);
            assert(0 <= iw < prefs.len());
            assert(refs[iw] == prefs[iw]);
            assert(cursors[l2] as int > iw >= offsets[l2] as int && refs[iw] as int == t);
        }
    }
    // no triangle twice in one window
    assert forall|l2: int, i1: int, i2: int|
        #![trigger refs[i1], refs[i2], cursors[l2]]
        0 <= l2 < ss.ncells() && offsets[l2] as int <= i1 < cursors[l2] as int && offsets[l2]
        as int <= i2 < cursors[l2] as int && i1 != i2 implies refs[i1] != refs[i2] by {
        lemma_delin_lin(ss, l2);
        if l2 == l {
            if i1 == idx {
                assert(offsets[l2] as int <= i2 < pcur[l2] as int);
                assert(refs[i2] == prefs[i2]);
                assert((prefs[i2] as int) < t);
            } else if i2 == idx {
                assert(offsets[l2] as int <= i1 < pcur[l2] as int);
                assert(refs[i1] == prefs[i1]);
                assert((prefs[i1] as int) < t);
            } else {
                assert(refs[i1] == prefs[i1] && refs[i2] == prefs[i2]);
            }
        } else {
            assert(pcur[l2] as int <= prefs.len());
            assert(i1 != idx && i2 != idx);
            assert(0 <= i1 < prefs.len() && 0 <= i2 < prefs.len());
            assert(refs[i1] == prefs[i1] && refs[i2] == prefs[i2]);
        }
    }
}

/// Moving the walk cursor without touching any cell keeps the scatter state,
/// provided the set of visited range-box cells is unchanged.
proof fn lemma_scatter_shift(
    ss: GridSpace,
    positions: Seq<i32>,
    indices: Seq<u32>,
    offsets: Seq<u32>,
    cursors: Seq<u32>,
    refs: Seq<u32>,
    t: int,
    ax: int,
    ay: int,
    az: int,
    bx: int,
    by: int,
    bz: int,
)
    requires
        scatter_mid(ss, positions, indices, offsets, cursors, refs, t, ax, ay, az),
        forall|l: int|
            0 <= l < ss.ncells() ==> ss.visited_before(
                positions,
                indices,
                t,
                ss.cell_x(l),
                ss.cell_y(l),
                ss.cell_z(l),
                ax,
                ay,
                az,
            ) == ss.visited_before(
                positions,
                indices,
                t,
                #[trigger] ss.cell_x(l),
                ss.cell_y(l),
                ss.cell_z(l),
                bx,
                by,
                bz,
            ),
    ensures
        scatter_mid(ss, positions, indices, offsets, cursors, refs, t, bx, by, bz),
{
    let pp = positions;
    let ii = indices;
    assert forall|l: int| 0 <= l < ss.ncells() implies #[trigger] cursors[l] as int == offsets[l]
        as int + ss.counted_upto(pp, ii, t, l, bx, by, bz) by {
        // mentioning the cell's coordinates fires the visited-set equivalence
        assert(ss.cell_x(l) == ss.cell_x(l));
    }
    assert forall|l2: int, i: int|
        #![trigger refs[i], cursors[l2]]
        0 <= l2 < ss.ncells() && offsets[l2] as int <= i < cursors[l2] as int implies ((refs[i]
        as int) < t && ss.overlaps_lin(pp, ii, refs[i] as int, l2)) || ((refs[i] as int) == t
        && ss.visited_before(
        pp,
        ii,
        t,
        ss.cell_x(l2),
        ss.cell_y(l2),
        ss.cell_z(l2),
        bx,
        by,
        bz,
    )) by {
        // mentioning the cell's coordinates fires the visited-set equivalence
        assert(ss.cell_x(l2) == ss.cell_x(l2));
    }
    assert forall|l2: int|
        #![trigger ss.cell_x(l2)]
        #![trigger cursors[l2]]
        0 <= l2 < ss.ncells() && ss.visited_before(
        pp,
        ii,
        t,
        ss.cell_x(l2),
        ss.cell_y(l2),
        ss.cell_z(l2),
        bx,
        by,
        bz,
    ) implies exists|i: int|
        (#[trigger] cursors[l2]) as int > i >= offsets[l2] as int && (#[trigger] refs[i]) as int
        == t by {
        assert(ss.visited_before(
            pp,
            ii,
            t,
            ss.cell_x(l2),
            ss.cell_y(l2),
            ss.cell_z(l2),
            ax,
            ay,
            az,
        ));
        assert(exists|i: int|
            (#[trigger] cursors[l2]) as int > i >= offsets[l2] as int && (#[trigger] refs[i])
                as int == t);
        let iw = choose|i: int|
            (#[trigger] cursors[l2]) as int > i >= offsets[l2] as int && (#[trigger] refs[i])
                as int == t;
        assert((cursors[l2] as int) > iw >= offsets[l2] as int && refs[iw] as int == t);
    }
}

/// Walk triangle `t`'s clamped cell range in x-fastest order, claiming the
/// next free slot of every visited cell's window and writing `t` there.
#[verifier::rlimit(100)]
fn scatter_triangle(
    positions: &Vec<i32>,
    indices: &Vec<u32>,
    t: usize,
    space: &GridSpace,
    offsets: &Vec<u32>,
    cursors: &mut Vec<u32>,
    refs: &mut Vec<u32>,
    Ghost(n): Ghost<int>,
)
    requires
        scatter_frame(*space, positions@, indices@, n, offsets@, refs@.len() as int),
        (t as int) < n,
        old(cursors)@.len() == space.ncells(),
        scatter_done(*space, positions@, indices@, offsets@, old(cursors)@, old(refs)@, t as int),
    ensures
        final(cursors)@.len() == space.ncells(),
        final(refs)@.len() == old(refs)@.len(),
        scatter_done(
            *space,
            positions@,
            indices@,
            offsets@,
            final(cursors)@,
            final(refs)@,
            t as int + 1,
        ),
{
    let ghost pp = positions@;
    let ghost ii = indices@;
    let ghost ss = *space;
    let ghost ti = t as int;
    proof {
        assert(3 * (t as int) + 3 <= 3 * n);
    }
    let (lo, hi) = cell_range(space, positions, indices, t);
    let lx = lo[0];
    let ly = lo[1];
    let lz = lo[2];
    let hx = hi[0];
    let hy = hi[1];
    let hz = hi[2];
    proof {
        assert forall|l: int| 0 <= l < ss.ncells() implies #[trigger] cursors@[l] as int
            == offsets@[l] as int + ss.counted_upto(pp, ii, ti, l, lx as int, ly as int, lz as int)
            by {
            lemma_delin_lin(ss, l);
        }
        assert forall|l: int| 0 <= l < ss.ncells() implies !ss.visited_before(
            pp,
            ii,
            ti,
            ss.cell_x(l),
            ss.cell_y(l),
            ss.cell_z(l),
            lx as int,
            ly as int,
            lz as int,
        ) by {
            lemma_delin_lin(ss, l);
        }
        assert(scatter_mid(ss, pp, ii, offsets@, cursors@, refs@, ti, lx as int, ly as int, lz as int));
    }
    let mut cz = lz;
    while cz <= hz
        invariant
            lz <= cz,
            cz as int <= hz as int + 1,
            cursors@.len() == ss.ncells(),
            refs@.len() == old(refs)@.len(),
            scatter_mid(ss, pp, ii, offsets@, cursors@, refs@, ti, lx as int, ly as int, cz as int),
        decreases hz as int + 1 - cz as int,
    {
        let mut cy = ly;
        while cy <= hy
            invariant
                ly <= cy,
                cy as int <= hy as int + 1,
                lz <= cz <= hz,
                cursors@.len() == ss.ncells(),
                refs@.len() == old(refs)@.len(),
                scatter_mid(ss, pp, ii, offsets@, cursors@, refs@, ti, lx as int, cy as int, cz as int),
            decreases hy as int + 1 - cy as int,
        {
            let mut cx = lx;
            while cx <= hx
                invariant
                    lx <= cx,
                    cx as int <= hx as int + 1,
                    ly <= cy <= hy,
                    lz <= cz <= hz,
                    cursors@.len() == ss.ncells(),
                    refs@.len() == old(refs)@.len(),
                    scatter_mid(ss, pp, ii, offsets@, cursors@, refs@, ti, cx as int, cy as int, cz as int),
                decreases hx as int + 1 - cx as int,
            {
                let l = cell_linear(space, cx, cy, cz);
                let ghost pcur = cursors@;
                let ghost prefs = refs@;
                proof {
                    lemma_lin_delin(ss, cx as int, cy as int, cz as int);
                    lemma_cell_count_le(ss, pp, ii, l as int, ti);
                    lemma_cell_count_monotone(ss, pp, ii, l as int, ti + 1, n);
                    lemma_window_in_array(ss, pp, ii, n, l as int);
                    assert(ss.overlaps(pp, ii, ti, cx as int, cy as int, cz as int));
                    assert(!ss.visited_before(pp, ii, ti, cx as int, cy as int, cz as int, cx as int, cy as int, cz as int));
                    assert(cursors@[l as int] as int == offsets@[l as int] as int + ss.cell_count(
                        pp,
                        ii,
                        l as int,
                        ti,
                    ));
                    assert((cursors@[l as int] as int) < refs@.len());
                }
                let cur = cursors[l];
                let idx = cur as usize;
                refs[idx] = t as u32;
                let next = cur + 1;
                cursors[l] = next;
                proof {
                    lemma_scatter_write(
                        ss,
                        pp,
                        ii,
                        n,
                        offsets@,
                        pcur,
                        prefs,
                        cursors@,
                        refs@,
                        ti,
                        t as u32,
                        next,
                        cx as int,
                        cy as int,
                        cz as int,
                        l as int,
                    );
                }
                cx = cx + 1;
            }
            proof {
                assert forall|l2: int| 0 <= l2 < ss.ncells() implies ss.visited_before(
                    pp,
                    ii,
                    ti,
                    #[trigger] ss.cell_x(l2),
                    ss.cell_y(l2),
                    ss.cell_z(l2),
                    cx as int,
                    cy as int,
                    cz as int,
                ) == ss.visited_before(
                    pp,
                    ii,
                    ti,
                    ss.cell_x(l2),
                    ss.cell_y(l2),
                    ss.cell_z(l2),
                    lx as int,
                    cy as int + 1,
                    cz as int,
                ) by {
                    lemma_delin_lin(ss, l2);
                }
                lemma_scatter_shift(
                    ss,
                    pp,
                    ii,
                    offsets@,
                    cursors@,
                    refs@,
                    ti,
                    cx as int,
                    cy as int,
                    cz as int,
                    lx as int,
                    cy as int + 1,
                    cz as int,
                );
            }
            cy = cy + 1;
        }
        proof {
            assert forall|l2: int| 0 <= l2 < ss.ncells() implies ss.visited_before(
                pp,
                ii,
                ti,
                #[trigger] ss.cell_x(l2),
                ss.cell_y(l2),
                ss.cell_z(l2),
                lx as int,
                cy as int,
                cz as int,
            ) == ss.visited_before(
                pp,
                ii,
                ti,
                ss.cell_x(l2),
                ss.cell_y(l2),
                ss.cell_z(l2),
                lx as int,
                ly as int,
                cz as int + 1,
            ) by {
                lemma_delin_lin(ss, l2);
            }
            lemma_scatter_shift(
                ss,
                pp,
                ii,
                offsets@,
                cursors@,
                refs@,
                ti,
                lx as int,
                cy as int,
                cz as int,
                lx as int,
                ly as int,
                cz as int + 1,
            );
        }
        cz = cz + 1;
    }
    proof {
        assert forall|l2: int| 0 <= l2 < ss.ncells() implies ss.visited_before(
            pp,
            ii,
            ti,
            #[trigger] ss.cell_x(l2),
            ss.cell_y(l2),
            ss.cell_z(l2),
            lx as int,
            ly as int,
            cz as int,
        ) == ss.overlaps_lin(pp, ii, ti, l2) by {
            lemma_delin_lin(ss, l2);
        }
        assert forall|l2: int| 0 <= l2 < ss.ncells() implies #[trigger] cursors@[l2] as int
            == offsets@[l2] as int + ss.cell_count(pp, ii, l2, ti + 1) by {
            lemma_delin_lin(ss, l2);
        }
        assert forall|l2: int, tp: int|
            0 <= l2 < ss.ncells() && 0 <= tp < ti + 1 && #[trigger] ss.overlaps_lin(pp, ii, tp, l2)
            implies exists|i: int|
            offsets@[l2] as int <= i < cursors@[l2] as int && (#[trigger] refs@[i]) as int == tp
            by {
            lemma_delin_lin(ss, l2);
            if tp == ti {
                let iw = choose|i: int|
                    cursors@[l2] as int > i >= offsets@[l2] as int && (#[trigger] refs@[i]) as int
                        == ti;
                assert(offsets@[l2] as int <= iw < cursors@[l2] as int && refs@[iw] as int == tp);
            }
        }
        assert(scatter_done(ss, pp, ii, offsets@, cursors@, refs@, ti + 1));
    }
}

/// Prefix-sum and compaction pass.
///
/// Turns the per-cell counts into exclusive start offsets, then re-walks
/// every triangle's clamped cell range with the identical overlap predicate
/// and scatters each (triangle, cell) pair into the cell's reserved window.
/// Returns `None` exactly when the total reference count does not fit the
/// 32-bit offsets of the layout.
pub fn write_pairs(
    positions: &Vec<i32>,
    indices: &Vec<u32>,
    triangle_count: usize,
    space: &GridSpace,
    counts: &Vec<u32>,
) -> (r: Option<(Vec<Cell>, Vec<u32>)>)
    requires
        1 <= triangle_count <= u32::MAX,
        valid_triangles(positions@, indices@, triangle_count as int),
        space.wf(),
        space.bbox.contains_mesh(positions@, indices@, triangle_count as int),
        counts@.len() == space.ncells(),
        forall|l: int|
            0 <= l < space.ncells() ==> #[trigger] counts@[l] as int == space.cell_count(
                positions@,
                indices@,
                l,
                triangle_count as int,
            ),
    ensures
        r is Some <==> space.cell_offset(
            positions@,
            indices@,
            triangle_count as int,
            space.ncells(),
        ) <= u32::MAX,
        r matches Some(out) ==> ({
            &&& out.0@.len() == space.ncells()
            &&& forall|l: int|
                0 <= l < space.ncells() ==> #[trigger] out.0@[l].offset as int == space.cell_offset(
                    positions@,
                    indices@,
                    triangle_count as int,
                    l,
                ) && out.0@[l].count == counts@[l]
            &&& out.1@.len() == space.cell_offset(
                positions@,
                indices@,
                triangle_count as int,
                space.ncells(),
            )
            &&& references_valid(
                *space,
                positions@,
                indices@,
                triangle_count as int,
                out.0@,
                out.1@,
            )
        }),
{
    let ghost pp = positions@;
    let ghost ii = indices@;
    let ghost ss = *space;
    let ghost n = triangle_count as int;
    let nc = cell_total(space);
    // exclusive prefix sum over the counts, in linear cell order
    let mut offsets: Vec<u32> = Vec::new();
    let mut sum: u64 = 0;
    let mut l: usize = 0;
    while l < nc
        invariant
            l <= nc,
            offsets@.len() == l,
            sum as int == ss.cell_offset(pp, ii, n, l as int),
            sum <= 0xFFFF_FFFFu64,
            forall|l2: int|
                0 <= l2 < l ==> #[trigger] offsets@[l2] as int == ss.cell_offset(pp, ii, n, l2),
        decreases nc - l,
    {
        offsets.push(sum as u32);
        sum = sum + (counts[l] as u64);
        if sum > 0xFFFF_FFFF {
            proof {
                lemma_offset_monotone(ss, pp, ii, n, l as int + 1, ss.ncells());
            }
            return None;
        }
        l = l + 1;
    }
    let total = sum as usize;
    proof {
        assert(total as int == ss.cell_offset(pp, ii, n, ss.ncells()));
    }
    // the references array, zero-filled; every slot is claimed exactly once
    let mut refs: Vec<u32> = Vec::new();
    let mut i: usize = 0;
    while i < total
        invariant
            refs@.len() == i,
            i <= total,
        decreases total - i,
    {
        refs.push(0);
        i = i + 1;
    }
    // one write cursor per cell, starting at the cell's offset
    let mut cursors: Vec<u32> = Vec::new();
    let mut j: usize = 0;
    while j < nc
        invariant
            cursors@.len() == j,
            j <= nc,
            forall|l2: int| 0 <= l2 < j ==> #[trigger] cursors@[l2] == offsets@[l2],
        decreases nc - j,
    {
        cursors.push(offsets[j]);
        j = j + 1;
    }
    proof {
        assert forall|l2: int| 0 <= l2 < ss.ncells() implies #[trigger] cursors@[l2] as int
            == offsets@[l2] as int + ss.cell_count(pp, ii, l2, 0) by {
        }
        assert(scatter_done(ss, pp, ii, offsets@, cursors@, refs@, 0));
    }
    let mut t: usize = 0;
    while t < triangle_count
        invariant
            t <= triangle_count,
            cursors@.len() == ss.ncells(),
            refs@.len() == total,
            scatter_done(ss, pp, ii, offsets@, cursors@, refs@, t as int),
        decreases triangle_count - t,
    {
        scatter_triangle(positions, indices, t, space, &offsets, &mut cursors, &mut refs, Ghost(n));
        t = t + 1;
    }
    // assemble the cell records
    let mut cells: Vec<Cell> = Vec::new();
    let mut k: usize = 0;
    while k < nc
        invariant
            cells@.len() == k,
            k <= nc,
            forall|l2: int|
                0 <= l2 < k ==> #[trigger] cells@[l2] == (Cell {
                    offset: offsets@[l2],
                    count: counts@[l2],
                }),
        decreases nc - k,
    {
        cells.push(Cell { offset: offsets[k], count: counts[k] });
        k = k + 1;
    }
    proof {
        assert forall|l2: int, i2: int|
            #![trigger refs@[i2], cells@[l2]]
            0 <= l2 < ss.ncells() && cells@[l2].offset as int <= i2 < cells@[l2].offset as int
            + cells@[l2].count as int implies (refs@[i2] as int) < n && ss.overlaps_lin(
            pp,
            ii,
            refs@[i2] as int,
            l2,
        ) by {
            assert(cursors@[l2] as int == offsets@[l2] as int + ss.cell_count(pp, ii, l2, n));
            assert(offsets@[l2] as int <= i2 < cursors@[l2] as int);
        }
        assert forall|l2: int, tp: int|
            0 <= l2 < ss.ncells() && 0 <= tp < n && #[trigger] ss.overlaps_lin(pp, ii, tp, l2)
            implies exists|i2: int|
            cells@[l2].offset as int <= i2 < cells@[l2].offset as int + cells@[l2].count as int
            && (#[trigger] refs@[i2]) as int == tp by {
            assert(cursors@[l2] as int == offsets@[l2] as int + ss.cell_count(pp, ii, l2, n));
            let iw = choose|i2: int|
                offsets@[l2] as int <= i2 < cursors@[l2] as int && (#[trigger] refs@[i2]) as int
                    == tp;
            assert(cells@[l2].offset as int <= iw < cells@[l2].offset as int + cells@[l2].count
                as int && refs@[iw] as int == tp);
        }
        assert forall|l2: int, i1: int, i2: int|
            #![trigger refs@[i1], refs@[i2], cells@[l2]]
            0 <= l2 < ss.ncells() && cells@[l2].offset as int <= i1 < cells@[l2].offset as int
            + cells@[l2].count as int && cells@[l2].offset as int <= i2 < cells@[l2].offset
            as int + cells@[l2].count as int && i1 != i2 implies refs@[i1] != refs@[i2] by {
            assert(cursors@[l2] as int == offsets@[l2] as int + ss.cell_count(pp, ii, l2, n));
            assert(offsets@[l2] as int <= i1 < cursors@[l2] as int);
            assert(offsets@[l2] as int <= i2 < cursors@[l2] as int);
        }
        assert(references_valid(ss, pp, ii, n, cells@, refs@));
    }
    Some((cells, refs))
}

} // verus!
