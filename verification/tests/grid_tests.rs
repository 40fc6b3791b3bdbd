use uniform_grid::grid::GridBuilder;

/// One right triangle in the z = 0 plane: the box is flat in z, the z axis
/// clamps to a single cell, and the triangle lands in every cell its
/// two-dimensional footprint touches.
#[test]
fn single_flat_triangle() {
    let positions: Vec<i32> = vec![0, 0, 0, 1, 0, 0, 0, 1, 0];
    let indices: Vec<u32> = vec![0, 1, 2];
    let builder = GridBuilder::new(positions, indices, 1);
    let grid = builder.build().expect("build must succeed");
    assert_eq!(grid.bbox.min, [0, 0, 0]);
    assert_eq!(grid.bbox.max, [1, 1, 0]);
    // two positive axes: k solves k^2 == 5, so floor(1 * k) == 2 cells in x
    // and y; the degenerate z axis clamps to one cell
    assert_eq!(grid.resolution, [2, 2, 1]);
    assert_eq!(grid.cells.len(), 4);
    // the triangle's bounding box covers the whole grid footprint
    assert_eq!(grid.references.len(), 4);
    for (l, cell) in grid.cells.iter().enumerate() {
        assert_eq!(cell.count, 1);
        assert_eq!(cell.offset as usize, l);
    }
    for &r in grid.references.iter() {
        assert_eq!(r, 0);
    }
}

/// A thousand triangles spread uniformly through a cube: the density
/// heuristic picks floor((5 * 1000)^(1/3)) == 17 cells per axis, and the
/// conservative bounding-box overlap test only ever overcounts, so the
/// reference total stays at or above five per triangle.
#[test]
fn thousand_triangles_in_cube() {
    let mut positions: Vec<i32> = Vec::new();
    let mut indices: Vec<u32> = Vec::new();
    for i in 0..1000u32 {
        let bx = 100 * (i % 10) as i32;
        let by = 100 * ((i / 10) % 10) as i32;
        let bz = 100 * (i / 100) as i32;
        let base = positions.len() as u32 / 3;
        positions.extend_from_slice(&[bx, by, bz]);
        positions.extend_from_slice(&[bx + 100, by + 100, bz]);
        positions.extend_from_slice(&[bx, by + 100, bz + 100]);
        indices.extend_from_slice(&[base, base + 1, base + 2]);
    }
    let builder = GridBuilder::new(positions, indices, 1000);
    let grid = builder.build().expect("build must succeed");
    assert_eq!(grid.bbox.min, [0, 0, 0]);
    assert_eq!(grid.bbox.max, [1000, 1000, 1000]);
    assert_eq!(grid.resolution, [17, 17, 17]);
    assert_eq!(grid.cells.len(), 17 * 17 * 17);
    assert!(grid.references.len() >= 5000);
    // prefix-sum invariant over the whole cell array
    let mut running: u64 = 0;
    for cell in grid.cells.iter() {
        assert_eq!(cell.offset as u64, running);
        running += cell.count as u64;
    }
    assert_eq!(running, grid.references.len() as u64);
    // every reference names an existing triangle
    for &r in grid.references.iter() {
        assert!((r as usize) < 1000);
    }
    // no cell lists the same triangle twice
    for cell in grid.cells.iter() {
        let lo = cell.offset as usize;
        let hi = lo + cell.count as usize;
        let mut seen: Vec<u32> = grid.references[lo..hi].to_vec();
        seen.sort_unstable();
        seen.dedup();
        assert_eq!(seen.len(), cell.count as usize);
    }
}

/// A degenerate (single point) triangle still lands in exactly one cell.
#[test]
fn degenerate_point_triangle() {
    let positions: Vec<i32> = vec![5, 5, 5, 5, 5, 5, 5, 5, 5];
    let indices: Vec<u32> = vec![0, 1, 2];
    let builder = GridBuilder::new(positions, indices, 1);
    let grid = builder.build().expect("build must succeed");
    assert_eq!(grid.resolution, [1, 1, 1]);
    assert_eq!(grid.cells.len(), 1);
    assert_eq!(grid.cells[0].offset, 0);
    assert_eq!(grid.cells[0].count, 1);
    assert_eq!(grid.references, vec![0]);
}

/// Building twice from the same mesh gives identical grids.
#[test]
fn rebuild_is_identical() {
    let positions: Vec<i32> = vec![-8, 0, 3, 12, 5, -2, 4, 9, 7, 0, -6, 1];
    let indices: Vec<u32> = vec![0, 1, 2, 1, 2, 3];
    let b1 = GridBuilder::new(positions.clone(), indices.clone(), 2);
    let b2 = GridBuilder::new(positions, indices, 2);
    let g1 = b1.build().expect("build must succeed");
    let g2 = b2.build().expect("build must succeed");
    assert_eq!(g1.bbox, g2.bbox);
    assert_eq!(g1.resolution, g2.resolution);
    assert_eq!(g1.cell_size, g2.cell_size);
    assert_eq!(g1.cells, g2.cells);
    assert_eq!(g1.references, g2.references);
}

/// The cell size is the exact rational extent / resolution.
#[test]
fn cell_size_is_extent_over_resolution() {
    let positions: Vec<i32> = vec![0, 0, 0, 1, 0, 0, 0, 1, 0];
    let indices: Vec<u32> = vec![0, 1, 2];
    let grid = GridBuilder::new(positions, indices, 1).build().expect("build must succeed");
    assert_eq!(grid.cell_size[0].num, 1);
    assert_eq!(grid.cell_size[0].den, 2);
    assert_eq!(grid.cell_size[2].num, 0);
    assert_eq!(grid.cell_size[2].den, 1);
}

/// A triangle overlapping several cells is listed once in each of them.
#[test]
fn triangle_spanning_cells_listed_everywhere() {
    // a long thin pair of triangles along x so the heuristic splits x
    let positions: Vec<i32> = vec![0, 0, 0, 1000, 1, 1, 500, 0, 1, 0, 1, 0];
    let indices: Vec<u32> = vec![0, 1, 2, 0, 2, 3];
    let grid = GridBuilder::new(positions, indices, 2).build().expect("build must succeed");
    // triangle 0 spans the whole x extent, so it must appear in every cell
    // of every x column it overlaps; check it is listed at least once
    let occurrences: usize = grid.references.iter().filter(|&&r| r == 0).count();
    assert!(occurrences >= 1);
    // both triangles are listed somewhere
    assert!(grid.references.iter().any(|&r| r == 1));
    // prefix-sum invariant
    let mut running: u64 = 0;
    for cell in grid.cells.iter() {
        assert_eq!(cell.offset as u64, running);
        running += cell.count as u64;
    }
    assert_eq!(running, grid.references.len() as u64);
}

/// Cross-check the whole layout against an independent recomputation: map
/// each triangle's bounding box to its clamped cell range, then compare the
/// per-cell counts and the per-cell reference sets cell by cell.
#[test]
fn layout_matches_independent_recount() {
    let mut positions: Vec<i32> = Vec::new();
    let mut indices: Vec<u32> = Vec::new();
    // an irregular mesh: lattice triangles of varying sizes plus slivers
    for i in 0..200u32 {
        let bx = ((i * 37) % 97) as i32 * 7 - 300;
        let by = ((i * 53) % 89) as i32 * 9 - 250;
        let bz = ((i * 71) % 83) as i32 * 5 - 100;
        let sx = 1 + (i % 40) as i32 * 6;
        let sy = 1 + (i % 23) as i32 * 8;
        let sz = (i % 17) as i32 * 4;
        let base = positions.len() as u32 / 3;
        positions.extend_from_slice(&[bx, by, bz]);
        positions.extend_from_slice(&[bx + sx, by, bz + sz]);
        positions.extend_from_slice(&[bx, by + sy, bz]);
        indices.extend_from_slice(&[base, base + 1, base + 2]);
    }
    let n = 200usize;
    let grid = GridBuilder::new(positions.clone(), indices.clone(), n)
        .build()
        .expect("build must succeed");

    let [nx, ny, nz] = grid.resolution;
    let ncells = (nx as usize) * (ny as usize) * (nz as usize);
    assert_eq!(grid.cells.len(), ncells);

    let cell_of = |p: i64, axis: usize| -> u32 {
        let bmin = grid.bbox.min[axis] as i64;
        let ext = grid.bbox.max[axis] as i64 - bmin;
        let res = grid.resolution[axis] as i64;
        if ext == 0 {
            return 0;
        }
        let raw = (p - bmin) * res / ext;
        raw.clamp(0, res - 1) as u32
    };
    let mut expected: Vec<Vec<u32>> = vec![Vec::new(); ncells];
    for t in 0..n {
        let v = |j: usize, a: usize| positions[3 * indices[3 * t + j] as usize + a] as i64;
        for a in 0..3 {
            let lo = v(0, a).min(v(1, a)).min(v(2, a));
            let hi = v(0, a).max(v(1, a)).max(v(2, a));
            assert!(grid.bbox.min[a] as i64 <= lo && hi <= grid.bbox.max[a] as i64);
        }
        let lo: Vec<u32> = (0..3).map(|a| cell_of(v(0, a).min(v(1, a)).min(v(2, a)), a)).collect();
        let hi: Vec<u32> = (0..3).map(|a| cell_of(v(0, a).max(v(1, a)).max(v(2, a)), a)).collect();
        for cz in lo[2]..=hi[2] {
            for cy in lo[1]..=hi[1] {
                for cx in lo[0]..=hi[0] {
                    let l = cx as usize + nx as usize * (cy as usize + ny as usize * cz as usize);
                    expected[l].push(t as u32);
                }
            }
        }
    }
    for (l, cell) in grid.cells.iter().enumerate() {
        assert_eq!(cell.count as usize, expected[l].len(), "count of cell {}", l);
        let lo = cell.offset as usize;
        let hi = lo + cell.count as usize;
        let mut listed: Vec<u32> = grid.references[lo..hi].to_vec();
        listed.sort_unstable();
        assert_eq!(listed, expected[l], "references of cell {}", l);
    }
    assert_eq!(
        grid.references.len(),
        expected.iter().map(|v| v.len()).sum::<usize>()
    );
}

/// A consumer's lookup: the record read for a point is the record of the
/// cell that contains the point.
#[test]
fn lookup_reads_the_containing_cell() {
    let positions: Vec<i32> = vec![0, 0, 0, 1, 0, 0, 0, 1, 0];
    let indices: Vec<u32> = vec![0, 1, 2];
    let grid = GridBuilder::new(positions, indices, 1).build().expect("build must succeed");
    // a two-by-two-by-one grid: every cell holds the single triangle
    assert_eq!(grid.cell_record_at([0, 0, 0]), grid.cells[0]);
    assert_eq!(grid.cell_record_at([1, 0, 0]), grid.cells[1]);
    assert_eq!(grid.cell_record_at([0, 1, 0]), grid.cells[2]);
    assert_eq!(grid.cell_record_at([1, 1, 0]), grid.cells[3]);
    for p in [[0, 0, 0], [1, 1, 0]] {
        let record = grid.cell_record_at(p);
        let lo = record.offset as usize;
        let hi = lo + record.count as usize;
        assert!(grid.references[lo..hi].contains(&0));
    }
}
