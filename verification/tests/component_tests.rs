use uniform_grid::bbox::{calculate_bbox, BBox};
use uniform_grid::pair_counter::{count_pairs, count_total_pairs};
use uniform_grid::pair_writer::write_pairs;
use uniform_grid::resolution::{calc_grid_resolution, iroot};
use uniform_grid::space::{cell_range, cell_total, GridSpace};

#[test]
fn bbox_is_tight_over_referenced_vertices() {
    let positions: Vec<i32> = vec![-5, 2, 3, 7, -1, 0, 0, 4, -2];
    let indices: Vec<u32> = vec![0, 1, 2];
    let bbox = calculate_bbox(&positions, &indices, 1);
    assert_eq!(bbox.min, [-5, -1, -2]);
    assert_eq!(bbox.max, [7, 4, 3]);
}

#[test]
fn bbox_ignores_unreferenced_vertices() {
    // the fourth vertex is far away but no triangle references it
    let positions: Vec<i32> = vec![0, 0, 0, 2, 0, 0, 0, 3, 0, 9999, 9999, 9999];
    let indices: Vec<u32> = vec![0, 1, 2];
    let bbox = calculate_bbox(&positions, &indices, 1);
    assert_eq!(bbox.max, [2, 3, 0]);
}

#[test]
fn resolution_of_unit_cube_with_thousand_triangles() {
    // k solves k^3 == 5 * 1000 / 1, so each axis gets floor(cbrt(5000)) == 17
    assert_eq!(calc_grid_resolution([1000, 1000, 1000], 1000), Some([17, 17, 17]));
}

#[test]
fn resolution_clamps_degenerate_axes() {
    assert_eq!(calc_grid_resolution([1, 1, 0], 1), Some([2, 2, 1]));
    assert_eq!(calc_grid_resolution([0, 0, 0], 7), Some([1, 1, 1]));
}

#[test]
fn resolution_single_positive_axis() {
    // with one positive axis, k == 5n / extent and the axis gets 5n cells
    assert_eq!(calc_grid_resolution([10, 0, 0], 4), Some([20, 1, 1]));
}

#[test]
fn integer_roots() {
    assert_eq!(iroot(0, 2), 0);
    assert_eq!(iroot(5, 2), 2);
    assert_eq!(iroot(4999, 3), 17);
    assert_eq!(iroot(5832, 3), 18);
    assert_eq!(iroot(123, 1), 123);
}

fn demo_space() -> GridSpace {
    GridSpace { bbox: BBox { min: [0, 0, 0], max: [10, 10, 10] }, resolution: [5, 5, 5] }
}

#[test]
fn cell_range_clamps_to_grid() {
    let positions: Vec<i32> = vec![0, 0, 0, 10, 3, 3, 5, 3, 3];
    let indices: Vec<u32> = vec![0, 1, 2];
    let space = demo_space();
    let (lo, hi) = cell_range(&space, &positions, &indices, 0);
    // x spans the whole box: indices 0 through 4 after clamping
    assert_eq!(lo, [0, 0, 0]);
    assert_eq!(hi, [4, 1, 1]);
}

#[test]
fn counts_and_totals_agree() {
    let positions: Vec<i32> = vec![0, 0, 0, 10, 3, 3, 5, 3, 3, 0, 0, 0, 1, 1, 1, 1, 0, 1];
    let indices: Vec<u32> = vec![0, 1, 2, 3, 4, 5];
    let space = demo_space();
    let counts = count_pairs(&positions, &indices, 2, &space);
    assert_eq!(counts.len(), cell_total(&space));
    let total = count_total_pairs(&positions, &indices, 2, &space);
    assert_eq!(counts.iter().map(|&c| c as u64).sum::<u64>(), total);
}

#[test]
fn write_pairs_fills_every_reserved_slot() {
    let positions: Vec<i32> = vec![0, 0, 0, 10, 3, 3, 5, 3, 3, 0, 0, 0, 1, 1, 1, 1, 0, 1];
    let indices: Vec<u32> = vec![0, 1, 2, 3, 4, 5];
    let space = demo_space();
    let counts = count_pairs(&positions, &indices, 2, &space);
    let (cells, refs) = write_pairs(&positions, &indices, 2, &space, &counts).expect(
        "totals fit comfortably",
    );
    assert_eq!(cells.len(), counts.len());
    let mut running: u64 = 0;
    for (cell, &count) in cells.iter().zip(counts.iter()) {
        assert_eq!(cell.offset as u64, running);
        assert_eq!(cell.count, count);
        running += count as u64;
    }
    assert_eq!(running, refs.len() as u64);
    // triangle 1 is tiny: it sits in exactly one cell
    let occurrences: usize = refs.iter().filter(|&&r| r == 1).count();
    assert_eq!(occurrences, 1);
}
