use uniform_grid::grid::{BuildError, GridBuilder};

#[test]
fn empty_mesh_rejected() {
    let builder = GridBuilder::new(Vec::new(), Vec::new(), 0);
    assert_eq!(builder.build().err(), Some(BuildError::EmptyMesh));
}

#[test]
fn too_many_triangles_rejected() {
    let builder = GridBuilder::new(vec![0, 0, 0], vec![0, 0, 0], (u32::MAX as usize) + 1);
    assert_eq!(builder.build().err(), Some(BuildError::TooManyTriangles));
}

#[test]
fn malformed_positions_rejected() {
    let builder = GridBuilder::new(vec![0, 0, 0, 1], vec![0, 0, 0], 1);
    assert_eq!(builder.build().err(), Some(BuildError::MalformedPositions));
}

#[test]
fn malformed_indices_rejected() {
    let positions: Vec<i32> = vec![0, 0, 0, 1, 0, 0, 0, 1, 0];
    let builder = GridBuilder::new(positions, vec![0, 1, 2, 0], 1);
    assert_eq!(builder.build().err(), Some(BuildError::MalformedIndices));
}

#[test]
fn index_out_of_bounds_rejected() {
    let positions: Vec<i32> = vec![0, 0, 0, 1, 0, 0, 0, 1, 0];
    let builder = GridBuilder::new(positions, vec![0, 1, 5], 1);
    assert_eq!(builder.build().err(), Some(BuildError::IndexOutOfBounds));
}

#[test]
fn coordinate_out_of_range_rejected() {
    // one coordinate one past the supported magnitude
    let positions: Vec<i32> = vec![0x1000_0001, 0, 0, 1, 0, 0, 0, 1, 0];
    let builder = GridBuilder::new(positions, vec![0, 1, 2], 1);
    assert_eq!(builder.build().err(), Some(BuildError::CoordinateOutOfRange));
}

/// Many triangles stretched across a maximal, nearly flat box push the
/// heuristic past 2^32 cells.
#[test]
fn grid_too_large_rejected() {
    let limit: i32 = 0x1000_0000;
    let positions: Vec<i32> = vec![-limit, -limit, 0, limit, limit, 1, limit, -limit, 0];
    let mut indices: Vec<u32> = Vec::with_capacity(3 * 200_000);
    for _ in 0..200_000 {
        indices.extend_from_slice(&[0, 1, 2]);
    }
    let builder = GridBuilder::new(positions, indices, 200_000);
    assert_eq!(builder.build().err(), Some(BuildError::GridTooLarge));
}

/// Thirty thousand box-filling triangles each overlap every cell, so the
/// total reference count overflows a 32-bit offset.
#[test]
fn too_many_references_rejected() {
    let positions: Vec<i32> = vec![0, 0, 0, 1000, 1000, 1000, 0, 0, 1000];
    let mut indices: Vec<u32> = Vec::with_capacity(3 * 30_000);
    for _ in 0..30_000 {
        indices.extend_from_slice(&[0, 1, 2]);
    }
    let builder = GridBuilder::new(positions, indices, 30_000);
    assert_eq!(builder.build().err(), Some(BuildError::TooManyReferences));
}

#[test]
fn boundary_coordinate_accepted() {
    // exactly at the supported magnitude on both sides
    let limit: i32 = 0x1000_0000;
    let positions: Vec<i32> = vec![-limit, 0, 0, limit, 1, 0, 0, 2, 0];
    let builder = GridBuilder::new(positions, vec![0, 1, 2], 1);
    assert!(builder.build().is_ok());
}
