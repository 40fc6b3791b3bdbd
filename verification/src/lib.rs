//! A uniform spatial grid over a triangle mesh.
//!
//! The grid indexes the triangles of a mesh for fast ray/primitive
//! intersection queries.  A bounding-box reduction, a per-cell overlap
//! counting pass and a prefix-sum + compaction pass produce, for every grid
//! cell, the compact list of triangles whose bounding box overlaps that
//! cell.  Vertex positions are integer (fixed-point) coordinates; every
//! derived quantity — extents, the density heuristic's resolution, cell
//! indices and the reference layout — is exact integer arithmetic.

#![verifier::loop_isolation(false)]

pub mod bbox;
pub mod grid;
pub mod mesh;
pub mod pair_counter;
pub mod pair_writer;
pub mod resolution;
pub mod space;
