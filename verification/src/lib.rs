//! Flat spatial partitioning: two-dimensional indexes built on grids of cells
//! rather than on trees.
//!
//! World coordinates are integers. A grid tiles the plane with square cells of
//! a configurable side; `Grid` indexes points and applies moves and removals
//! lazily, `AABBGrid` and `ShapeGrid` index objects with an extent and apply
//! every change at once.
use vstd::prelude::*;

pub mod aabbgrid;
pub mod cell;
pub mod densegrid;
pub mod error;
pub mod grid;
pub mod math;
pub mod objects;
pub mod shape;
pub mod shapegrid;
pub mod slots;
pub mod sparsegrid;
pub mod storage;

pub use aabbgrid::AABBGrid;
pub use densegrid::DenseGrid;
pub use grid::Grid;
pub use shapegrid::ShapeGrid;
pub use sparsegrid::SparseGrid;

verus! {

/// A grid of shapes whose cells fill a rectangle.
pub type DenseShapeGrid<O, S> = ShapeGrid<O, S, storage::DenseStorage<cell::ShapeGridCell>>;

/// A grid of shapes that keeps only the cells in use.
pub type SparseShapeGrid<O, S> = ShapeGrid<O, S, storage::SparseStorage<cell::ShapeGridCell>>;

} // verus!
