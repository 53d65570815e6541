use vstd::prelude::*;

verus! {

/// Why an operation on a grid or on its storage was refused.
#[derive(Clone, Copy, PartialEq, Eq, Debug, Structural)]
pub enum GridError {
    /// The cell size given at construction was zero or negative.
    CellSizeInvalid,
    /// The position lies where the storage cannot hold a cell.
    PositionInvalid,
    /// The handle names no live object.
    HandleInvalid,
    /// The upper right corner of the box lies below or left of its lower left corner.
    AABBInvalid,
}

} // verus!
