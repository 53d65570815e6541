use crate::cell::GridCell;
use crate::grid::Grid;
use crate::storage::in_range;
use crate::storage::sparse::pack;
use crate::storage::SparseStorage;
use std::collections::HashMap;
use vstd::prelude::*;

verus! {

/// SparseGrid is a point-based spatial partitioning structure that keeps
/// its cells in a HashMap, and only the cells in use.
pub type SparseGrid<O> = Grid<O, SparseStorage<GridCell>>;

impl<O: Copy> Grid<O, SparseStorage<GridCell>> {
    /// The cells, by their keys.
    pub fn cells(&self) -> (m: &HashMap<u64, GridCell>)
        requires
            self.wf(),
        ensures
            forall|c: (int, int)|
                in_range(c) ==> (#[trigger] self.cell_map().contains_key(c) <==> m@.contains_key(
                    pack(c),
                )),
            forall|c: (int, int)| #[trigger]
                self.cell_map().contains_key(c) ==> m@[pack(c)] == self.cell_map()[c],
            m@.len() == self.cell_map().len(),
    {
        self.storage().cells()
    }
}

} // verus!
