use crate::cell::GridCell;
use crate::error::GridError;
use crate::grid::Grid;
use crate::grid::StoreObject;
use crate::storage::dense::at;
use crate::storage::dense::extent_ok;
use crate::storage::DenseStorage;
use crate::storage::Envelope;
use crate::storage::Storage;
use vstd::prelude::*;

verus! {

/// DenseGrid is a point-based spatial partitioning structure that uses a
/// rectangle of cells, kept in one vector, which grows around the objects.
pub type DenseGrid<O> = Grid<O, DenseStorage<GridCell>>;

impl<O: Copy> Grid<O, DenseStorage<GridCell>> {
    /// Creates a new grid centered on zero with width and height defined by size.
    ///
    /// Note that the size is counted in cells and not in absolute units (!)
    pub fn new_centered(cell_size: i32, size: i32) -> (r: Result<Self, GridError>)
        ensures
            cell_size <= 0 ==> r == Err::<Self, GridError>(GridError::CellSizeInvalid),
            cell_size > 0 && !(0 <= size && extent_ok(-size, -size, 2 * size, 2 * size)) ==> r
                == Err::<Self, GridError>(GridError::PositionInvalid),
            cell_size > 0 && 0 <= size && extent_ok(-size, -size, 2 * size, 2 * size) ==> r is Ok,
            r matches Ok(g) ==> {
                &&& g.wf()
                &&& g.envelope() == (Envelope {
                    cell_size: cell_size as int,
                    bounded: true,
                    x0: -size,
                    y0: -size,
                    w: 2 * size,
                    h: 2 * size,
                })
                &&& g.records() == Map::<u64, StoreObject<O, usize>>::empty()
                &&& g.in_sync()
            },
    {
        match DenseStorage::new_centered(cell_size, size) {
            Ok(st) => Ok(Self::with_storage(st)),
            Err(e) => Err(e),
        }
    }

    /// Creates a new grid with a custom rect defining its boundaries.
    ///
    /// Note that the coordinates are counted in cells and not in absolute units (!)
    pub fn new_rect(cell_size: i32, x: i32, y: i32, w: i32, h: i32) -> (r: Result<
        Self,
        GridError,
    >)
        ensures
            cell_size <= 0 ==> r == Err::<Self, GridError>(GridError::CellSizeInvalid),
            cell_size > 0 && !extent_ok(x as int, y as int, w as int, h as int) ==> r == Err::<
                Self,
                GridError,
            >(GridError::PositionInvalid),
            cell_size > 0 && extent_ok(x as int, y as int, w as int, h as int) ==> r is Ok,
            r matches Ok(g) ==> {
                &&& g.wf()
                &&& g.envelope() == (Envelope {
                    cell_size: cell_size as int,
                    bounded: true,
                    x0: x as int,
                    y0: y as int,
                    w: w as int,
                    h: h as int,
                })
                &&& g.records() == Map::<u64, StoreObject<O, usize>>::empty()
                &&& g.in_sync()
            },
    {
        match DenseStorage::new_rect(cell_size, x, y, w, h) {
            Ok(st) => Ok(Self::with_storage(st)),
            Err(e) => Err(e),
        }
    }

    /// The cells, row by row.
    pub fn cells(&self) -> (v: &Vec<GridCell>)
        requires
            self.wf(),
        ensures
            v.len() == self.envelope().w * self.envelope().h,
            forall|c: (int, int)| #[trigger]
                self.cell_map().contains_key(c) ==> v@[at(
                    self.envelope().w,
                    c.1 - self.envelope().y0,
                    c.0 - self.envelope().x0,
                )] == self.cell_map()[c],
    {
        self.storage().cells()
    }

    /// The rectangle of cells: the coordinates of its lowest cell, then its
    /// width and its height, all counted in cells.
    pub fn get_rect(&self) -> (r: (i32, i32, i32, i32))
        requires
            self.wf(),
        ensures
            r.0 == self.envelope().x0,
            r.1 == self.envelope().y0,
            r.2 == self.envelope().w,
            r.3 == self.envelope().h,
    {
        self.storage().get_rect()
    }
}

} // verus!
