use flat_spatial::cell::GridCell;
use flat_spatial::error::GridError;
use flat_spatial::shape::AABB;
use flat_spatial::shape::Point;
use flat_spatial::storage::CellCoord;
use flat_spatial::storage::CellIter;
use flat_spatial::storage::DenseIter;
use flat_spatial::storage::DenseStorage;
use flat_spatial::storage::SparseStorage;
use flat_spatial::storage::Storage;
use flat_spatial::storage::XYRange;
use flat_spatial::storage::sparse::cell_key;
use flat_spatial::storage::sparse::key_cell;
fn collect(mut it: DenseIter) -> Vec<usize> {
    let mut out = Vec::new();
    while let Some(i) = it.next() {
        out.push(i);
    }
    out
}

#[test]
fn invalid_id_test() {
    let s = DenseStorage::<GridCell>::new_rect(10, 0, 0, 1, 1).unwrap();

    assert_eq!(s.cell_id(Point { x: 15, y: 15 }), 0);
    assert_eq!(s.cell_id(Point { x: 5, y: 15 }), 0);
    assert_eq!(s.cell_id(Point { x: 15, y: 5 }), 0);
    assert_eq!(s.cell_id(Point { x: 5, y: 5 }), 0);
    assert_eq!(s.cell_id(Point { x: -15, y: 15 }), 0);
    assert_eq!(s.cell_id(Point { x: 5, y: -15 }), 0);
    assert_eq!(s.cell_id(Point { x: 15, y: -5 }), 0);
    assert_eq!(s.cell_id(Point { x: -5, y: 5 }), 0);
}

#[test]
fn test_dense_iter_manual() {
    let x = DenseIter {
        ur: 8,
        width: 5,
        diff: 3,
        c: 0,
        cur: 1,
    };

    assert_eq!(collect(x), vec![1, 2, 3, 6, 7, 8])
}

#[test]
fn test_dense_iter() {
    let s = DenseStorage::<GridCell>::new_rect(10, 0, 0, 5, 2).unwrap();

    assert_eq!(collect(s.cell_range(1, 8)), vec![1, 2, 3, 6, 7, 8])
}

#[test]
fn sparse_storage_tiles_the_negative_side() {

    assert!(matches!(SparseStorage::<GridCell>::new(0), Err(GridError::CellSizeInvalid)));
    let mut s = SparseStorage::<GridCell>::new(10).unwrap();
    assert_eq!(s.cell_size(), 10);
    assert_eq!(s.cell_id(Point { x: -1, y: 9 }), CellCoord { x: -1, y: 0 });
    assert_eq!(s.cell_id(Point { x: -10, y: -11 }), CellCoord { x: -1, y: -2 });
    assert_eq!(s.cell_id(Point { x: 10, y: 0 }), CellCoord { x: 1, y: 0 });
    assert_eq!(
        s.cell_aabb(CellCoord { x: -1, y: 2 }),
        AABB { ll: Point { x: -10, y: 20 }, ur: Point { x: 0, y: 30 } }
    );
    assert_eq!(
        s.cell_aabb(CellCoord { x: 214748364, y: -214748365 }),
        AABB {
            ll: Point { x: 2147483640, y: i32::MIN },
            ur: Point { x: i32::MAX, y: -2147483640 }
        }
    );
    assert!(s.cell(CellCoord { x: 0, y: 0 }).is_none());
    assert_eq!(s.cell_mut(Point { x: 5, y: -5 }), Ok((CellCoord { x: 0, y: -1 }, false)));
    assert!(s.cell(CellCoord { x: 0, y: -1 }).is_some());
    s.cell_mut_unchecked(CellCoord { x: 7, y: 7 }).dirty = true;
    assert!(s.cell(CellCoord { x: 7, y: 7 }).unwrap().dirty);
    let mut ids = s.cell_ids();
    ids.sort_by_key(|c| (c.x, c.y));
    assert_eq!(ids, vec![CellCoord { x: 0, y: -1 }, CellCoord { x: 7, y: 7 }]);
    s.release(CellCoord { x: 7, y: 7 });
    assert_eq!(s.cells().len(), 1);
    assert!(s.cells().contains_key(&cell_key(CellCoord { x: 0, y: -1 })));

    assert_eq!(cell_key(CellCoord { x: i32::MIN, y: i32::MIN }), 0);
    assert_eq!(cell_key(CellCoord { x: i32::MAX, y: i32::MAX }), u64::MAX);
    assert_eq!(cell_key(CellCoord { x: 0, y: 1 }), (1 << 63) | (1 << 31) | 1);
    assert_eq!(key_cell(cell_key(CellCoord { x: -3, y: 12 })), CellCoord { x: -3, y: 12 });

    let mut it: XYRange = s.cell_range(CellCoord { x: -1, y: 4 }, CellCoord { x: 1, y: 5 });
    let mut walked = Vec::new();
    while let Some(c) = it.next() {
        walked.push((c.x, c.y));
    }
    assert_eq!(walked, vec![(-1, 4), (0, 4), (1, 4), (-1, 5), (0, 5), (1, 5)]);
    let mut none = s.cell_range(CellCoord { x: 1, y: 4 }, CellCoord { x: 0, y: 5 });
    assert!(none.next().is_none());
    let mut last = s.cell_range(
        CellCoord { x: i32::MAX, y: i32::MAX },
        CellCoord { x: i32::MAX, y: i32::MAX },
    );
    assert_eq!(last.next(), Some(CellCoord { x: i32::MAX, y: i32::MAX }));
    assert_eq!(last.next(), None);
}

#[test]
fn dense_storage_grows_around_its_cells() {

    let mut s = DenseStorage::<GridCell>::new(10).unwrap();
    assert_eq!(s.get_rect(), (0, 0, 0, 0));
    assert!(s.cell(0).is_none());
    assert!(s.cell(s.cell_id(Point { x: 3, y: 3 })).is_none());
    assert!(s.cell_range(0, 0).next().is_none());
    assert_eq!(s.cell_ids(), Vec::<usize>::new());
    // the first cell
    assert_eq!(s.cell_mut(Point { x: -5, y: 25 }), Ok((0, false)));
    assert_eq!(s.get_rect(), (-1, 2, 1, 1));
    s.cell_mut_unchecked(0).dirty = true;
    // rows on top keep the indexes
    assert_eq!(s.cell_mut(Point { x: -1, y: 49 }), Ok((2, false)));
    assert_eq!(s.get_rect(), (-1, 2, 1, 3));
    assert!(s.cell(0).unwrap().dirty);
    // a column to the right does not
    assert_eq!(s.cell_mut(Point { x: 0, y: 25 }), Ok((1, true)));
    assert_eq!(s.get_rect(), (-1, 2, 2, 3));
    assert!(s.cell(0).unwrap().dirty);
    assert!(!s.cell(1).unwrap().dirty);
    // nor do rows below or columns to the left
    assert_eq!(s.cell_mut(Point { x: -25, y: 0 }), Ok((0, true)));
    assert_eq!(s.get_rect(), (-3, 0, 4, 5));
    assert_eq!(s.cells().len(), 20);
    let moved = s.cell_id(Point { x: -5, y: 25 });
    assert_eq!(moved, 2 * 4 + 2);
    for i in 0..20 {
        assert_eq!(s.cell(i).unwrap().dirty, i == moved);
    }
    // inside: nothing changes
    assert_eq!(s.cell_mut(Point { x: 9, y: 49 }), Ok((4 * 4 + 3, false)));
    assert_eq!(s.get_rect(), (-3, 0, 4, 5));
    assert!(s.cell(20).is_none());
    assert_eq!(
        s.cell_aabb(moved),
        AABB { ll: Point { x: -10, y: 20 }, ur: Point { x: 0, y: 30 } }
    );
    s.release(moved);
    assert_eq!(s.cells().len(), 20);
    assert_eq!(s.cell_ids(), (0..20).collect::<Vec<usize>>());
    // too far
    let before = s.get_rect();
    assert_eq!(s.cell_mut(Point { x: i32::MAX, y: i32::MAX }), Err(GridError::PositionInvalid));
    assert_eq!(s.get_rect(), before);
    assert!(DenseStorage::<GridCell>::idx_eq(3, 3));
    assert!(!DenseStorage::<GridCell>::idx_eq(3, 4));
}

#[test]
fn dense_iter_walks_three_rows() {
    let s = DenseStorage::<GridCell>::new_rect(10, -2, -2, 4, 4).unwrap();
    let ll = s.cell_id(Point { x: -5, y: -15 });
    let ur = s.cell_id(Point { x: 5, y: 15 });
    assert_eq!((ll, ur), (1, 14));
    assert_eq!(collect(s.cell_range(ll, ur)), vec![1, 2, 5, 6, 9, 10, 13, 14]);
    assert_eq!(collect(s.cell_range(ur, ll)), Vec::<usize>::new());
    assert_eq!(collect(s.cell_range(2, 5)), Vec::<usize>::new());
    assert_eq!(collect(s.cell_range(0, 16)), Vec::<usize>::new());
    assert_eq!(collect(s.cell_range(15, 15)), vec![15]);
}
