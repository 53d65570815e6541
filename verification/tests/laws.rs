use flat_spatial::error::GridError;
use flat_spatial::grid::GridHandle;
use flat_spatial::shape::Point;
use flat_spatial::storage::Storage;
use flat_spatial::DenseGrid;
use flat_spatial::Grid;
use flat_spatial::SparseGrid;

fn handles_of(found: Vec<(GridHandle, Point)>) -> Vec<GridHandle> {
    let mut hs: Vec<GridHandle> = found.iter().map(|e| e.0).collect();
    hs.sort();
    hs
}

#[test]
fn len_counts_inserts_and_keeps_removed_until_maintain() {
    let mut g: SparseGrid<u8> = SparseGrid::new(10).unwrap();
    assert_eq!(g.len(), 0);
    assert!(g.is_empty());
    let a = g.insert(Point::new(1, 1), 1).unwrap();
    let b = g.insert(Point::new(2, 2), 2).unwrap();
    let c = g.insert(Point::new(300, -7), 3).unwrap();
    assert_eq!(g.len(), 3);
    g.remove(b).unwrap();
    g.set_position(c, Point::new(0, 0)).unwrap();
    assert_eq!(g.len(), 3);
    assert!(g.get(b).is_some());
    g.maintain();
    assert_eq!(g.len(), 2);
    assert!(g.get(b).is_none());
    assert_eq!(g.get(a), Some((Point::new(1, 1), &1)));
    assert_eq!(g.get(c), Some((Point::new(0, 0), &3)));
}

#[test]
fn maintain_brings_lists_in_line_and_drops_empty_cells() {
    let mut g: SparseGrid<()> = SparseGrid::new(10).unwrap();
    let a = g.insert(Point::new(5, 5), ()).unwrap();
    let b = g.insert(Point::new(6, 6), ()).unwrap();
    let c = g.insert(Point::new(25, 5), ()).unwrap();
    g.set_position(a, Point::new(7, 7)).unwrap(); // same cell
    g.set_position(b, Point::new(-1, -1)).unwrap(); // other cell
    g.remove(c).unwrap();
    g.maintain();
    // cells (0,0) with a and (-1,-1) with b; the cell of c is gone
    assert_eq!(g.cells().len(), 2);
    assert_eq!(g.get_cell(Point::new(0, 0)), vec![(a, Point::new(7, 7))]);
    assert_eq!(g.get_cell(Point::new(-10, -10)), vec![(b, Point::new(-1, -1))]);
    assert_eq!(g.get_cell(Point::new(20, 0)), vec![]);
    let s = g.storage();
    for id in s.cell_ids() {
        let cell = s.cell(id).unwrap();
        assert!(!cell.dirty);
        assert!(!cell.objs.is_empty());
    }
    assert_eq!(g.handles().len(), 2);
}

#[test]
fn handle_is_not_given_again_after_remove_maintain_insert() {
    let mut g: Grid<i32> = Grid::new(10).unwrap();
    let a = g.insert(Point::new(0, 0), 1).unwrap();
    g.remove(a).unwrap();
    g.maintain();
    let b = g.insert(Point::new(0, 0), 2).unwrap();
    assert_ne!(a, b);
    assert_eq!(g.get(a), None);
    assert_eq!(g.get(b), Some((Point::new(0, 0), &2)));
    assert_eq!(g.set_position(a, Point::new(1, 1)), Err(GridError::HandleInvalid));
    assert_eq!(g.remove(a), Err(GridError::HandleInvalid));
    assert_eq!(g.handles(), vec![b]);
}

#[test]
fn query_aabb_gives_the_points_of_the_rect_and_no_other() {
    let mut g: DenseGrid<()> = DenseGrid::new(4).unwrap();
    let mut inside = Vec::new();
    for x in -6..7 {
        for y in -6..7 {
            let h = g.insert(Point::new(x, y), ()).unwrap();
            if -3 <= x && x <= 5 && -2 <= y && y <= 0 {
                inside.push(h);
            }
        }
    }
    inside.sort();
    // the corners in any order, the border included
    assert_eq!(handles_of(g.query_aabb(Point::new(5, -2), Point::new(-3, 0))), inside);
    assert_eq!(handles_of(g.query_aabb(Point::new(-3, 0), Point::new(5, -2))), inside);
    for e in g.query_aabb(Point::new(5, -2), Point::new(-3, 0)) {
        assert_eq!(g.get(e.0).unwrap().0, e.1);
    }
    // a rect outside the cells finds nothing
    assert_eq!(g.query_aabb(Point::new(100, 100), Point::new(200, 200)), vec![]);
}

#[test]
fn query_around_is_strict_at_the_radius() {
    let mut g: SparseGrid<()> = SparseGrid::new(10).unwrap();
    let a = g.insert(Point::new(3, 4), ()).unwrap();
    let b = g.insert(Point::new(-4, -3), ()).unwrap();
    let c = g.insert(Point::new(0, 6), ()).unwrap();
    // the distance of a and b is 5 exactly
    assert_eq!(g.query_around(Point::new(0, 0), 5), vec![]);
    assert_eq!(handles_of(g.query_around(Point::new(0, 0), 6)), {
        let mut v = vec![a, b];
        v.sort();
        v
    });
    assert_eq!(handles_of(g.query_around(Point::new(0, 0), 7)), {
        let mut v = vec![a, b, c];
        v.sort();
        v
    });
    assert_eq!(g.query_around(Point::new(3, 4), 0), vec![]);
    assert_eq!(g.query_around(Point::new(3, 4), 1), vec![(a, Point::new(3, 4))]);
}

#[test]
fn query_around_at_the_end_of_the_plane() {
    let mut g: SparseGrid<()> = SparseGrid::new(1000).unwrap();
    let a = g.insert(Point::new(i32::MAX, i32::MAX), ()).unwrap();
    let b = g.insert(Point::new(i32::MIN, i32::MIN), ()).unwrap();
    assert_eq!(g.query_around(Point::new(i32::MAX, i32::MAX - 3), 4), vec![(a, Point::new(i32::MAX, i32::MAX))]);
    assert_eq!(g.query_around(Point::new(i32::MIN + 3, i32::MIN), 4), vec![(b, Point::new(i32::MIN, i32::MIN))]);
}

#[test]
fn lazy_move_is_seen_after_maintain() {
    let mut g: Grid<()> = Grid::new(10).unwrap();
    let a = g.insert(Point::new(0, 0), ()).unwrap();
    g.set_position(a, Point::new(30, 30)).unwrap();
    // the object has its position at once, the lists have the old one
    assert_eq!(g.get(a).unwrap().0, Point::new(30, 30));
    assert_eq!(g.query_around(Point::new(0, 0), 5), vec![(a, Point::new(0, 0))]);
    assert_eq!(g.query_around(Point::new(30, 30), 5), vec![]);
    g.maintain();
    assert_eq!(g.query_around(Point::new(0, 0), 5), vec![]);
    assert_eq!(g.query_around(Point::new(30, 30), 5), vec![(a, Point::new(30, 30))]);
}

#[test]
fn removed_object_stays_removed_when_moved() {
    let mut g: Grid<()> = Grid::new(10).unwrap();
    let a = g.insert(Point::new(0, 0), ()).unwrap();
    g.remove(a).unwrap();
    assert_eq!(g.set_position(a, Point::new(50, 50)), Ok(()));
    // nothing but the mark on the cell: the object keeps its position and no cell is made
    assert_eq!(g.get(a).unwrap().0, Point::new(0, 0));
    assert_eq!(g.cells().len(), 1);
    g.maintain();
    assert_eq!(g.get(a), None);
    assert_eq!(g.len(), 0);
    assert_eq!(g.cells().len(), 0);
}

#[test]
fn moved_out_and_back_is_found_at_home() {
    let mut g: Grid<()> = Grid::new(10).unwrap();
    let a = g.insert(Point::new(1, 1), ()).unwrap();
    g.set_position(a, Point::new(31, 31)).unwrap();
    g.set_position(a, Point::new(2, 2)).unwrap();
    g.maintain();
    assert_eq!(g.query_around(Point::new(0, 0), 5), vec![(a, Point::new(2, 2))]);
    assert_eq!(g.cells().len(), 1);
}

// An object on its way to another cell that moves again inside that cell
// counts as one that moved inside its cell: its entry keeps its place.
#[test]
fn moved_twice_into_one_cell_keeps_its_entry_at_home() {
    let mut g: Grid<()> = Grid::new(10).unwrap();
    let a = g.insert(Point::new(0, 0), ()).unwrap();
    g.set_position(a, Point::new(30, 30)).unwrap();
    g.set_position(a, Point::new(31, 31)).unwrap();
    g.maintain();
    assert_eq!(g.get(a).unwrap().0, Point::new(31, 31));
    assert_eq!(g.get_cell(Point::new(0, 0)), vec![(a, Point::new(31, 31))]);
    assert_eq!(g.get_cell(Point::new(30, 30)), vec![]);
}

#[test]
fn dense_grid_grows_and_keeps_its_objects() {
    let mut g: DenseGrid<u32> = DenseGrid::new(10).unwrap();
    assert_eq!(g.get_rect(), (0, 0, 0, 0));
    let a = g.insert(Point::new(-1000, 0), 1).unwrap();
    assert_eq!(g.get_rect(), (-100, 0, 1, 1));
    let b = g.insert(Point::new(0, 1000), 2).unwrap();
    assert_eq!(g.get_rect(), (-100, 0, 101, 101));
    assert_eq!(g.cells().len(), 101 * 101);
    let c = g.insert(Point::new(-1005, -5), 3).unwrap();
    assert_eq!(g.get_rect(), (-101, -1, 102, 102));
    assert_eq!(g.query_around(Point::new(-1000, 0), 5), vec![(a, Point::new(-1000, 0))]);
    assert_eq!(g.query_around(Point::new(0, 1000), 5), vec![(b, Point::new(0, 1000))]);
    assert_eq!(g.get_cell(Point::new(-1001, -1)), vec![(c, Point::new(-1005, -5))]);
    // a move out of the rectangle makes the rectangle grow
    g.set_position(a, Point::new(25, -30)).unwrap();
    assert_eq!(g.get_rect(), (-101, -3, 104, 104));
    g.maintain();
    assert_eq!(g.query_around(Point::new(25, -30), 1), vec![(a, Point::new(25, -30))]);
    assert_eq!(g.objects(), vec![&1, &2, &3]);
}

#[test]
fn dense_grid_refuses_what_it_cannot_hold() {
    let mut g: DenseGrid<()> = DenseGrid::new(1).unwrap();
    let a = g.insert(Point::new(i32::MAX, i32::MAX), ()).unwrap();
    assert_eq!(g.insert(Point::new(i32::MIN, i32::MIN), ()), Err(GridError::PositionInvalid));
    assert_eq!(g.set_position(a, Point::new(0, 0)), Err(GridError::PositionInvalid));
    assert_eq!(g.len(), 1);
    assert_eq!(g.get_rect(), (i32::MAX, i32::MAX, 1, 1));
    assert_eq!(g.get(a).unwrap().0, Point::new(i32::MAX, i32::MAX));
    // a row of cells is fine
    assert!(g.insert(Point::new(i32::MAX - 1000, i32::MAX), ()).is_ok());
}

#[test]
fn removed_object_is_not_moved_where_no_room_is() {
    let mut g: DenseGrid<()> = DenseGrid::new(1).unwrap();
    let a = g.insert(Point::new(i32::MAX, i32::MAX), ()).unwrap();
    g.remove(a).unwrap();
    assert_eq!(g.set_position(a, Point::new(i32::MIN, i32::MIN)), Ok(()));
    assert_eq!(g.get_rect(), (i32::MAX, i32::MAX, 1, 1));
    assert_eq!(g.get(a).unwrap().0, Point::new(i32::MAX, i32::MAX));
    g.maintain();
    assert_eq!(g.len(), 0);
}

#[test]
fn fresh_grids_answer_queries() {
    let g = DenseGrid::<()>::new_rect(10, -1, -1, 3, 3).unwrap();
    assert_eq!(g.cells().len(), 9);
    assert!(g.cells().iter().all(|c| !c.dirty && c.objs.is_empty()));
    assert_eq!(g.query_around(Point::new(0, 0), 100), vec![]);
    assert_eq!(g.query_aabb(Point::new(-9, -9), Point::new(9, 9)), vec![]);
}

#[test]
fn constructors_refuse_bad_sizes() {
    assert!(matches!(Grid::<()>::new(0), Err(GridError::CellSizeInvalid)));
    assert!(matches!(SparseGrid::<()>::new(-1), Err(GridError::CellSizeInvalid)));
    assert!(matches!(DenseGrid::<()>::new(i32::MIN), Err(GridError::CellSizeInvalid)));
    assert!(matches!(DenseGrid::<()>::new_rect(0, 0, 0, 1, 1), Err(GridError::CellSizeInvalid)));
    assert!(matches!(DenseGrid::<()>::new_rect(1, 0, 0, -1, 1), Err(GridError::PositionInvalid)));
    assert!(matches!(
        DenseGrid::<()>::new_rect(1, 0, 0, 0x10000, 0x10000),
        Err(GridError::PositionInvalid)
    ));
    assert!(matches!(
        DenseGrid::<()>::new_rect(1, i32::MAX, 0, 2, 1),
        Err(GridError::PositionInvalid)
    ));
    assert!(matches!(DenseGrid::<()>::new_centered(5, -1), Err(GridError::PositionInvalid)));
    assert!(matches!(DenseGrid::<()>::new_centered(-5, 3), Err(GridError::CellSizeInvalid)));
    let g = DenseGrid::<()>::new_centered(5, 3).unwrap();
    assert_eq!(g.get_rect(), (-3, -3, 6, 6));
    assert_eq!(g.cells().len(), 36);
    assert!(Grid::<()>::new(1).is_ok());
}

#[test]
fn get_mut_changes_what_is_associated() {
    let mut g: Grid<i32> = Grid::new(10).unwrap();
    let h = g.insert(Point::new(5, 3), 42).unwrap();
    *g.get_mut(h).unwrap().1 = 56;
    assert_eq!(g.get(h), Some((Point::new(5, 3), &56)));
    g.remove(h).unwrap();
    g.maintain();
    assert!(g.get_mut(h).is_none());
}

#[test]
fn query_raw_gives_whole_cells_in_order() {
    let mut g: Grid<()> = Grid::new(10).unwrap();
    let a = g.insert(Point::new(0, 0), ()).unwrap();
    let b = g.insert(Point::new(5, 5), ()).unwrap();
    let c = g.insert(Point::new(15, 5), ()).unwrap();
    let d = g.insert(Point::new(5, 15), ()).unwrap();
    let around: Vec<_> = g
        .query_raw(Point::new(-1, -1), Point::new(1, 1))
        .iter()
        .map(|e| e.0)
        .collect();
    // the cells (-1,-1), (0,-1), (-1,0), (0,0)
    assert_eq!(around, vec![a, b]);
    let all: Vec<_> = g
        .query_raw(Point::new(0, 0), Point::new(19, 19))
        .iter()
        .map(|e| e.0)
        .collect();
    // row by row
    assert_eq!(all, vec![a, b, c, d]);
}
