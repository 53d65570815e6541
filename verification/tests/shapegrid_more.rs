use flat_spatial::error::GridError;
use flat_spatial::shape::Circle;
use flat_spatial::shape::Point;
use flat_spatial::shape::Segment;
use flat_spatial::shape::AABB;
use flat_spatial::storage::CellCoord;
use flat_spatial::storage::Storage;
use flat_spatial::DenseShapeGrid;
use flat_spatial::ShapeGrid;
use flat_spatial::SparseShapeGrid;

fn rect(x1: i32, y1: i32, x2: i32, y2: i32) -> AABB {
    AABB::new(Point::new(x1, y1), Point::new(x2, y2))
}

#[test]
fn circle_has_entries_in_the_cells_it_touches_only() {
    let mut g: SparseShapeGrid<(), Circle> = SparseShapeGrid::new(10).unwrap();
    let a = g
        .insert(Circle { center: Point::new(15, 15), radius: 6 }, ())
        .unwrap();
    let s = g.storage();
    // the box of the circle reaches the cells 0..2 both ways; the corners are too far
    for x in 0..3 {
        for y in 0..3 {
            let cell = s.cell(CellCoord { x, y });
            let corner = x != 1 && y != 1;
            if corner {
                assert!(cell.map_or(true, |c| c.objs.is_empty()), "cell {x} {y}");
            } else {
                assert_eq!(cell.unwrap().objs, vec![(a, false)], "cell {x} {y}");
            }
        }
    }
    // a query that looks at a corner cell only does not find the circle
    assert_eq!(g.query_broad(rect(1, 1, 2, 2)), vec![]);
    assert_eq!(g.query_broad(rect(11, 1, 12, 2)), vec![a]);
    assert_eq!(g.query_broad(rect(1, 1, 29, 29)), vec![a]);
}

#[test]
fn shape_grid_refuses_what_it_must() {
    assert!(matches!(ShapeGrid::<(), Point>::new(0), Err(GridError::CellSizeInvalid)));
    let mut g: DenseShapeGrid<u8, AABB> = DenseShapeGrid::new(1).unwrap();
    let bad = AABB { ll: Point::new(0, 1), ur: Point::new(5, 0) };
    assert_eq!(g.insert(bad, 1), Err(GridError::AABBInvalid));
    // too many cells between the corners
    assert_eq!(
        g.insert(rect(0, 0, i32::MAX, i32::MAX), 1),
        Err(GridError::PositionInvalid)
    );
    assert_eq!(g.len(), 0);
    let a = g.insert(rect(0, 0, 3, 3), 7).unwrap();
    assert_eq!(g.set_shape(a, bad), Err(GridError::AABBInvalid));
    assert_eq!(
        g.set_shape(a, rect(i32::MIN, i32::MIN, 0, 0)),
        Err(GridError::PositionInvalid)
    );
    assert_eq!(g.get(a), Some((&rect(0, 0, 3, 3), &7)));
    assert_eq!(g.query(rect(3, 3, 4, 4)).len(), 1);
    assert_eq!(g.remove(a), Ok(7));
    assert_eq!(g.remove(a), Err(GridError::HandleInvalid));
    assert_eq!(g.set_shape(a, rect(0, 0, 1, 1)), Err(GridError::HandleInvalid));
    assert_eq!(g.query(rect(i32::MIN, i32::MIN, i32::MAX, i32::MAX)).len(), 0);
}

#[test]
fn shape_grid_keeps_what_is_associated() {
    let mut g: SparseShapeGrid<i32, Point> = SparseShapeGrid::new(10).unwrap();
    let h = g.insert(Point::new(5, 3), 42).unwrap();
    let k = g.insert(Point::new(-5, 3), 43).unwrap();
    assert_eq!(g.get(h), Some((&Point::new(5, 3), &42)));
    *g.get_mut(h).unwrap().1 = 56;
    assert_eq!(g.get(h).unwrap().1, &56);
    assert_eq!(g.record(k).unwrap().obj, 43);
    assert_eq!(g.handles(), vec![h, k]);
    assert_eq!(g.objects(), vec![&56, &43]);
    assert_eq!(g.len(), 2);
    assert!(!g.is_empty());
    let found = g.query(rect(-10, 0, 10, 10));
    assert_eq!(found.len(), 2);
    for (handle, shape, obj) in found {
        assert_eq!(g.get(handle), Some((shape, obj)));
    }
}

#[test]
fn dense_shape_grid_grows_around_boxes() {
    let mut g: DenseShapeGrid<(), AABB> = DenseShapeGrid::new(10).unwrap();
    let a = g.insert(rect(-15, 5, 25, 5), ()).unwrap();
    assert_eq!(g.storage().get_rect(), (-2, 0, 5, 1));
    let b = g.insert(rect(0, -35, 5, 25), ()).unwrap();
    assert_eq!(g.storage().get_rect(), (-2, -4, 5, 7));
    let mut both = g.query_broad(rect(1, 1, 2, 2));
    both.sort();
    let mut want = vec![a, b];
    want.sort();
    assert_eq!(both, want);
    assert_eq!(g.query_broad(rect(-100, 0, -11, 9)), vec![a]);
    assert_eq!(g.query_broad(rect(-100, -100, 100, -11)), vec![b]);
    assert_eq!(g.query(rect(6, 6, 100, 100)), vec![]);
    g.set_shape(a, rect(-15, 5, -15, 5)).unwrap();
    assert_eq!(g.query_broad(rect(1, 1, 2, 2)), vec![b]);
    assert_eq!(g.query_broad(rect(-20, 0, -11, 9)), vec![a]);
}

#[test]
fn segments_are_found_where_they_pass() {
    let mut g: SparseShapeGrid<u8, Segment> = SparseShapeGrid::new(10).unwrap();
    let a = g
        .insert(Segment::new(Point::new(1, 1), Point::new(38, 38)), 1)
        .unwrap();
    let s = g.storage();
    // on the diagonal, not beside it
    assert_eq!(s.cell(CellCoord { x: 2, y: 2 }).unwrap().objs, vec![(a, false)]);
    assert!(s.cell(CellCoord { x: 3, y: 0 }).map_or(true, |c| c.objs.is_empty()));
    assert!(s.cell(CellCoord { x: 0, y: 3 }).map_or(true, |c| c.objs.is_empty()));
    assert_eq!(
        g.query(Segment::new(Point::new(0, 20), Point::new(20, 0)))
            .iter()
            .map(|t| t.0)
            .collect::<Vec<_>>(),
        vec![a]
    );
    assert_eq!(g.query(Segment::new(Point::new(30, 0), Point::new(39, 5))).len(), 0);
    assert_eq!(g.query(rect(15, 15, 16, 16)).len(), 1);
    assert_eq!(g.query(rect(15, 25, 16, 26)).len(), 0);
}
