use flat_spatial::shape::Point;
use flat_spatial::shape::AABB;
use flat_spatial::aabbgrid::CallWithHandle;
use flat_spatial::aabbgrid::CallWithObject;
use flat_spatial::aabbgrid::HandleList;
use flat_spatial::aabbgrid::ObjectList;
use flat_spatial::AABBGrid;
use flat_spatial::error::GridError;
use flat_spatial::storage::Storage;

fn rect(x1: i32, y1: i32, x2: i32, y2: i32) -> AABB {
    AABB::new(Point::new(x1, y1), Point::new(x2, y2))
}

#[test]
fn aabb_dedup_across_cells() {
    let mut g: AABBGrid<i32> = AABBGrid::new(10).unwrap();
    // covers the cells (0..2, 0..1)
    let a = g.insert(rect(1, 1, 25, 15), 7).unwrap();
    let found = g.query_broad(rect(0, 0, 29, 19));
    assert_eq!(found, vec![a]);
    let s = g.storage();
    assert_eq!(s.cells().len(), 6);
    for x in 0..3 {
        for y in 0..2 {
            let id = s.cell_id(Point::new(10 * x + 1, 10 * y + 1));
            let cell = s.cell(id).unwrap();
            assert_eq!(cell.objs, vec![(a, false)]);
        }
    }
}

#[test]
fn aabb_single_cell_flag() {
    let mut g: AABBGrid<()> = AABBGrid::new(10).unwrap();
    let a = g.insert(rect(1, 1, 5, 5), ()).unwrap();
    let b = g.insert(rect(2, 2, 12, 3), ()).unwrap();
    let s = g.storage();
    let cell = s.cell(s.cell_id(Point::new(0, 0))).unwrap();
    assert_eq!(cell.objs, vec![(a, true), (b, false)]);
    let mut found = g.query_broad(rect(0, 0, 19, 9));
    found.sort();
    let mut want = vec![a, b];
    want.sort();
    assert_eq!(found, want);
}

#[test]
fn aabb_query_is_exact() {
    let mut g: AABBGrid<u8> = AABBGrid::new(10).unwrap();
    let a = g.insert(rect(0, 0, 4, 4), 1).unwrap();
    let b = g.insert(rect(6, 6, 9, 9), 2).unwrap();
    let c = g.insert(rect(-20, -20, -11, -11), 3).unwrap();
    // both in the cell of the query, one of them met
    let q: Vec<_> = g.query(rect(3, 3, 5, 5)).iter().map(|t| (t.0, *t.2)).collect();
    assert_eq!(q, vec![(a, 1)]);
    // boxes that touch at a border meet
    let q: Vec<_> = g.query(rect(4, 4, 6, 6)).iter().map(|t| t.0).collect();
    assert_eq!(q.len(), 2);
    assert!(q.contains(&a) && q.contains(&b));
    let q: Vec<_> = g.query(rect(-15, -15, 100, 100)).iter().map(|t| t.0).collect();
    assert_eq!(q.len(), 3);
    assert!(q.contains(&c));
    assert_eq!(g.query(rect(50, 50, 60, 60)).len(), 0);
}

#[test]
fn aabb_set_aabb_moves_and_keeps() {
    let mut g: AABBGrid<()> = AABBGrid::new(10).unwrap();
    let a = g.insert(rect(1, 1, 2, 2), ()).unwrap();
    // same cells, other box: the box is stored
    g.set_aabb(a, rect(3, 3, 8, 8)).unwrap();
    assert_eq!(g.get(a).unwrap().shape, rect(3, 3, 8, 8));
    assert_eq!(g.query(rect(7, 7, 9, 9)).len(), 1);
    assert_eq!(g.query(rect(0, 0, 2, 2)).len(), 0);
    // other cells
    g.set_aabb(a, rect(31, 31, 45, 32)).unwrap();
    assert_eq!(g.query_broad(rect(0, 0, 9, 9)), vec![]);
    assert_eq!(g.query_broad(rect(40, 30, 41, 31)), vec![a]);
    assert_eq!(g.len(), 1);
}

#[test]
fn aabb_remove_and_clear() {
    let mut g: AABBGrid<i32> = AABBGrid::new(10).unwrap();
    let a = g.insert(rect(0, 0, 15, 15), 10).unwrap();
    let b = g.insert(rect(5, 5, 6, 6), 20).unwrap();
    assert_eq!(g.remove(a), Some(10));
    assert_eq!(g.remove(a), None);
    assert!(g.get(a).is_none());
    assert_eq!(g.handles(), vec![b]);
    assert_eq!(g.objects(), vec![&20]);
    assert_eq!(g.query_broad(rect(0, 0, 19, 19)), vec![b]);
    let drained = g.clear();
    assert_eq!(drained, vec![(rect(5, 5, 6, 6), 20)]);
    assert!(g.is_empty());
    assert_eq!(g.storage().cells().len(), 0);
    assert_eq!(g.query_broad(rect(0, 0, 19, 19)), vec![]);
}

#[test]
fn aabb_errors() {
    assert!(matches!(AABBGrid::<()>::new(0), Err(GridError::CellSizeInvalid)));
    assert!(matches!(AABBGrid::<()>::new(-3), Err(GridError::CellSizeInvalid)));
    let mut g: AABBGrid<()> = AABBGrid::new(10).unwrap();
    let bad = AABB { ll: Point::new(5, 5), ur: Point::new(4, 9) };
    assert_eq!(g.insert(bad, ()), Err(GridError::AABBInvalid));
    let a = g.insert(rect(0, 0, 1, 1), ()).unwrap();
    assert_eq!(g.set_aabb(a, bad), Err(GridError::AABBInvalid));
    g.remove(a);
    assert_eq!(g.set_aabb(a, rect(0, 0, 1, 1)), Err(GridError::HandleInvalid));
}

#[test]
fn aabb_visitors() {
    let mut g: AABBGrid<i32> = AABBGrid::new(10).unwrap();
    // nothing in the grid: the visitor gets nothing
    let mut none = HandleList { handles: vec![] };
    g.query_broad_visitor(rect(1, 1, 1, 1), &mut none);
    assert_eq!(none.handles, vec![]);
    let a = g.insert(rect(0, 0, 25, 5), 1).unwrap();
    let b = g.insert(rect(100, 100, 101, 101), 2).unwrap();
    // what the visitor had stays, and a handle that many cells hold comes once
    let mut seen = HandleList { handles: vec![b] };
    g.query_broad_visitor(rect(0, 0, 29, 9), &mut seen);
    assert_eq!(seen.handles, vec![b, a]);
    assert_eq!(seen.handles[1..], g.query_broad(rect(0, 0, 29, 9))[..]);
    let mut all = ObjectList { objects: vec![] };
    g.query_visitor(rect(-5, -5, 200, 200), &mut all);
    all.objects.sort_by_key(|t| t.0);
    let mut want = vec![(a, rect(0, 0, 25, 5), 1), (b, rect(100, 100, 101, 101), 2)];
    want.sort_by_key(|t| t.0);
    assert_eq!(all.objects, want);
    let mut met = ObjectList { objects: vec![] };
    g.query_visitor(rect(26, 0, 99, 99), &mut met);
    assert_eq!(met.objects, vec![]);
}

#[test]
fn aabb_visitor_is_called_once_for_each_find() {
    let mut g: AABBGrid<()> = AABBGrid::new(10).unwrap();
    let mut n = 0;
    g.query_broad_visitor(rect(1, 1, 1, 1), &mut CallWithHandle::new(|_| n += 1));
    assert_eq!(n, 0);
    for i in 0..5 {
        g.insert(rect(10 * i, 0, 10 * i + 35, 3), ()).unwrap();
    }
    g.query_broad_visitor(rect(0, 0, 100, 9), &mut CallWithHandle::new(|_| n += 1));
    assert_eq!(n, 5);
    let mut met = Vec::new();
    g.query_visitor(
        rect(0, 0, 9, 9),
        &mut CallWithObject::new(|h, b: &AABB, _: &()| met.push((h, *b))),
    );
    assert_eq!(met.len(), 1);
    assert_eq!(met[0].1, rect(0, 0, 35, 3));
    assert_eq!(g.get(met[0].0).unwrap().shape, rect(0, 0, 35, 3));
}
