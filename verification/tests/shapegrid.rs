use flat_spatial::shape::Circle;
use flat_spatial::shape::Point;
use flat_spatial::shape::AABB;
use flat_spatial::storage::Storage;
use flat_spatial::DenseShapeGrid;
use flat_spatial::SparseShapeGrid;

#[test]
fn shapegrid_test_small_query() {
    let mut g: DenseShapeGrid<(), Point> = DenseShapeGrid::new(10).unwrap();
    let a = g.insert(Point::new(5, 0), ()).unwrap();
    let b = g.insert(Point::new(11, 0), ()).unwrap();
    let c = g.insert(Point::new(5, 8), ()).unwrap();

    let near: Vec<_> = g.query_around(Point::new(6, 0), 2).iter().map(|x| x.0).collect();
    assert_eq!(near, vec![a]);

    let mid: Vec<_> = g.query_around(Point::new(8, 0), 4).iter().map(|x| x.0).collect();
    assert!(mid.contains(&a));
    assert!(mid.contains(&b));

    let far: Vec<_> = g.query_around(Point::new(6, 0), 10).iter().map(|x| x.0).collect();
    assert!(far.contains(&a));
    assert!(far.contains(&b));
    assert!(far.contains(&c));
}

// Coordinates are counted in halves, so that the radius of nine and a half is 19.
#[test]
fn shapegrid_test_big_query_around() {
    let mut g: DenseShapeGrid<(), Point> = DenseShapeGrid::new(20).unwrap();

    for i in 0..100 {
        g.insert(Point::new(2 * i, 0), ()).unwrap();
    }

    let q: Vec<_> = g.query_around(Point::new(30, 0), 19).iter().map(|x| x.0).collect();
    assert_eq!(q.len(), 19); // 1 middle, 8 left, 8 right
}

// Coordinates are counted in halves, so that the corners lie at 5.5 and 15.5.
#[test]
fn shapegrid_test_big_query_rect() {
    let mut g: DenseShapeGrid<(), Point> = DenseShapeGrid::new(20).unwrap();

    for i in 0..100 {
        g.insert(Point::new(2 * i, 0), ()).unwrap();
    }

    let q: Vec<_> = g
        .query(AABB::new(Point::new(11, 2), Point::new(31, -2)))
        .iter()
        .map(|x| x.0)
        .collect();
    assert_eq!(q.len(), 10);
}

// Coordinates are counted in tenths, so that the radii are 5.1 and 4.9.
#[test]
fn shapegrid_test_distance_test() {
    let mut g: DenseShapeGrid<(), Point> = DenseShapeGrid::new(100).unwrap();
    let a = g.insert(Point::new(30, 40), ()).unwrap();

    let far: Vec<_> = g.query_around(Point::new(0, 0), 51).iter().map(|x| x.0).collect();
    assert_eq!(far, vec![a]);

    let near: Vec<_> = g.query_around(Point::new(0, 0), 49).iter().map(|x| x.0).collect();
    assert_eq!(near, vec![]);
}

#[test]
fn shapegrid_test_change_position() {
    let mut g: DenseShapeGrid<(), Point> = DenseShapeGrid::new(10).unwrap();
    let a = g.insert(Point::new(0, 0), ()).unwrap();

    let before: Vec<_> = g.query_around(Point::new(0, 0), 5).iter().map(|x| x.0).collect();
    assert_eq!(before, vec![a]);

    g.set_shape(a, Point::new(30, 30)).unwrap();

    let before: Vec<_> = g.query_around(Point::new(0, 0), 5).iter().map(|x| x.0).collect();
    assert_eq!(before, vec![]);

    let after: Vec<_> = g.query_around(Point::new(30, 30), 5).iter().map(|x| x.0).collect();
    assert_eq!(after, vec![a]);
}

#[test]
fn shapegrid_test_no_cell() {
    let mut g: DenseShapeGrid<(), Circle> = DenseShapeGrid::new(10).unwrap();
    g.insert(
        Circle {
            center: Point::new(15, 15),
            radius: 6,
        },
        (),
    )
    .unwrap();

    let s = g.storage();
    assert!(s
        .cell(s.cell_id(Point::new(1, 1)))
        .unwrap()
        .objs
        .is_empty());
}

#[test]
fn shapegrid_test_circle_inter() {
    let c = Circle {
        center: Point::new(15, 15),
        radius: 6,
    };
    let mut g: DenseShapeGrid<(), Circle> = DenseShapeGrid::new(10).unwrap();
    let a = g.insert(c, ()).unwrap();

    assert_eq!(
        g.query(Circle {
            center: Point::new(5, 5),
            radius: 6,
        })
        .len(),
        0
    );

    assert_eq!(
        g.query(Circle {
            center: Point::new(5, 5),
            radius: 10,
        })
        .first()
        .map(|x| x.0),
        Some(a)
    );
}

#[test]
fn shapegrid_test_remove() {
    let mut g: DenseShapeGrid<(), Point> = DenseShapeGrid::new(10).unwrap();
    let a = g.insert(Point::new(0, 0), ()).unwrap();

    let before: Vec<_> = g.query_around(Point::new(0, 0), 5).iter().map(|x| x.0).collect();
    assert_eq!(before, vec![a]);

    g.remove(a).unwrap();
    let b = g.insert(Point::new(0, 0), ()).unwrap();

    assert_eq!(g.handles(), vec![b]);

    let after: Vec<_> = g.query_around(Point::new(0, 0), 5).iter().map(|x| x.0).collect();
    assert_eq!(after, vec![b]);
}

#[test]
fn shapegrid_test_resize() {
    let mut g: DenseShapeGrid<(), Point> = DenseShapeGrid::new(10).unwrap();
    let a = g.insert(Point::new(-1000, 0), ()).unwrap();

    let q: Vec<_> = g.query_around(Point::new(-1000, 0), 5).iter().map(|x| x.0).collect();
    assert_eq!(q, vec![a]);

    let b = g.insert(Point::new(0, 1000), ()).unwrap();

    let q: Vec<_> = g.query_around(Point::new(0, 1000), 5).iter().map(|x| x.0).collect();
    assert_eq!(q, vec![b]);
}

// Coordinates are counted in halves, so that the radius of nine and a half is 19.
#[test]
fn shapegrid_test_big_query_around_vert() {
    let mut g: DenseShapeGrid<(), Point> = DenseShapeGrid::new(20).unwrap();

    for i in 0..100 {
        g.insert(Point::new(0, 2 * i), ()).unwrap();
    }

    let q: Vec<_> = g.query_around(Point::new(0, 30), 19).iter().map(|x| x.0).collect();
    assert_eq!(q.len(), 19); // 1 middle, 8 left, 8 right
}

#[test]
fn sparse_shapegrid_test_small_query() {
    let mut g: SparseShapeGrid<(), Point> = SparseShapeGrid::new(10).unwrap();
    let a = g.insert(Point::new(5, 0), ()).unwrap();
    let b = g.insert(Point::new(11, 0), ()).unwrap();
    let c = g.insert(Point::new(5, 8), ()).unwrap();

    let near: Vec<_> = g.query_around(Point::new(6, 0), 2).iter().map(|x| x.0).collect();
    assert_eq!(near, vec![a]);

    let mid: Vec<_> = g.query_around(Point::new(8, 0), 4).iter().map(|x| x.0).collect();
    assert!(mid.contains(&a));
    assert!(mid.contains(&b));

    let far: Vec<_> = g.query_around(Point::new(6, 0), 10).iter().map(|x| x.0).collect();
    assert!(far.contains(&a));
    assert!(far.contains(&b));
    assert!(far.contains(&c));
}

// Coordinates are counted in halves, so that the radius of nine and a half is 19.
#[test]
fn sparse_shapegrid_test_big_query_around() {
    let mut g: SparseShapeGrid<(), Point> = SparseShapeGrid::new(20).unwrap();

    for i in 0..100 {
        g.insert(Point::new(2 * i, 0), ()).unwrap();
    }

    let q: Vec<_> = g.query_around(Point::new(30, 0), 19).iter().map(|x| x.0).collect();
    assert_eq!(q.len(), 19); // 1 middle, 8 left, 8 right
}

// Coordinates are counted in halves, so that the corners lie at 5.5 and 15.5.
#[test]
fn sparse_shapegrid_test_big_query_rect() {
    let mut g: SparseShapeGrid<(), Point> = SparseShapeGrid::new(20).unwrap();

    for i in 0..100 {
        g.insert(Point::new(2 * i, 0), ()).unwrap();
    }

    let q: Vec<_> = g
        .query(AABB::new(Point::new(11, 2), Point::new(31, -2)))
        .iter()
        .map(|x| x.0)
        .collect();
    assert_eq!(q.len(), 10);
}

// Coordinates are counted in tenths, so that the radii are 5.1 and 4.9.
#[test]
fn sparse_shapegrid_test_distance_test() {
    let mut g: SparseShapeGrid<(), Point> = SparseShapeGrid::new(100).unwrap();
    let a = g.insert(Point::new(30, 40), ()).unwrap();

    let far: Vec<_> = g.query_around(Point::new(0, 0), 51).iter().map(|x| x.0).collect();
    assert_eq!(far, vec![a]);

    let near: Vec<_> = g.query_around(Point::new(0, 0), 49).iter().map(|x| x.0).collect();
    assert_eq!(near, vec![]);
}

#[test]
fn sparse_shapegrid_test_change_position() {
    let mut g: SparseShapeGrid<(), Point> = SparseShapeGrid::new(10).unwrap();
    let a = g.insert(Point::new(0, 0), ()).unwrap();

    let before: Vec<_> = g.query_around(Point::new(0, 0), 5).iter().map(|x| x.0).collect();
    assert_eq!(before, vec![a]);

    g.set_shape(a, Point::new(30, 30)).unwrap();

    let before: Vec<_> = g.query_around(Point::new(0, 0), 5).iter().map(|x| x.0).collect();
    assert_eq!(before, vec![]);

    let after: Vec<_> = g.query_around(Point::new(30, 30), 5).iter().map(|x| x.0).collect();
    assert_eq!(after, vec![a]);
}

#[test]
fn sparse_shapegrid_test_no_cell() {
    let mut g: SparseShapeGrid<(), Circle> = SparseShapeGrid::new(10).unwrap();
    g.insert(
        Circle {
            center: Point::new(15, 15),
            radius: 6,
        },
        (),
    )
    .unwrap();

    let s = g.storage();
    assert!(s
        .cell(s.cell_id(Point::new(1, 1)))
        .unwrap()
        .objs
        .is_empty());
}

#[test]
fn sparse_shapegrid_test_circle_inter() {
    let c = Circle {
        center: Point::new(15, 15),
        radius: 6,
    };
    let mut g: SparseShapeGrid<(), Circle> = SparseShapeGrid::new(10).unwrap();
    let a = g.insert(c, ()).unwrap();

    assert_eq!(
        g.query(Circle {
            center: Point::new(5, 5),
            radius: 6,
        })
        .len(),
        0
    );

    assert_eq!(
        g.query(Circle {
            center: Point::new(5, 5),
            radius: 10,
        })
        .first()
        .map(|x| x.0),
        Some(a)
    );
}

#[test]
fn sparse_shapegrid_test_remove() {
    let mut g: SparseShapeGrid<(), Point> = SparseShapeGrid::new(10).unwrap();
    let a = g.insert(Point::new(0, 0), ()).unwrap();

    let before: Vec<_> = g.query_around(Point::new(0, 0), 5).iter().map(|x| x.0).collect();
    assert_eq!(before, vec![a]);

    g.remove(a).unwrap();
    let b = g.insert(Point::new(0, 0), ()).unwrap();

    assert_eq!(g.handles(), vec![b]);

    let after: Vec<_> = g.query_around(Point::new(0, 0), 5).iter().map(|x| x.0).collect();
    assert_eq!(after, vec![b]);
}

#[test]
fn sparse_shapegrid_test_resize() {
    let mut g: SparseShapeGrid<(), Point> = SparseShapeGrid::new(10).unwrap();
    let a = g.insert(Point::new(-1000, 0), ()).unwrap();

    let q: Vec<_> = g.query_around(Point::new(-1000, 0), 5).iter().map(|x| x.0).collect();
    assert_eq!(q, vec![a]);

    let b = g.insert(Point::new(0, 1000), ()).unwrap();

    let q: Vec<_> = g.query_around(Point::new(0, 1000), 5).iter().map(|x| x.0).collect();
    assert_eq!(q, vec![b]);
}

// Coordinates are counted in halves, so that the radius of nine and a half is 19.
#[test]
fn sparse_shapegrid_test_big_query_around_vert() {
    let mut g: SparseShapeGrid<(), Point> = SparseShapeGrid::new(20).unwrap();

    for i in 0..100 {
        g.insert(Point::new(0, 2 * i), ()).unwrap();
    }

    let q: Vec<_> = g.query_around(Point::new(0, 30), 19).iter().map(|x| x.0).collect();
    assert_eq!(q.len(), 19); // 1 middle, 8 left, 8 right
}

// The corners are drawn from whole numbers, and the radius of the query is
// one: the smallest in which the corner itself lies.
#[test]
fn test_rand() {
    let mut g: SparseShapeGrid<(), AABB> = SparseShapeGrid::new(50).unwrap();

    fastrand::seed(0);
    for _ in 0..1000 {
        let aabb = AABB::new(
            Point {
                x: fastrand::i32(-500..500),
                y: fastrand::i32(-500..500),
            },
            Point {
                x: fastrand::i32(-500..500),
                y: fastrand::i32(-500..500),
            },
        );

        let h = g.insert(aabb, ()).unwrap();
        assert_eq!(
            g.query_around(aabb.ll, 1)
                .iter()
                .map(|(a, _, _)| *a)
                .collect::<Vec<_>>(),
            vec![h]
        );
        assert_eq!(
            g.query_around(aabb.ur, 1)
                .iter()
                .map(|(a, _, _)| *a)
                .collect::<Vec<_>>(),
            vec![h]
        );
        g.remove(h).unwrap();
    }
}
