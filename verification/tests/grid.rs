use flat_spatial::shape::Point;
use flat_spatial::DenseGrid;
use flat_spatial::Grid;
use flat_spatial::SparseGrid;

#[test]
fn densegrid_test_small_query() {
    let mut g: DenseGrid<()> = DenseGrid::new(10).unwrap();
    let a = g.insert(Point::new(5, 0), ()).unwrap();
    let b = g.insert(Point::new(11, 0), ()).unwrap();
    let c = g.insert(Point::new(5, 8), ()).unwrap();

    let near: Vec<_> = g.query_around(Point::new(6, 0), 2).iter().map(|x| x.0).collect();
    assert_eq!(near, vec![a]);

    let mid: Vec<_> = g.query_around(Point::new(8, 0), 4).iter().map(|x| x.0).collect();
    assert!(mid.contains(&a));
    assert!(mid.contains(&b));

    let far: Vec<_> = g.query_around(Point::new(6, 0), 10).iter().map(|x| x.0).collect();
    assert!(far.contains(&a));
    assert!(far.contains(&b));
    assert!(far.contains(&c));
}

// Coordinates are counted in halves, so that the radius of nine and a half is 19.
#[test]
fn densegrid_test_big_query_around() {
    let mut g: DenseGrid<()> = DenseGrid::new(20).unwrap();

    for i in 0..100 {
        g.insert(Point::new(2 * i, 0), ()).unwrap();
    }

    let q: Vec<_> = g.query_around(Point::new(30, 0), 19).iter().map(|x| x.0).collect();
    assert_eq!(q.len(), 19); // 1 middle, 8 left, 8 right
}

// Coordinates are counted in halves, so that the corners lie at 5.5 and 15.5.
#[test]
fn densegrid_test_big_query_rect() {
    let mut g: DenseGrid<()> = DenseGrid::new(20).unwrap();

    for i in 0..100 {
        g.insert(Point::new(2 * i, 0), ()).unwrap();
    }

    let q: Vec<_> = g
        .query_aabb(Point::new(11, 2), Point::new(31, -2))
        .iter()
        .map(|x| x.0)
        .collect();
    assert_eq!(q.len(), 10);
}

// Coordinates are counted in tenths, so that the radii are 5.1 and 4.9.
#[test]
fn densegrid_test_distance_test() {
    let mut g: DenseGrid<()> = DenseGrid::new(100).unwrap();
    let a = g.insert(Point::new(30, 40), ()).unwrap();

    let far: Vec<_> = g.query_around(Point::new(0, 0), 51).iter().map(|x| x.0).collect();
    assert_eq!(far, vec![a]);

    let near: Vec<_> = g.query_around(Point::new(0, 0), 49).iter().map(|x| x.0).collect();
    assert_eq!(near, vec![]);
}

#[test]
fn densegrid_test_change_position() {
    let mut g: DenseGrid<()> = DenseGrid::new(10).unwrap();
    let a = g.insert(Point::new(0, 0), ()).unwrap();

    let before: Vec<_> = g.query_around(Point::new(0, 0), 5).iter().map(|x| x.0).collect();
    assert_eq!(before, vec![a]);

    g.set_position(a, Point::new(30, 30)).unwrap();
    g.maintain();

    let before: Vec<_> = g.query_around(Point::new(0, 0), 5).iter().map(|x| x.0).collect();
    assert_eq!(before, vec![]);

    let after: Vec<_> = g.query_around(Point::new(30, 30), 5).iter().map(|x| x.0).collect();
    assert_eq!(after, vec![a]);
}

#[test]
fn densegrid_test_remove() {
    let mut g: DenseGrid<()> = DenseGrid::new(10).unwrap();
    let a = g.insert(Point::new(0, 0), ()).unwrap();

    let before: Vec<_> = g.query_around(Point::new(0, 0), 5).iter().map(|x| x.0).collect();
    assert_eq!(before, vec![a]);

    g.remove(a).unwrap();
    let b = g.insert(Point::new(0, 0), ()).unwrap();
    g.maintain();

    assert_eq!(g.handles(), vec![b]);

    let after: Vec<_> = g.query_around(Point::new(0, 0), 5).iter().map(|x| x.0).collect();
    assert_eq!(after, vec![b]);
}

#[test]
fn densegrid_test_resize() {
    let mut g: DenseGrid<()> = DenseGrid::new(10).unwrap();
    let a = g.insert(Point::new(-1000, 0), ()).unwrap();

    let q: Vec<_> = g.query_around(Point::new(-1000, 0), 5).iter().map(|x| x.0).collect();
    assert_eq!(q, vec![a]);

    let b = g.insert(Point::new(0, 1000), ()).unwrap();

    let q: Vec<_> = g.query_around(Point::new(0, 1000), 5).iter().map(|x| x.0).collect();
    assert_eq!(q, vec![b]);
}

#[test]
fn grid_test_small_query() {
    let mut g: Grid<()> = Grid::new(10).unwrap();
    let a = g.insert(Point::new(5, 0), ()).unwrap();
    let b = g.insert(Point::new(11, 0), ()).unwrap();
    let c = g.insert(Point::new(5, 8), ()).unwrap();

    let near: Vec<_> = g.query_around(Point::new(6, 0), 2).iter().map(|x| x.0).collect();
    assert_eq!(near, vec![a]);

    let mid: Vec<_> = g.query_around(Point::new(8, 0), 4).iter().map(|x| x.0).collect();
    assert!(mid.contains(&a));
    assert!(mid.contains(&b));

    let far: Vec<_> = g.query_around(Point::new(6, 0), 10).iter().map(|x| x.0).collect();
    assert!(far.contains(&a));
    assert!(far.contains(&b));
    assert!(far.contains(&c));
}

// Coordinates are counted in halves, so that the radius of nine and a half is 19.
#[test]
fn grid_test_big_query_around() {
    let mut g: Grid<()> = Grid::new(20).unwrap();

    for i in 0..100 {
        g.insert(Point::new(2 * i, 0), ()).unwrap();
    }

    let q: Vec<_> = g.query_around(Point::new(30, 0), 19).iter().map(|x| x.0).collect();
    assert_eq!(q.len(), 19); // 1 middle, 8 left, 8 right
}

// Coordinates are counted in halves, so that the corners lie at 5.5 and 15.5.
#[test]
fn grid_test_big_query_rect() {
    let mut g: Grid<()> = Grid::new(20).unwrap();

    for i in 0..100 {
        g.insert(Point::new(2 * i, 0), ()).unwrap();
    }

    let q: Vec<_> = g
        .query_aabb(Point::new(11, 2), Point::new(31, -2))
        .iter()
        .map(|x| x.0)
        .collect();
    assert_eq!(q.len(), 10);
}

// Coordinates are counted in tenths, so that the radii are 5.1 and 4.9.
#[test]
fn grid_test_distance_test() {
    let mut g: Grid<()> = Grid::new(100).unwrap();
    let a = g.insert(Point::new(30, 40), ()).unwrap();

    let far: Vec<_> = g.query_around(Point::new(0, 0), 51).iter().map(|x| x.0).collect();
    assert_eq!(far, vec![a]);

    let near: Vec<_> = g.query_around(Point::new(0, 0), 49).iter().map(|x| x.0).collect();
    assert_eq!(near, vec![]);
}

#[test]
fn grid_test_change_position() {
    let mut g: Grid<()> = Grid::new(10).unwrap();
    let a = g.insert(Point::new(0, 0), ()).unwrap();

    let before: Vec<_> = g.query_around(Point::new(0, 0), 5).iter().map(|x| x.0).collect();
    assert_eq!(before, vec![a]);

    g.set_position(a, Point::new(30, 30)).unwrap();
    g.maintain();

    let before: Vec<_> = g.query_around(Point::new(0, 0), 5).iter().map(|x| x.0).collect();
    assert_eq!(before, vec![]);

    let after: Vec<_> = g.query_around(Point::new(30, 30), 5).iter().map(|x| x.0).collect();
    assert_eq!(after, vec![a]);
}

#[test]
fn grid_test_remove() {
    let mut g: Grid<()> = Grid::new(10).unwrap();
    let a = g.insert(Point::new(0, 0), ()).unwrap();

    let before: Vec<_> = g.query_around(Point::new(0, 0), 5).iter().map(|x| x.0).collect();
    assert_eq!(before, vec![a]);

    g.remove(a).unwrap();
    let b = g.insert(Point::new(0, 0), ()).unwrap();
    g.maintain();

    assert_eq!(g.handles(), vec![b]);

    let after: Vec<_> = g.query_around(Point::new(0, 0), 5).iter().map(|x| x.0).collect();
    assert_eq!(after, vec![b]);
}

#[test]
fn grid_test_resize() {
    let mut g: Grid<()> = Grid::new(10).unwrap();
    let a = g.insert(Point::new(-1000, 0), ()).unwrap();

    let q: Vec<_> = g.query_around(Point::new(-1000, 0), 5).iter().map(|x| x.0).collect();
    assert_eq!(q, vec![a]);

    let b = g.insert(Point::new(0, 1000), ()).unwrap();

    let q: Vec<_> = g.query_around(Point::new(0, 1000), 5).iter().map(|x| x.0).collect();
    assert_eq!(q, vec![b]);
}

#[test]
fn sparsegrid_test_small_query() {
    let mut g: SparseGrid<()> = SparseGrid::new(10).unwrap();
    let a = g.insert(Point::new(5, 0), ()).unwrap();
    let b = g.insert(Point::new(11, 0), ()).unwrap();
    let c = g.insert(Point::new(5, 8), ()).unwrap();
    assert_eq!(g.cells().len(), 2);

    let near: Vec<_> = g.query_around(Point::new(6, 0), 2).iter().map(|x| x.0).collect();
    assert_eq!(near, vec![a]);

    let mid: Vec<_> = g.query_around(Point::new(8, 0), 4).iter().map(|x| x.0).collect();
    assert!(mid.contains(&a));
    assert!(mid.contains(&b));

    let far: Vec<_> = g.query_around(Point::new(6, 0), 10).iter().map(|x| x.0).collect();
    assert!(far.contains(&a));
    assert!(far.contains(&b));
    assert!(far.contains(&c));
}

// Coordinates are counted in halves, so that the radius of nine and a half is 19.
#[test]
fn sparsegrid_test_big_query_around() {
    let mut g: SparseGrid<()> = SparseGrid::new(20).unwrap();

    for i in 0..100 {
        g.insert(Point::new(2 * i, 0), ()).unwrap();
    }

    let q: Vec<_> = g.query_around(Point::new(30, 0), 19).iter().map(|x| x.0).collect();
    assert_eq!(q.len(), 19); // 1 middle, 8 left, 8 right
}

// Coordinates are counted in halves, so that the corners lie at 5.5 and 15.5.
#[test]
fn sparsegrid_test_big_query_rect() {
    let mut g: SparseGrid<()> = SparseGrid::new(20).unwrap();

    for i in 0..100 {
        g.insert(Point::new(2 * i, 0), ()).unwrap();
    }

    let q: Vec<_> = g
        .query_aabb(Point::new(11, 2), Point::new(31, -2))
        .iter()
        .map(|x| x.0)
        .collect();
    assert_eq!(q.len(), 10);
}

// Coordinates are counted in tenths, so that the radii are 5.1 and 4.9.
#[test]
fn sparsegrid_test_distance_test() {
    let mut g: SparseGrid<()> = SparseGrid::new(100).unwrap();
    let a = g.insert(Point::new(30, 40), ()).unwrap();

    let far: Vec<_> = g.query_around(Point::new(0, 0), 51).iter().map(|x| x.0).collect();
    assert_eq!(far, vec![a]);

    let near: Vec<_> = g.query_around(Point::new(0, 0), 49).iter().map(|x| x.0).collect();
    assert_eq!(near, vec![]);
}

#[test]
fn sparsegrid_test_change_position() {
    let mut g: SparseGrid<()> = SparseGrid::new(10).unwrap();
    let a = g.insert(Point::new(0, 0), ()).unwrap();

    let before: Vec<_> = g.query_around(Point::new(0, 0), 5).iter().map(|x| x.0).collect();
    assert_eq!(before, vec![a]);

    g.set_position(a, Point::new(30, 30)).unwrap();
    g.maintain();

    let before: Vec<_> = g.query_around(Point::new(0, 0), 5).iter().map(|x| x.0).collect();
    assert_eq!(before, vec![]);

    let after: Vec<_> = g.query_around(Point::new(30, 30), 5).iter().map(|x| x.0).collect();
    assert_eq!(after, vec![a]);
}

#[test]
fn sparsegrid_test_remove() {
    let mut g: SparseGrid<()> = SparseGrid::new(10).unwrap();
    let a = g.insert(Point::new(0, 0), ()).unwrap();

    let before: Vec<_> = g.query_around(Point::new(0, 0), 5).iter().map(|x| x.0).collect();
    assert_eq!(before, vec![a]);

    g.remove(a).unwrap();
    let b = g.insert(Point::new(0, 0), ()).unwrap();
    g.maintain();

    assert_eq!(g.handles(), vec![b]);

    let after: Vec<_> = g.query_around(Point::new(0, 0), 5).iter().map(|x| x.0).collect();
    assert_eq!(after, vec![b]);
}

#[test]
fn sparsegrid_test_resize() {
    let mut g: SparseGrid<()> = SparseGrid::new(10).unwrap();
    let a = g.insert(Point::new(-1000, 0), ()).unwrap();

    let q: Vec<_> = g.query_around(Point::new(-1000, 0), 5).iter().map(|x| x.0).collect();
    assert_eq!(q, vec![a]);

    let b = g.insert(Point::new(0, 1000), ()).unwrap();

    let q: Vec<_> = g.query_around(Point::new(0, 1000), 5).iter().map(|x| x.0).collect();
    assert_eq!(q, vec![b]);
}

#[test]
fn test_shrink() {
    let mut g: SparseGrid<()> = SparseGrid::new(10).unwrap();
    let a = g.insert(Point::new(5, 0), ()).unwrap();
    g.remove(a).unwrap();
    assert_eq!(g.cells().len(), 1);
    g.maintain();
    assert_eq!(g.cells().len(), 0);
}
