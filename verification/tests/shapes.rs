use flat_spatial::math::floor_div;
use flat_spatial::shape::around_box;
use flat_spatial::shape::distance_squared;
use flat_spatial::shape::Circle;
use flat_spatial::shape::Intersect;
use flat_spatial::shape::Point;
use flat_spatial::shape::Segment;
use flat_spatial::shape::Shape;
use flat_spatial::shape::AABB;

fn rect(x1: i32, y1: i32, x2: i32, y2: i32) -> AABB {
    AABB::new(Point::new(x1, y1), Point::new(x2, y2))
}

#[test]
fn floor_div_rounds_down() {
    assert_eq!(floor_div(7, 10), 0);
    assert_eq!(floor_div(10, 10), 1);
    assert_eq!(floor_div(0, 10), 0);
    assert_eq!(floor_div(-1, 10), -1);
    assert_eq!(floor_div(-10, 10), -1);
    assert_eq!(floor_div(-11, 10), -2);
    assert_eq!(floor_div(i32::MIN, 1), i32::MIN);
    assert_eq!(floor_div(i32::MIN, 10), -214748365);
    assert_eq!(floor_div(i32::MAX, i32::MAX), 1);
    assert_eq!(floor_div(i32::MIN, i32::MAX), -2);
}

#[test]
fn distance_squared_is_exact() {
    assert_eq!(distance_squared(Point::new(0, 0), Point::new(3, 4)), 25);
    assert_eq!(distance_squared(Point::new(-1, -1), Point::new(-1, -1)), 0);
    assert_eq!(
        distance_squared(Point::new(i32::MIN, i32::MIN), Point::new(i32::MAX, i32::MAX)),
        2 * (u32::MAX as u128) * (u32::MAX as u128)
    );
}

#[test]
fn aabb_new_orders_the_corners() {
    let b = AABB::new(Point::new(5, -1), Point::new(-3, 7));
    assert_eq!(b.ll, Point::new(-3, -1));
    assert_eq!(b.ur, Point::new(5, 7));
    assert!(b.is_valid());
    assert!(!AABB { ll: Point::new(1, 0), ur: Point::new(0, 0) }.is_valid());
    assert!(b.contains(Point::new(-3, 7)));
    assert!(b.contains(Point::new(0, 0)));
    assert!(!b.contains(Point::new(6, 0)));
    assert!(!b.contains(Point::new(0, -2)));
}

#[test]
fn around_box_stops_where_the_plane_ends() {
    assert_eq!(around_box(Point::new(0, 0), 5), rect(-5, -5, 5, 5));
    assert_eq!(
        around_box(Point::new(i32::MAX, i32::MIN), 10),
        rect(i32::MAX - 10, i32::MIN, i32::MAX, i32::MIN + 10)
    );
    assert_eq!(
        around_box(Point::new(7, 7), u32::MAX),
        rect(i32::MIN, i32::MIN, i32::MAX, i32::MAX)
    );
}

#[test]
fn boxes_meet_when_they_share_a_point() {
    assert!(rect(0, 0, 4, 4).intersects(rect(4, 4, 8, 8)));
    assert!(rect(0, 0, 4, 4).intersects(rect(1, 1, 2, 2)));
    assert!(rect(1, 1, 2, 2).intersects(rect(0, 0, 4, 4)));
    assert!(!rect(0, 0, 4, 4).intersects(rect(5, 0, 8, 4)));
    assert!(!rect(0, 0, 4, 4).intersects(rect(0, -8, 4, -1)));
    assert!(rect(i32::MIN, i32::MIN, i32::MAX, i32::MAX).intersects(rect(0, 0, 0, 0)));
    assert_eq!(rect(3, 4, 1, 2).bbox(), rect(1, 2, 3, 4));
}

#[test]
fn point_meets_the_box_it_lies_in() {
    assert!(Point::new(4, 4).intersects(rect(0, 0, 4, 4)));
    assert!(!Point::new(5, 4).intersects(rect(0, 0, 4, 4)));
    assert!(rect(0, 0, 4, 4).intersects(Point::new(0, 0)));
    assert_eq!(Point::new(2, -2).bbox(), rect(2, -2, 2, -2));
}

#[test]
fn circle_meets_what_comes_nearer_than_its_radius() {
    let c = Circle { center: Point::new(15, 15), radius: 6 };
    assert_eq!(c.bbox(), rect(9, 9, 21, 21));
    // the nearest point of the box is (10, 10): 50 is not less than 36
    assert!(!c.intersects(rect(0, 0, 10, 10)));
    assert!(c.intersects(rect(10, 10, 20, 20)));
    assert!(c.intersects(rect(0, 10, 10, 20)));
    // the border does not count
    assert!(!c.intersects(rect(0, 10, 9, 20)));
    assert!(rect(0, 10, 10, 20).intersects(c));
    let d = Circle { center: Point::new(5, 5), radius: 6 };
    // 200 is not less than 144
    assert!(!d.intersects(c));
    assert!(Circle { center: Point::new(5, 5), radius: 10 }.intersects(c));
    // circles that touch do not meet
    assert!(!Circle { center: Point::new(0, 0), radius: 2 }
        .intersects(Circle { center: Point::new(5, 0), radius: 3 }));
    assert!(Circle { center: Point::new(0, 0), radius: 3 }
        .intersects(Circle { center: Point::new(5, 0), radius: 3 }));
    assert!(!Circle { center: Point::new(0, 0), radius: 5 }.intersects(Point::new(3, 4)));
    assert!(Circle { center: Point::new(0, 0), radius: 6 }.intersects(Point::new(3, 4)));
    assert!(Circle { center: Point::new(0, 0), radius: u32::MAX }
        .intersects(Circle { center: Point::new(i32::MAX, i32::MIN), radius: u32::MAX }));
}

#[test]
fn segments_meet_when_they_cross() {
    let s = Segment::new(Point::new(0, 0), Point::new(10, 10));
    assert!(s.intersects(Segment::new(Point::new(0, 10), Point::new(10, 0))));
    assert!(!s.intersects(Segment::new(Point::new(0, 1), Point::new(9, 10))));
    assert!(!s.intersects(Segment::new(Point::new(20, 0), Point::new(20, 30))));
    assert_eq!(Segment::new(Point::new(4, 1), Point::new(0, 3)).bbox(), rect(0, 1, 4, 3));
    // an end inside
    assert!(s.intersects(rect(-1, -1, 1, 1)));
    // through the box, both ends outside
    assert!(Segment::new(Point::new(-5, 2), Point::new(15, 3)).intersects(rect(0, 0, 10, 10)));
    assert!(rect(0, 0, 10, 10).intersects(Segment::new(Point::new(-5, 2), Point::new(15, 3))));
    assert!(!Segment::new(Point::new(-5, 20), Point::new(15, 21)).intersects(rect(0, 0, 10, 10)));
    assert!(!s.intersects(Point::new(5, 5)));
    let sides = rect(0, 0, 2, 1).segments();
    assert_eq!(
        sides,
        vec![
            Segment::new(Point::new(0, 0), Point::new(2, 0)),
            Segment::new(Point::new(2, 0), Point::new(2, 1)),
            Segment::new(Point::new(2, 1), Point::new(0, 1)),
            Segment::new(Point::new(0, 1), Point::new(0, 0)),
        ]
    );
}
