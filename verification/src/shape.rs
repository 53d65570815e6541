use vstd::prelude::*;

verus! {

/// A point of the plane, in world coordinates.
#[derive(Clone, Copy, PartialEq, Eq, Debug, Structural)]
pub struct Point {
    pub x: i32,
    pub y: i32,
}

impl Point {
    pub fn new(x: i32, y: i32) -> (p: Point)
        ensures
            p.x == x,
            p.y == y,
    {
        Point { x, y }
    }
}

/// An axis-aligned box, given by its lower left and upper right corners. A
/// valid box has its lower left corner below and left of its upper right
/// corner, or on it.
#[derive(Clone, Copy, PartialEq, Eq, Debug, Structural)]
pub struct AABB {
    /// Lower left of the box
    pub ll: Point,
    /// Upper right of the box
    pub ur: Point,
}

impl AABB {
    pub open spec fn valid(self) -> bool {
        self.ll.x <= self.ur.x && self.ll.y <= self.ur.y
    }

    /// Whether a point lies in the box, its border included.
    pub open spec fn spec_contains(self, p: Point) -> bool {
        self.ll.x <= p.x <= self.ur.x && self.ll.y <= p.y <= self.ur.y
    }

    /// The box spanned by two points, whichever corners they are.
    pub fn new(one: Point, other: Point) -> (b: AABB)
        ensures
            b.valid(),
            b == span(one, other),
    {
        AABB {
            ll: Point { x: if one.x < other.x { one.x } else { other.x }, y: if one.y < other.y { one.y } else { other.y } },
            ur: Point { x: if one.x < other.x { other.x } else { one.x }, y: if one.y < other.y { other.y } else { one.y } },
        }
    }

    pub fn is_valid(&self) -> (ok: bool)
        ensures
            ok == self.valid(),
    {
        self.ll.x <= self.ur.x && self.ll.y <= self.ur.y
    }

    pub fn contains(&self, p: Point) -> (inside: bool)
        ensures
            inside == self.spec_contains(p),
    {
        p.x >= self.ll.x && p.y >= self.ll.y && p.x <= self.ur.x && p.y <= self.ur.y
    }
}

/// The box spanned by two points, whichever corners they are.
pub open spec fn span(one: Point, other: Point) -> AABB {
    AABB {
        ll: Point {
            x: if one.x < other.x {
                one.x
            } else {
                other.x
            },
            y: if one.y < other.y {
                one.y
            } else {
                other.y
            },
        },
        ur: Point {
            x: if one.x < other.x {
                other.x
            } else {
                one.x
            },
            y: if one.y < other.y {
                other.y
            } else {
                one.y
            },
        },
    }
}

/// The box around a point that reaches `radius` to each side, cut where
/// `i32` ends.
pub open spec fn around(center: Point, radius: int) -> AABB {
    AABB {
        ll: Point {
            x: crate::math::clamp(center.x - radius, i32::MIN as int, i32::MAX as int) as i32,
            y: crate::math::clamp(center.y - radius, i32::MIN as int, i32::MAX as int) as i32,
        },
        ur: Point {
            x: crate::math::clamp(center.x + radius, i32::MIN as int, i32::MAX as int) as i32,
            y: crate::math::clamp(center.y + radius, i32::MIN as int, i32::MAX as int) as i32,
        },
    }
}

/// Computes the box around a point that reaches `radius` to each side.
pub fn around_box(center: Point, radius: u32) -> (b: AABB)
    ensures
        b == around(center, radius as int),
{
    let r: i64 = radius as i64;
    AABB {
        ll: Point {
            x: crate::storage::clamp_i32(center.x as i64 - r),
            y: crate::storage::clamp_i32(center.y as i64 - r),
        },
        ur: Point {
            x: crate::storage::clamp_i32(center.x as i64 + r),
            y: crate::storage::clamp_i32(center.y as i64 + r),
        },
    }
}

/// A point nearer to the center than `radius` lies in the box around the
/// center.
pub proof fn lemma_around(center: Point, radius: int, p: Point)
    requires
        radius >= 0,
        dist2(p, center) < radius * radius,
    ensures
        around(center, radius).spec_contains(p),
{
    let dx = p.x - center.x;
    let dy = p.y - center.y;
    assert(dx * dx >= 0 && dy * dy >= 0) by (nonlinear_arith);
    assert(dx * dx < radius * radius && dy * dy < radius * radius);
    assert(-radius < dx < radius) by (nonlinear_arith)
        requires
            dx * dx < radius * radius,
            radius >= 0,
    ;
    assert(-radius < dy < radius) by (nonlinear_arith)
        requires
            dy * dy < radius * radius,
            radius >= 0,
    ;
}

/// The square of the distance between two points.
pub open spec fn dist2(a: Point, b: Point) -> int {
    (a.x - b.x) * (a.x - b.x) + (a.y - b.y) * (a.y - b.y)
}

/// Computes the square of the distance between two points.
pub fn distance_squared(a: Point, b: Point) -> (d: u128)
    ensures
        d == dist2(a, b),
{
    let dx: i128 = a.x as i128 - b.x as i128;
    let dy: i128 = a.y as i128 - b.y as i128;
    assert(0 <= dx * dx <= 0x1_0000_0000_0000_0000) by (nonlinear_arith)
        requires
            -0x1_0000_0000 <= dx <= 0x1_0000_0000,
    ;
    assert(0 <= dy * dy <= 0x1_0000_0000_0000_0000) by (nonlinear_arith)
        requires
            -0x1_0000_0000 <= dy <= 0x1_0000_0000,
    ;
    (dx * dx + dy * dy) as u128
}

/// Whether two intervals, each given by its ends, have a point in common
/// by the test of the sums: the distance between the middles, doubled, is
/// not more than the lengths together.
pub open spec fn spans_meet(lo1: int, hi1: int, lo2: int, hi2: int) -> bool {
    vstd::math::abs((lo1 + hi1) - (lo2 + hi2)) <= (hi1 - lo1) + (hi2 - lo2)
}

/// For two intervals that do not end before they begin, the test of the
/// sums holds when neither begins after the other ends.
pub proof fn lemma_spans_meet(lo1: int, hi1: int, lo2: int, hi2: int)
    requires
        lo1 <= hi1,
        lo2 <= hi2,
    ensures
        spans_meet(lo1, hi1, lo2, hi2) <==> lo1 <= hi2 && lo2 <= hi1,
{
}

fn spans_meet_exec(lo1: i32, hi1: i32, lo2: i32, hi2: i32) -> (r: bool)
    ensures
        r == spans_meet(lo1 as int, hi1 as int, lo2 as int, hi2 as int),
{
    let d: i64 = (lo1 as i64 + hi1 as i64) - (lo2 as i64 + hi2 as i64);
    let a: i64 = if d < 0 {
        -d
    } else {
        d
    };
    a <= (hi1 as i64 - lo1 as i64) + (hi2 as i64 - lo2 as i64)
}

/// The point of the interval from `lo` to `hi` that is nearest to `x`.
pub open spec fn nearest_in(x: int, lo: int, hi: int) -> int {
    vstd::math::max(vstd::math::min(x, hi), lo)
}

/// A test whether a shape and another shape have a point in common.
pub trait Intersect<T> {
    spec fn spec_intersects(&self, shape: T) -> bool;

    fn intersects(&self, shape: T) -> (r: bool)
        ensures
            r == self.spec_intersects(shape),
    ;
}

/// A shape: something with a box around it that can be tested against a
/// box.
pub trait Shape: Copy + Intersect<AABB> {
    spec fn spec_bbox(&self) -> AABB;

    fn bbox(&self) -> (b: AABB)
        ensures
            b == self.spec_bbox(),
    ;
}

impl Shape for Point {
    open spec fn spec_bbox(&self) -> AABB {
        AABB { ll: *self, ur: *self }
    }

    fn bbox(&self) -> (b: AABB) {
        AABB { ll: *self, ur: *self }
    }
}

impl Intersect<AABB> for Point {
    open spec fn spec_intersects(&self, aabb: AABB) -> bool {
        aabb.spec_contains(*self)
    }

    fn intersects(&self, aabb: AABB) -> (r: bool) {
        aabb.contains(*self)
    }
}

impl Shape for AABB {
    open spec fn spec_bbox(&self) -> AABB {
        *self
    }

    fn bbox(&self) -> (b: AABB) {
        *self
    }
}

impl Intersect<AABB> for AABB {
    open spec fn spec_intersects(&self, b: AABB) -> bool {
        spans_meet(self.ll.x as int, self.ur.x as int, b.ll.x as int, b.ur.x as int) && spans_meet(
            self.ll.y as int,
            self.ur.y as int,
            b.ll.y as int,
            b.ur.y as int,
        )
    }

    fn intersects(&self, b: AABB) -> (r: bool) {
        let x = spans_meet_exec(self.ll.x, self.ur.x, b.ll.x, b.ur.x);
        let y = spans_meet_exec(self.ll.y, self.ur.y, b.ll.y, b.ur.y);
        x && y
    }
}

impl Intersect<Circle> for AABB {
    open spec fn spec_intersects(&self, shape: Circle) -> bool {
        shape.spec_intersects(*self)
    }

    fn intersects(&self, shape: Circle) -> (r: bool) {
        shape.intersects(*self)
    }
}

impl Intersect<Point> for AABB {
    open spec fn spec_intersects(&self, p: Point) -> bool {
        self.spec_contains(p)
    }

    fn intersects(&self, p: Point) -> (r: bool) {
        self.contains(p)
    }
}

/// A disc without its border, given by its center and its radius.
#[derive(Clone, Copy, PartialEq, Eq, Debug, Structural)]
pub struct Circle {
    pub center: Point,
    pub radius: u32,
}

impl Shape for Circle {
    open spec fn spec_bbox(&self) -> AABB {
        around(self.center, self.radius as int)
    }

    fn bbox(&self) -> (b: AABB) {
        around_box(self.center, self.radius)
    }
}

impl Intersect<AABB> for Circle {
    /// The point of the box that is nearest to the center is nearer to it
    /// than the radius.
    open spec fn spec_intersects(&self, b: AABB) -> bool {
        let x = nearest_in(self.center.x as int, b.ll.x as int, b.ur.x as int) - self.center.x;
        let y = nearest_in(self.center.y as int, b.ll.y as int, b.ur.y as int) - self.center.y;
        x * x + y * y < self.radius * self.radius
    }

    fn intersects(&self, b: AABB) -> (r: bool) {
        let nx = if self.center.x < b.ur.x {
            self.center.x
        } else {
            b.ur.x
        };
        let nx = if nx > b.ll.x {
            nx
        } else {
            b.ll.x
        };
        let ny = if self.center.y < b.ur.y {
            self.center.y
        } else {
            b.ur.y
        };
        let ny = if ny > b.ll.y {
            ny
        } else {
            b.ll.y
        };
        let d = distance_squared(Point { x: nx, y: ny }, self.center);
        assert(self.radius * self.radius <= 0xffff_ffff * 0xffff_ffff) by (nonlinear_arith)
            requires
                0 <= self.radius <= 0xffff_ffff,
        ;
        d < (self.radius as u128) * (self.radius as u128)
    }
}

impl Intersect<Circle> for Circle {
    /// The centers are nearer to each other than the radii together.
    open spec fn spec_intersects(&self, c: Circle) -> bool {
        dist2(self.center, c.center) < (self.radius + c.radius) * (self.radius + c.radius)
    }

    fn intersects(&self, c: Circle) -> (r: bool) {
        let sum: u128 = self.radius as u128 + c.radius as u128;
        assert(sum * sum <= 0x1_ffff_fffe * 0x1_ffff_fffe) by (nonlinear_arith)
            requires
                0 <= sum <= 0x1_ffff_fffe,
        ;
        distance_squared(self.center, c.center) < sum * sum
    }
}

impl Intersect<Point> for Circle {
    /// The point is nearer to the center than the radius.
    open spec fn spec_intersects(&self, p: Point) -> bool {
        dist2(self.center, p) < self.radius * self.radius
    }

    fn intersects(&self, p: Point) -> (r: bool) {
        assert(self.radius * self.radius <= 0xffff_ffff * 0xffff_ffff) by (nonlinear_arith)
            requires
                0 <= self.radius <= 0xffff_ffff,
        ;
        distance_squared(self.center, p) < (self.radius as u128) * (self.radius as u128)
    }
}

/// A line segment between two points.
#[derive(Clone, Copy, PartialEq, Eq, Debug, Structural)]
pub struct Segment {
    pub src: Point,
    pub dst: Point,
}

/// Whether the way from `a` over `b` to `c` turns counterclockwise.
pub open spec fn spec_ccw(a: Point, b: Point, c: Point) -> bool {
    (c.y - a.y) * (b.x - a.x) > (b.y - a.y) * (c.x - a.x)
}

fn ccw(a: Point, b: Point, c: Point) -> (r: bool)
    ensures
        r == spec_ccw(a, b, c),
{
    let cay: i128 = c.y as i128 - a.y as i128;
    let bax: i128 = b.x as i128 - a.x as i128;
    let bay: i128 = b.y as i128 - a.y as i128;
    let cax: i128 = c.x as i128 - a.x as i128;
    assert(-0x1_0000_0000_0000_0000 <= cay * bax <= 0x1_0000_0000_0000_0000) by (nonlinear_arith)
        requires
            -0x1_0000_0000 <= cay <= 0x1_0000_0000,
            -0x1_0000_0000 <= bax <= 0x1_0000_0000,
    ;
    assert(-0x1_0000_0000_0000_0000 <= bay * cax <= 0x1_0000_0000_0000_0000) by (nonlinear_arith)
        requires
            -0x1_0000_0000 <= bay <= 0x1_0000_0000,
            -0x1_0000_0000 <= cax <= 0x1_0000_0000,
    ;
    cay * bax > bay * cax
}

impl Segment {
    pub fn new(src: Point, dst: Point) -> (s: Segment)
        ensures
            s.src == src,
            s.dst == dst,
    {
        Self { src, dst }
    }
}

impl AABB {
    /// The four sides of the box, counterclockwise from the lower one.
    pub open spec fn spec_segments(self) -> Seq<Segment> {
        let ul = Point { x: self.ll.x, y: self.ur.y };
        let lr = Point { x: self.ur.x, y: self.ll.y };
        seq![
            Segment { src: self.ll, dst: lr },
            Segment { src: lr, dst: self.ur },
            Segment { src: self.ur, dst: ul },
            Segment { src: ul, dst: self.ll },
        ]
    }

    pub fn segments(&self) -> (r: Vec<Segment>)
        ensures
            r@ == self.spec_segments(),
    {
        let ul = Point { x: self.ll.x, y: self.ur.y };
        let lr = Point { x: self.ur.x, y: self.ll.y };
        let ll = self.ll;
        let ur = self.ur;
        let mut r: Vec<Segment> = Vec::new();
        r.push(Segment::new(ll, lr));
        r.push(Segment::new(lr, ur));
        r.push(Segment::new(ur, ul));
        r.push(Segment::new(ul, ll));
        assert(r@ =~= self.spec_segments());
        r
    }
}

impl Shape for Segment {
    open spec fn spec_bbox(&self) -> AABB {
        span(self.src, self.dst)
    }

    fn bbox(&self) -> (b: AABB) {
        AABB::new(self.src, self.dst)
    }
}

impl Intersect<Segment> for Segment {
    /// The ends of each segment lie on different sides of the other.
    open spec fn spec_intersects(&self, s: Segment) -> bool {
        spec_ccw(self.src, s.src, s.dst) != spec_ccw(self.dst, s.src, s.dst) && spec_ccw(
            self.src,
            self.dst,
            s.src,
        ) != spec_ccw(self.src, self.dst, s.dst)
    }

    fn intersects(&self, s: Segment) -> (r: bool) {
        ccw(self.src, s.src, s.dst) != ccw(self.dst, s.src, s.dst) && ccw(
            self.src,
            self.dst,
            s.src,
        ) != ccw(self.src, self.dst, s.dst)
    }
}

impl Intersect<AABB> for Segment {
    /// An end of the segment lies in the box, or the segment crosses a
    /// side of the box.
    open spec fn spec_intersects(&self, aabb: AABB) -> bool {
        aabb.spec_contains(self.src) || aabb.spec_contains(self.dst) || exists|i: int|
            0 <= i < 4 && (#[trigger] aabb.spec_segments()[i]).spec_intersects(*self)
    }

    fn intersects(&self, aabb: AABB) -> (r: bool) {
        if aabb.contains(self.src) || aabb.contains(self.dst) {
            return true;
        }
        let sides = aabb.segments();
        let mut i: usize = 0;
        while i < 4
            invariant
                i <= 4,
                sides@ == aabb.spec_segments(),
                sides.len() == 4,
                forall|j: int| 0 <= j < i ==> !(#[trigger] sides@[j]).spec_intersects(*self),
            decreases 4 - i,
        {
            if sides[i].intersects(*self) {
                return true;
            }
            i += 1;
        }
        false
    }
}

impl Intersect<Point> for Segment {
    /// A segment has no inside in which a point could lie.
    open spec fn spec_intersects(&self, p: Point) -> bool {
        false
    }

    fn intersects(&self, p: Point) -> (r: bool) {
        false
    }
}

impl Intersect<Segment> for AABB {
    open spec fn spec_intersects(&self, shape: Segment) -> bool {
        shape.spec_intersects(*self)
    }

    fn intersects(&self, shape: Segment) -> (r: bool) {
        shape.intersects(*self)
    }
}

} // verus!
