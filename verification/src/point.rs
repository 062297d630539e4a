//! Points of the integer plane and the exact orientation test.

use vstd::prelude::*;

verus! {

/// A point of the plane with integer coordinates.
#[derive(Clone, Copy, Debug, PartialEq, Eq, Structural)]
pub struct Point {
    /// x-coordinate.
    pub x: i32,
    /// y-coordinate.
    pub y: i32,
}

/// Orientation of an ordered triple of points.
#[derive(Clone, Copy, Debug, PartialEq, Eq, Structural)]
pub enum Orientation {
    /// Counter-clockwise turn (positive cross product).
    CounterClockwise,
    /// Clockwise turn (negative cross product).
    Clockwise,
    /// The three points lie on one line.
    Collinear,
}

/// Cross product of the vectors (a -> b) and (a -> c).
pub open spec fn cross(a: Point, b: Point, c: Point) -> int {
    (b.x - a.x) * (c.y - a.y) - (b.y - a.y) * (c.x - a.x)
}

/// Squared Euclidean distance between two points.
pub open spec fn dist_sq(a: Point, b: Point) -> int {
    (a.x - b.x) * (a.x - b.x) + (a.y - b.y) * (a.y - b.y)
}

/// The orientation of (a, b, c), given by the sign of the cross product.
pub open spec fn orientation_of(a: Point, b: Point, c: Point) -> Orientation {
    if cross(a, b, c) > 0 {
        Orientation::CounterClockwise
    } else if cross(a, b, c) < 0 {
        Orientation::Clockwise
    } else {
        Orientation::Collinear
    }
}

pub proof fn lemma_mul_bound(a: int, b: int)
    requires
        -0x1_0000_0000 <= a <= 0x1_0000_0000,
        -0x1_0000_0000 <= b <= 0x1_0000_0000,
    ensures
        -0x1_0000_0000_0000_0000 <= a * b <= 0x1_0000_0000_0000_0000,
{
    assert(-0x1_0000_0000_0000_0000 <= a * b <= 0x1_0000_0000_0000_0000) by (nonlinear_arith)
        requires
            -0x1_0000_0000 <= a <= 0x1_0000_0000,
            -0x1_0000_0000 <= b <= 0x1_0000_0000,
    ;
}

/// The cross product of three points is far from the bounds of `i128`.
pub proof fn lemma_cross_bounds(a: Point, b: Point, c: Point)
    ensures
        -0x4_0000_0000_0000_0000 <= cross(a, b, c) <= 0x4_0000_0000_0000_0000,
{
    lemma_mul_bound(b.x - a.x, c.y - a.y);
    lemma_mul_bound(b.y - a.y, c.x - a.x);
}

impl Point {
    /// Create a new point.
    pub fn new(x: i32, y: i32) -> (p: Point)
        ensures
            p.x == x,
            p.y == y,
    {
        Point { x, y }
    }

    /// Squared Euclidean distance to another point.
    pub fn dist_sq(&self, other: &Point) -> (d: i128)
        ensures
            d == dist_sq(*self, *other),
    {
        let dx = self.x as i128 - other.x as i128;
        let dy = self.y as i128 - other.y as i128;
        proof {
            lemma_mul_bound(dx as int, dx as int);
            lemma_mul_bound(dy as int, dy as int);
        }
        dx * dx + dy * dy
    }

    /// Cross product of the vectors (self -> b) and (self -> c).
    ///
    /// Positive if the turn self -> b -> c is counter-clockwise, negative if it
    /// is clockwise, zero if the three points are collinear.
    pub fn cross(&self, b: &Point, c: &Point) -> (r: i128)
        ensures
            r == cross(*self, *b, *c),
    {
        let bx = b.x as i128 - self.x as i128;
        let by = b.y as i128 - self.y as i128;
        let cx = c.x as i128 - self.x as i128;
        let cy = c.y as i128 - self.y as i128;
        proof {
            lemma_mul_bound(bx as int, cy as int);
            lemma_mul_bound(by as int, cx as int);
        }
        bx * cy - by * cx
    }

    /// Orientation test for the ordered triple (self, b, c).
    pub fn orientation(&self, b: &Point, c: &Point) -> (o: Orientation)
        ensures
            o == orientation_of(*self, *b, *c),
    {
        let val = self.cross(b, c);
        if val > 0 {
            Orientation::CounterClockwise
        } else if val < 0 {
            Orientation::Clockwise
        } else {
            Orientation::Collinear
        }
    }

    /// Subtract another point from this one (vector subtraction).
    pub fn sub(&self, other: &Point) -> (p: Point)
        requires
            i32::MIN <= self.x - other.x <= i32::MAX,
            i32::MIN <= self.y - other.y <= i32::MAX,
        ensures
            p.x == self.x - other.x,
            p.y == self.y - other.y,
    {
        Point::new(self.x - other.x, self.y - other.y)
    }
}

} // verus!
