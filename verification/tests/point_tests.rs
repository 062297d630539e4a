use convex_hull_rs::point::{Orientation, Point};

#[test]
fn test_point_new() {
    let p = Point::new(3, 4);
    assert_eq!(p.x, 3);
    assert_eq!(p.y, 4);
}

#[test]
fn test_dist_sq() {
    let a = Point::new(1, 2);
    let b = Point::new(4, 6);
    assert_eq!(a.dist_sq(&b), 25);
}

#[test]
fn test_orientation_ccw() {
    let a = Point::new(0, 0);
    let b = Point::new(1, 0);
    let c = Point::new(0, 1);
    assert_eq!(a.orientation(&b, &c), Orientation::CounterClockwise);
}

#[test]
fn test_orientation_cw() {
    let a = Point::new(0, 0);
    let b = Point::new(0, 1);
    let c = Point::new(1, 0);
    assert_eq!(a.orientation(&b, &c), Orientation::Clockwise);
}

#[test]
fn test_orientation_collinear() {
    let a = Point::new(0, 0);
    let b = Point::new(1, 1);
    let c = Point::new(2, 2);
    assert_eq!(a.orientation(&b, &c), Orientation::Collinear);
}

#[test]
fn test_cross_product() {
    let a = Point::new(0, 0);
    let b = Point::new(1, 0);
    let c = Point::new(0, 1);
    assert!(a.cross(&b, &c) > 0);
}

#[test]
fn cross_product_exact_value() {
    let a = Point::new(1, 1);
    let b = Point::new(4, 2);
    let c = Point::new(2, 5);
    // (3 * 4) - (1 * 1)
    assert_eq!(a.cross(&b, &c), 11);
    assert_eq!(a.cross(&c, &b), -11);
}

#[test]
fn cross_product_extreme_coordinates() {
    let a = Point::new(i32::MIN, i32::MIN);
    let b = Point::new(i32::MAX, i32::MIN);
    let c = Point::new(i32::MIN, i32::MAX);
    let side: i128 = (i32::MAX as i128) - (i32::MIN as i128);
    assert_eq!(a.cross(&b, &c), side * side);
    assert_eq!(a.dist_sq(&b), side * side);
    assert_eq!(a.orientation(&b, &c), Orientation::CounterClockwise);
}

#[test]
fn orientation_of_nearly_collinear_points() {
    // the three points look nearly collinear, but the cross product is
    // 10^9 * 3 - 1 * (2 * 10^9) = 10^9 > 0: a counter-clockwise turn
    let a = Point::new(0, 0);
    let b = Point::new(1_000_000_000, 1);
    let c = Point::new(2_000_000_000, 3);
    assert_eq!(a.orientation(&b, &c), Orientation::CounterClockwise);
}

#[test]
fn sub_is_vector_difference() {
    let a = Point::new(5, -2);
    let b = Point::new(3, 4);
    assert_eq!(a.sub(&b), Point::new(2, -6));
}

#[test]
fn subtraction_keeps_the_cross_product() {
    let a = Point::new(3, -2);
    let b = Point::new(7, 5);
    let c = Point::new(-1, 4);
    assert_eq!(a.sub(&a), Point::new(0, 0));
    assert_eq!(b.sub(&a), Point::new(4, 7));
    assert_eq!(Point::new(0, 0).cross(&b.sub(&a), &c.sub(&a)), a.cross(&b, &c));
}
