use convex_hull_rs::graham::graham_scan;
use convex_hull_rs::point::{Orientation, Point};

fn regular_polygon(n: i32, radius: f64) -> Vec<Point> {
    (0..n)
        .map(|i| {
            let angle = 2.0 * std::f64::consts::PI * i as f64 / n as f64;
            Point::new((radius * angle.cos()).round() as i32, (radius * angle.sin()).round() as i32)
        })
        .collect()
}

/// Square with interior point: the hull is the 4 corners.
#[test]
fn test_square_with_interior() {
    let pts = vec![
        Point::new(0, 0),
        Point::new(4, 0),
        Point::new(4, 4),
        Point::new(0, 4),
        Point::new(2, 2),
        Point::new(1, 1),
    ];
    let hull = graham_scan(&pts);
    assert_eq!(hull.len(), 4);
}

/// The triangle (0, 0), (2, 0), (1, 2) with the inner point (1, 0.5), every
/// coordinate doubled so that the points lie on the integer grid.
#[test]
fn graham_test_triangle() {
    let pts = vec![Point::new(0, 0), Point::new(4, 0), Point::new(2, 4), Point::new(2, 1)];
    let hull = graham_scan(&pts);
    assert_eq!(hull.len(), 3);
}

/// Collinear points: degenerate hull.
#[test]
fn graham_test_collinear() {
    let pts = vec![Point::new(0, 0), Point::new(1, 0), Point::new(2, 0), Point::new(3, 0)];
    let hull = graham_scan(&pts);
    assert!(hull.len() <= 2);
}

#[test]
fn graham_test_single_point() {
    let pts = vec![Point::new(1, 1)];
    let hull = graham_scan(&pts);
    assert_eq!(hull.len(), 1);
}

#[test]
fn graham_test_two_points() {
    let pts = vec![Point::new(0, 0), Point::new(1, 1)];
    let hull = graham_scan(&pts);
    assert_eq!(hull.len(), 2);
}

/// Every cyclic triple of the hull turns counter-clockwise.
#[test]
fn graham_test_ccw_ordering() {
    let pts = vec![
        Point::new(0, 0),
        Point::new(10, 0),
        Point::new(10, 10),
        Point::new(0, 10),
        Point::new(5, 5),
    ];
    let hull = graham_scan(&pts);
    for i in 0..hull.len() {
        let a = hull[i];
        let b = hull[(i + 1) % hull.len()];
        let c = hull[(i + 2) % hull.len()];
        assert_eq!(a.orientation(&b, &c), Orientation::CounterClockwise);
    }
}

/// The regular pentagon of radius 1, scaled by 10^6 and rounded to the integer grid.
#[test]
fn graham_test_pentagon() {
    let pts = regular_polygon(5, 1_000_000.0);
    let hull = graham_scan(&pts);
    assert_eq!(hull.len(), 5);
}

#[test]
fn test_duplicate_points() {
    let pts = vec![
        Point::new(0, 0),
        Point::new(0, 0),
        Point::new(1, 0),
        Point::new(1, 0),
        Point::new(0, 1),
        Point::new(0, 1),
    ];
    let hull = graham_scan(&pts);
    assert_eq!(hull.len(), 3);
}

/// Large deterministic test: every hull point comes from the input.
#[test]
fn graham_test_large_random() {
    let mut pts = Vec::new();
    for i in 0..100 {
        let x = ((i * 7 + 13) % 200) - 100;
        let y = ((i * 11 + 37) % 200) - 100;
        pts.push(Point::new(x, y));
    }
    let hull = graham_scan(&pts);
    assert!(hull.len() >= 3);
    for p in &hull {
        assert!(pts.iter().any(|q| q.x == p.x && q.y == p.y));
    }
}

#[test]
fn test_all_identical() {
    let pts = vec![Point::new(5, 5), Point::new(5, 5), Point::new(5, 5)];
    let hull = graham_scan(&pts);
    assert_eq!(hull.len(), 1);
}

/// Eight points on the circle of radius 10, scaled to radius 10^6 and rounded
/// to the integer grid: all are on the hull.
#[test]
fn test_circle_points() {
    let pts = regular_polygon(8, 1_000_000.0);
    let hull = graham_scan(&pts);
    assert_eq!(hull.len(), 8);
}

#[test]
fn graham_exact_square_order() {
    let pts = vec![
        Point::new(4, 4),
        Point::new(0, 4),
        Point::new(2, 2),
        Point::new(0, 0),
        Point::new(4, 0),
    ];
    let hull = graham_scan(&pts);
    assert_eq!(hull, vec![Point::new(0, 0), Point::new(4, 0), Point::new(4, 4), Point::new(0, 4)]);
}

#[test]
fn graham_starts_at_lowest_then_leftmost() {
    let pts = vec![Point::new(3, 0), Point::new(5, 2), Point::new(1, 0), Point::new(2, 6)];
    let hull = graham_scan(&pts);
    assert_eq!(hull[0], Point::new(1, 0));
}

#[test]
fn graham_drops_points_inside_edges() {
    let pts = vec![
        Point::new(0, 0),
        Point::new(2, 0),
        Point::new(4, 0),
        Point::new(4, 2),
        Point::new(4, 4),
        Point::new(0, 4),
        Point::new(0, 2),
    ];
    let hull = graham_scan(&pts);
    assert_eq!(hull, vec![Point::new(0, 0), Point::new(4, 0), Point::new(4, 4), Point::new(0, 4)]);
}

#[test]
fn graham_two_points_returned_unchanged() {
    let pts = vec![Point::new(3, 3), Point::new(3, 3)];
    assert_eq!(graham_scan(&pts), pts);
}

#[test]
fn graham_empty_input() {
    let pts: Vec<Point> = Vec::new();
    assert!(graham_scan(&pts).is_empty());
}
