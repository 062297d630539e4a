use convex_hull_rs::jarvis::jarvis_march;
use convex_hull_rs::point::{Orientation, Point};

fn regular_polygon(n: i32, radius: f64) -> Vec<Point> {
    (0..n)
        .map(|i| {
            let angle = 2.0 * std::f64::consts::PI * i as f64 / n as f64;
            Point::new((radius * angle.cos()).round() as i32, (radius * angle.sin()).round() as i32)
        })
        .collect()
}

#[test]
fn test_square_hull() {
    let pts = vec![
        Point::new(0, 0),
        Point::new(4, 0),
        Point::new(4, 4),
        Point::new(0, 4),
        Point::new(2, 2),
    ];
    let hull = jarvis_march(&pts);
    assert_eq!(hull.len(), 4);
}

#[test]
fn jarvis_test_triangle() {
    let pts = vec![Point::new(0, 0), Point::new(4, 0), Point::new(2, 3), Point::new(2, 1)];
    let hull = jarvis_march(&pts);
    assert_eq!(hull.len(), 3);
}

#[test]
fn jarvis_test_collinear() {
    let pts = vec![Point::new(0, 0), Point::new(1, 1), Point::new(2, 2), Point::new(3, 3)];
    let hull = jarvis_march(&pts);
    assert!(hull.len() <= 2);
}

#[test]
fn jarvis_test_single_point() {
    let pts = vec![Point::new(0, 0)];
    let hull = jarvis_march(&pts);
    assert_eq!(hull.len(), 1);
}

#[test]
fn test_line_segment() {
    let pts = vec![Point::new(0, 0), Point::new(5, 5)];
    let hull = jarvis_march(&pts);
    assert_eq!(hull.len(), 2);
}

#[test]
fn test_many_interior() {
    let mut pts = vec![Point::new(0, 0), Point::new(10, 0), Point::new(10, 10), Point::new(0, 10)];
    for i in 1..9 {
        for j in 1..9 {
            pts.push(Point::new(i, j));
        }
    }
    let hull = jarvis_march(&pts);
    assert_eq!(hull.len(), 4);
}

#[test]
fn jarvis_test_pentagon() {
    let pts = regular_polygon(5, 1_000_000.0);
    let hull = jarvis_march(&pts);
    assert_eq!(hull.len(), 5);
}

#[test]
fn test_hull_contains_extremes() {
    let pts = vec![
        Point::new(-5, -5),
        Point::new(5, -5),
        Point::new(5, 5),
        Point::new(-5, 5),
        Point::new(0, 0),
        Point::new(1, 1),
    ];
    let hull = jarvis_march(&pts);
    assert!(hull.iter().any(|p| p.x == -5 && p.y == -5));
    assert!(hull.iter().any(|p| p.x == 5 && p.y == 5));
}

#[test]
fn jarvis_test_ccw_ordering() {
    let pts = vec![
        Point::new(0, 0),
        Point::new(3, 0),
        Point::new(3, 3),
        Point::new(0, 3),
        Point::new(1, 1),
    ];
    let hull = jarvis_march(&pts);
    assert_eq!(hull.len(), 4);
    for p in &hull {
        assert!(pts.iter().any(|q| q == p));
    }
}

#[test]
fn jarvis_exact_counter_clockwise_order() {
    let pts = vec![
        Point::new(3, 3),
        Point::new(1, 1),
        Point::new(0, 3),
        Point::new(3, 0),
        Point::new(0, 0),
    ];
    let hull = jarvis_march(&pts);
    assert_eq!(hull, vec![Point::new(0, 0), Point::new(3, 0), Point::new(3, 3), Point::new(0, 3)]);
    for i in 0..hull.len() {
        let a = hull[i];
        let b = hull[(i + 1) % hull.len()];
        let c = hull[(i + 2) % hull.len()];
        assert_eq!(a.orientation(&b, &c), Orientation::CounterClockwise);
    }
}

#[test]
fn jarvis_skips_points_inside_edges() {
    let pts = vec![
        Point::new(0, 0),
        Point::new(2, 0),
        Point::new(4, 0),
        Point::new(4, 4),
        Point::new(0, 4),
        Point::new(0, 2),
    ];
    let hull = jarvis_march(&pts);
    assert_eq!(hull, vec![Point::new(0, 0), Point::new(4, 0), Point::new(4, 4), Point::new(0, 4)]);
}

#[test]
fn jarvis_all_identical_points() {
    let pts = vec![Point::new(2, 2), Point::new(2, 2), Point::new(2, 2)];
    let hull = jarvis_march(&pts);
    assert_eq!(hull, vec![Point::new(2, 2)]);
}

#[test]
fn jarvis_repeated_start_point() {
    let pts = vec![
        Point::new(4, 4),
        Point::new(0, 0),
        Point::new(4, 0),
        Point::new(0, 0),
        Point::new(0, 4),
    ];
    let hull = jarvis_march(&pts);
    assert_eq!(hull, vec![Point::new(0, 0), Point::new(4, 0), Point::new(4, 4), Point::new(0, 4)]);
}

#[test]
fn jarvis_every_point_left_of_every_edge() {
    let mut pts = Vec::new();
    for i in 0..60 {
        pts.push(Point::new((i * 37 + 11) % 101 - 50, (i * 53 + 7) % 97 - 48));
    }
    let hull = jarvis_march(&pts);
    for k in 0..hull.len() {
        let a = hull[k];
        let b = hull[(k + 1) % hull.len()];
        for p in &pts {
            assert!(a.cross(&b, p) >= 0);
        }
    }
}
