use convex_hull_rs::point::{Orientation, Point};
use convex_hull_rs::quickhull::quickhull;

fn regular_polygon(n: i32, radius: f64) -> Vec<Point> {
    (0..n)
        .map(|i| {
            let angle = 2.0 * std::f64::consts::PI * i as f64 / n as f64;
            Point::new((radius * angle.cos()).round() as i32, (radius * angle.sin()).round() as i32)
        })
        .collect()
}

#[test]
fn quickhull_test_square() {
    let pts = vec![
        Point::new(0, 0),
        Point::new(4, 0),
        Point::new(4, 4),
        Point::new(0, 4),
        Point::new(2, 2),
    ];
    let hull = quickhull(&pts);
    assert_eq!(hull.len(), 4);
}

/// The triangle (0, 0), (4, 0), (2, 3) with the inner points (2, 1) and
/// (1, 0.5), every coordinate doubled so that the points lie on the integer grid.
#[test]
fn quickhull_test_triangle() {
    let pts = vec![
        Point::new(0, 0),
        Point::new(8, 0),
        Point::new(4, 6),
        Point::new(4, 2),
        Point::new(2, 1),
    ];
    let hull = quickhull(&pts);
    assert_eq!(hull.len(), 3);
}

#[test]
fn test_collinear_horizontal() {
    let pts = vec![Point::new(0, 0), Point::new(1, 0), Point::new(2, 0)];
    let hull = quickhull(&pts);
    assert!(hull.len() <= 2);
}

#[test]
fn test_collinear_vertical() {
    let pts = vec![Point::new(0, 0), Point::new(0, 1), Point::new(0, 2)];
    let hull = quickhull(&pts);
    assert!(hull.len() <= 2);
}

#[test]
fn quickhull_test_single_point() {
    let pts = vec![Point::new(1, 1)];
    assert_eq!(quickhull(&pts).len(), 1);
}

#[test]
fn quickhull_test_two_points() {
    let pts = vec![Point::new(0, 0), Point::new(1, 1)];
    assert_eq!(quickhull(&pts).len(), 2);
}

#[test]
fn quickhull_test_pentagon() {
    let pts = regular_polygon(5, 1_000_000.0);
    let hull = quickhull(&pts);
    assert_eq!(hull.len(), 5);
}

#[test]
fn test_many_interior_points() {
    let mut pts = vec![
        Point::new(-10, -10),
        Point::new(10, -10),
        Point::new(10, 10),
        Point::new(-10, 10),
    ];
    for i in -9..10 {
        for j in -9..10 {
            pts.push(Point::new(i, j));
        }
    }
    let hull = quickhull(&pts);
    assert_eq!(hull.len(), 4);
}

#[test]
fn test_l_shape() {
    let pts = vec![
        Point::new(0, 0),
        Point::new(0, 5),
        Point::new(3, 5),
        Point::new(3, 3),
        Point::new(5, 3),
        Point::new(5, 0),
    ];
    let hull = quickhull(&pts);
    assert!(hull.len() >= 4);
}

#[test]
fn test_hull_area_positive() {
    let pts = vec![
        Point::new(0, 0),
        Point::new(10, 0),
        Point::new(10, 10),
        Point::new(0, 10),
        Point::new(5, 5),
    ];
    let hull = quickhull(&pts);
    let mut area = 0.0;
    for i in 0..hull.len() {
        let j = (i + 1) % hull.len();
        area += hull[i].x as f64 * hull[j].y as f64;
        area -= hull[j].x as f64 * hull[i].y as f64;
    }
    area = f64::abs(area) / 2.0;
    assert!((area - 100.0).abs() < 1e-6);
}

#[test]
fn quickhull_exact_counter_clockwise_order() {
    let pts = vec![
        Point::new(10, 10),
        Point::new(5, 5),
        Point::new(0, 10),
        Point::new(10, 0),
        Point::new(0, 0),
    ];
    let hull = quickhull(&pts);
    // (0, 10) is the first point with the least x, and a corner: it comes first
    assert_eq!(hull, vec![Point::new(0, 10), Point::new(0, 0), Point::new(10, 0), Point::new(10, 10)]);
    for i in 0..hull.len() {
        let a = hull[i];
        let b = hull[(i + 1) % hull.len()];
        let c = hull[(i + 2) % hull.len()];
        assert_eq!(a.orientation(&b, &c), Orientation::CounterClockwise);
    }
}

#[test]
fn quickhull_vertical_line_gives_lowest_and_highest() {
    let pts = vec![Point::new(2, 5), Point::new(2, -1), Point::new(2, 3), Point::new(2, 7)];
    assert_eq!(quickhull(&pts), vec![Point::new(2, -1), Point::new(2, 7)]);
}

#[test]
fn quickhull_signed_area_is_positive() {
    let mut pts = Vec::new();
    for i in 0..80 {
        pts.push(Point::new((i * 29 + 3) % 83 - 41, (i * 31 + 17) % 89 - 44));
    }
    let hull = quickhull(&pts);
    let mut twice_area: i64 = 0;
    for i in 0..hull.len() {
        let j = (i + 1) % hull.len();
        twice_area += hull[i].x as i64 * hull[j].y as i64 - hull[j].x as i64 * hull[i].y as i64;
    }
    assert!(twice_area > 0);
    for k in 0..hull.len() {
        let a = hull[k];
        let b = hull[(k + 1) % hull.len()];
        for p in &pts {
            assert!(a.cross(&b, p) >= 0);
        }
    }
}

/// Three lower points tie for the farthest from the base line; the middle
/// one lies inside a hull edge and is left out.
#[test]
fn quickhull_drops_boundary_points_on_a_tie() {
    let pts = vec![
        Point::new(0, 0),
        Point::new(4, 0),
        Point::new(1, -1),
        Point::new(3, -1),
        Point::new(2, -1),
        Point::new(2, 3),
    ];
    let hull = quickhull(&pts);
    assert_eq!(
        hull,
        vec![Point::new(0, 0), Point::new(1, -1), Point::new(3, -1), Point::new(4, 0), Point::new(2, 3)]
    );
    let strict = convex_hull_rs::graham::graham_scan(&pts);
    assert_eq!(strict.len(), hull.len());
    for p in &strict {
        assert!(hull.contains(p));
    }
}

/// A point inside the left edge of the hull is not a vertex: the hull starts
/// at the next point of least x, in input order, that ends the edge.
#[test]
fn quickhull_skips_a_point_inside_the_left_edge() {
    let pts = vec![Point::new(0, 0), Point::new(0, -1), Point::new(0, 1), Point::new(5, 0)];
    assert_eq!(quickhull(&pts), vec![Point::new(0, -1), Point::new(5, 0), Point::new(0, 1)]);
    let pts = vec![Point::new(0, 1), Point::new(0, 3), Point::new(0, 0), Point::new(5, 1)];
    assert_eq!(quickhull(&pts), vec![Point::new(0, 3), Point::new(0, 0), Point::new(5, 1)]);
}

/// The hull starts at the first point of least x in input order, here the
/// upper end of the left edge.
#[test]
fn quickhull_starts_at_the_first_leftmost_point() {
    let pts = vec![Point::new(0, 4), Point::new(0, 0), Point::new(4, 0)];
    assert_eq!(quickhull(&pts), vec![Point::new(0, 4), Point::new(0, 0), Point::new(4, 0)]);
    let pts = vec![Point::new(0, 0), Point::new(0, 4), Point::new(4, 0)];
    assert_eq!(quickhull(&pts), vec![Point::new(0, 0), Point::new(4, 0), Point::new(0, 4)]);
}

#[test]
fn quickhull_keeps_every_corner() {
    let mut pts = Vec::new();
    for i in 0..150 {
        pts.push(Point::new((i * 37 + 11) % 101 - 50, (i * 53 + 7) % 103 - 51));
    }
    let hull = quickhull(&pts);
    let jarvis = convex_hull_rs::jarvis::jarvis_march(&pts);
    for p in &jarvis {
        assert!(hull.contains(p));
    }
    for k in 0..hull.len() {
        let a = hull[k];
        let b = hull[(k + 1) % hull.len()];
        for p in &pts {
            assert!(a.cross(&b, p) >= 0);
        }
    }
}
