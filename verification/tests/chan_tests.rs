use convex_hull_rs::chan::chans_algorithm;
use convex_hull_rs::graham::graham_scan;
use convex_hull_rs::jarvis::jarvis_march;
use convex_hull_rs::point::Point;
use convex_hull_rs::quickhull::quickhull;

fn regular_polygon(n: i32, radius: f64) -> Vec<Point> {
    (0..n)
        .map(|i| {
            let angle = 2.0 * std::f64::consts::PI * i as f64 / n as f64;
            Point::new((radius * angle.cos()).round() as i32, (radius * angle.sin()).round() as i32)
        })
        .collect()
}

#[test]
fn chan_test_square() {
    let pts = vec![
        Point::new(0, 0),
        Point::new(4, 0),
        Point::new(4, 4),
        Point::new(0, 4),
        Point::new(2, 2),
    ];
    let hull = chans_algorithm(&pts);
    assert_eq!(hull.len(), 4);
}

#[test]
fn chan_test_triangle() {
    let pts = vec![Point::new(0, 0), Point::new(4, 0), Point::new(2, 3), Point::new(2, 1)];
    let hull = chans_algorithm(&pts);
    assert_eq!(hull.len(), 3);
}

#[test]
fn chan_test_collinear() {
    let pts = vec![Point::new(0, 0), Point::new(1, 0), Point::new(2, 0)];
    let hull = chans_algorithm(&pts);
    assert!(hull.len() <= 2);
}

#[test]
fn chan_test_single_point() {
    let pts = vec![Point::new(1, 1)];
    assert_eq!(chans_algorithm(&pts).len(), 1);
}

#[test]
fn chan_test_two_points() {
    let pts = vec![Point::new(0, 0), Point::new(1, 1)];
    assert_eq!(chans_algorithm(&pts).len(), 2);
}

#[test]
fn chan_test_large_random() {
    let mut pts = Vec::new();
    for i in 0..200 {
        let x = ((i * 13 + 7) % 400) - 200;
        let y = ((i * 17 + 11) % 400) - 200;
        pts.push(Point::new(x, y));
    }
    let hull_chans = chans_algorithm(&pts);
    let hull_graham = graham_scan(&pts);
    assert_eq!(hull_chans.len(), hull_graham.len());
}

#[test]
fn chan_test_pentagon() {
    let pts = regular_polygon(5, 1_000_000.0);
    let hull = chans_algorithm(&pts);
    assert_eq!(hull.len(), 5);
}

#[test]
fn test_all_algorithms_agree() {
    let pts = vec![
        Point::new(0, 0),
        Point::new(5, 0),
        Point::new(5, 5),
        Point::new(0, 5),
        Point::new(1, 1),
        Point::new(4, 1),
        Point::new(2, 3),
    ];
    let h1 = graham_scan(&pts);
    let h2 = jarvis_march(&pts);
    let h3 = quickhull(&pts);
    let h4 = chans_algorithm(&pts);
    assert_eq!(h1.len(), h2.len());
    assert_eq!(h2.len(), h3.len());
    assert_eq!(h3.len(), h4.len());
}

#[test]
fn chan_matches_jarvis_reversed() {
    let pts = vec![
        Point::new(6, 1),
        Point::new(0, 0),
        Point::new(7, 5),
        Point::new(3, 8),
        Point::new(-2, 4),
        Point::new(2, 2),
        Point::new(4, 4),
        Point::new(1, 6),
    ];
    // Chan wraps clockwise, the Jarvis march counter-clockwise, both from the
    // leftmost point
    let mut reversed = jarvis_march(&pts);
    reversed[1..].reverse();
    assert_eq!(chans_algorithm(&pts), reversed);
}

#[test]
fn all_algorithms_agree_on_vertex_sets() {
    let mut pts = Vec::new();
    for i in 0..120 {
        pts.push(Point::new((i * 41 + 5) % 97 - 48, (i * 23 + 19) % 89 - 44));
    }
    let mut h1 = graham_scan(&pts);
    let mut h2 = jarvis_march(&pts);
    let mut h3 = quickhull(&pts);
    let mut h4 = chans_algorithm(&pts);
    for h in [&mut h1, &mut h2, &mut h3, &mut h4] {
        h.sort_by_key(|p| (p.x, p.y));
    }
    assert_eq!(h1, h2);
    assert_eq!(h2, h3);
    assert_eq!(h3, h4);
}

/// On points of one line every algorithm returns the two ends of the line's
/// stretch of points.
#[test]
fn all_algorithms_agree_on_collinear_points() {
    let pts = vec![
        Point::new(2, 1),
        Point::new(8, 4),
        Point::new(-4, -2),
        Point::new(0, 0),
        Point::new(6, 3),
        Point::new(-2, -1),
    ];
    let mut ends = vec![
        graham_scan(&pts),
        jarvis_march(&pts),
        quickhull(&pts),
        chans_algorithm(&pts),
    ];
    for h in ends.iter_mut() {
        h.sort_by_key(|p| (p.x, p.y));
        assert_eq!(*h, vec![Point::new(-4, -2), Point::new(8, 4)]);
    }
}

/// On points that are all one point, every algorithm returns that point once.
#[test]
fn identical_points_by_each_algorithm() {
    let pts = vec![Point::new(3, 3); 4];
    assert_eq!(graham_scan(&pts), vec![Point::new(3, 3)]);
    assert_eq!(chans_algorithm(&pts), vec![Point::new(3, 3)]);
    assert_eq!(jarvis_march(&pts), vec![Point::new(3, 3)]);
    assert_eq!(quickhull(&pts), vec![Point::new(3, 3)]);
}

/// Chan's wrap runs clockwise from the leftmost (then lowest) point.
#[test]
fn chan_square_in_clockwise_order() {
    let pts = vec![
        Point::new(0, 0),
        Point::new(4, 0),
        Point::new(4, 4),
        Point::new(0, 4),
        Point::new(2, 2),
    ];
    let hull = chans_algorithm(&pts);
    assert_eq!(hull, vec![Point::new(0, 0), Point::new(0, 4), Point::new(4, 4), Point::new(4, 0)]);
    for i in 0..hull.len() {
        let a = hull[i];
        let b = hull[(i + 1) % hull.len()];
        let c = hull[(i + 2) % hull.len()];
        assert_eq!(a.orientation(&b, &c), convex_hull_rs::point::Orientation::Clockwise);
    }
}

/// All four algorithms list the same points, equally many, on a polygon with
/// inner points, on points of one line, and on copies of one point.
#[test]
fn all_algorithms_list_the_same_vertices() {
    let inputs = vec![
        vec![
            Point::new(3, 9),
            Point::new(-4, 2),
            Point::new(1, 1),
            Point::new(8, -3),
            Point::new(0, -6),
            Point::new(2, 2),
            Point::new(-5, -5),
        ],
        vec![Point::new(2, 1), Point::new(6, 3), Point::new(-2, -1), Point::new(4, 2)],
        vec![Point::new(7, 7), Point::new(7, 7), Point::new(7, 7)],
    ];
    for pts in &inputs {
        let g = graham_scan(pts);
        for other in [jarvis_march(pts), quickhull(pts), chans_algorithm(pts)] {
            assert_eq!(g.len(), other.len());
            for p in &g {
                assert!(other.contains(p));
            }
            for p in &other {
                assert!(g.contains(p));
            }
        }
    }
}
