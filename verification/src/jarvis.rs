//! Jarvis march (gift wrapping).
//!
//! Starting from the leftmost point, repeatedly picks the point such that every
//! other point lies on the left of the edge to it, until the wrap returns to the
//! start. Output-sensitive: O(nh) where h is the number of hull vertices.

use vstd::prelude::*;
use crate::point::{Point, Orientation, cross, dist_sq};
use crate::geometry::{cr, dt, in_half_plane, lemma_half_fan, lemma_lagrange};
use crate::hull::{
    drawn_from, outlines, distinct, left_lower, supports, wraps, copy_points, lemma_same_ray_same_dist,
    lemma_distinct_len, is_convex_hull, collinear_set, lemma_wrap_closed, lemma_same_collinear, spans, on_segment,
    lemma_cross_symmetries,
};

verus! {

/// `p` is a point of `pts`, and no point of `pts` is to its left, or as far
/// left and lower.
pub open spec fn is_leftmost(p: Point, pts: Seq<Point>) -> bool {
    &&& pts.contains(p)
    &&& forall|i: int| 0 <= i < pts.len() ==> left_lower(p, #[trigger] pts[i])
}

/// Seen from `c`, the point `p` is `c` itself or lies in the half-open
/// half-plane on the left of the direction (dx, dy), the ray pointing back
/// along (dx, dy) included.
pub open spec fn in_front(c: Point, dx: int, dy: int, p: Point) -> bool {
    p == c || in_half_plane(dx, dy, -1, p.x - c.x, p.y - c.y)
}

/// Every point of `pts` is in front of `c` for the direction (dx, dy).
pub open spec fn all_in_front(c: Point, dx: int, dy: int, pts: Seq<Point>) -> bool {
    forall|j: int| 0 <= j < pts.len() ==> in_front(c, dx, dy, #[trigger] pts[j])
}

pub proof fn lemma_vector_facts(c: Point, a: Point, b: Point)
    ensures
        cross(c, a, b) == cr(a.x - c.x, a.y - c.y, b.x - c.x, b.y - c.y),
        cross(c, a, b) == -cross(c, b, a),
        cross(c, a, b) == cross(a, b, c),
        dist_sq(c, a) == dt(a.x - c.x, a.y - c.y, a.x - c.x, a.y - c.y),
        dist_sq(c, a) >= 0,
        dist_sq(c, a) == 0 <==> a == c,
        a == c ==> cross(c, a, b) == 0 && cross(c, b, a) == 0,
{
    assert(cross(c, a, b) == -cross(c, b, a)) by (nonlinear_arith);
    assert(cross(c, a, b) == cross(a, b, c)) by (nonlinear_arith);
    assert(dist_sq(c, a) == dt(a.x - c.x, a.y - c.y, a.x - c.x, a.y - c.y)) by (nonlinear_arith);
    assert(dist_sq(c, a) >= 0) by (nonlinear_arith);
    assert(dist_sq(c, a) == 0 ==> a == c) by (nonlinear_arith);
    assert(a == c ==> dist_sq(c, a) == 0) by (nonlinear_arith);
    assert(a == c ==> cross(c, a, b) == 0 && cross(c, b, a) == 0) by (nonlinear_arith);
}

pub proof fn lemma_fan_at(c: Point, dx: int, dy: int, u: Point, v: Point, w: Point)
    requires
        in_front(c, dx, dy, u),
        in_front(c, dx, dy, v),
        in_front(c, dx, dy, w),
        u != c,
        v != c,
        w != c,
    ensures
        cross(c, u, v) > 0 && cross(c, v, w) >= 0 ==> cross(c, u, w) > 0,
        cross(c, u, v) >= 0 && cross(c, v, w) > 0 ==> cross(c, u, w) > 0,
        cross(c, u, v) == 0 && cross(c, v, w) == 0 ==> cross(c, u, w) == 0,
        cross(c, u, v) == 0 ==> dt(u.x - c.x, u.y - c.y, v.x - c.x, v.y - c.y) > 0,
{
    lemma_vector_facts(c, u, v);
    lemma_vector_facts(c, v, w);
    lemma_vector_facts(c, u, w);
    lemma_half_fan(dx, dy, -1, u.x - c.x, u.y - c.y, v.x - c.x, v.y - c.y, w.x - c.x, w.y - c.y);
}

/// Replacing the candidate `u` by a point `v` on its right keeps every point
/// `w` already passed on the left of the candidate edge.
pub proof fn lemma_cw_replace(c: Point, dx: int, dy: int, u: Point, v: Point, w: Point)
    requires
        in_front(c, dx, dy, u),
        in_front(c, dx, dy, v),
        in_front(c, dx, dy, w),
        u != c,
        cross(c, u, v) < 0,
        cross(c, u, w) >= 0,
    ensures
        cross(c, v, w) >= 0,
        cross(c, v, w) == 0 ==> dist_sq(c, w) <= dist_sq(c, v),
{
    lemma_vector_facts(c, u, v);
    lemma_vector_facts(c, v, u);
    lemma_vector_facts(c, v, w);
    lemma_vector_facts(c, w, v);
    if w != c {
        lemma_fan_at(c, dx, dy, v, u, w);
    }
}

/// Replacing the candidate `u` by a farther point `v` on the same ray keeps
/// every point `w` already passed on the left of the candidate edge.
pub proof fn lemma_far_replace(c: Point, dx: int, dy: int, u: Point, v: Point, w: Point)
    requires
        in_front(c, dx, dy, u),
        in_front(c, dx, dy, v),
        in_front(c, dx, dy, w),
        u != c,
        cross(c, u, v) == 0,
        dist_sq(c, v) > dist_sq(c, u),
        cross(c, u, w) >= 0,
        cross(c, u, w) == 0 ==> dist_sq(c, w) <= dist_sq(c, u),
    ensures
        cross(c, v, w) >= 0,
        cross(c, v, w) == 0 ==> dist_sq(c, w) <= dist_sq(c, v),
{
    lemma_vector_facts(c, u, v);
    lemma_vector_facts(c, v, u);
    lemma_vector_facts(c, v, w);
    lemma_vector_facts(c, w, v);
    lemma_vector_facts(c, u, w);
    if w != c {
        lemma_fan_at(c, dx, dy, v, u, w);
    }
}

/// After the wrap moves from `c` to `n`, every point is in front of `n` for
/// the direction of the edge c -> n.
pub proof fn lemma_advance(c: Point, dx: int, dy: int, n: Point, pts: Seq<Point>)
    requires
        all_in_front(c, dx, dy, pts),
        pts.contains(n),
        n != c,
        wraps(c, n, pts),
    ensures
        all_in_front(n, n.x - c.x, n.y - c.y, pts),
{
    let ddx = n.x - c.x;
    let ddy = n.y - c.y;
    assert forall|j: int| 0 <= j < pts.len() implies in_front(n, ddx, ddy, #[trigger] pts[j]) by {
        let p = pts[j];
        let wx = p.x - c.x;
        let wy = p.y - c.y;
        lemma_vector_facts(c, n, p);
        lemma_vector_facts(c, p, n);
        assert(cr(ddx, ddy, wx - ddx, wy - ddy) == cr(ddx, ddy, wx, wy)) by (nonlinear_arith);
        assert(dt(ddx, ddy, wx - ddx, wy - ddy) == dt(ddx, ddy, wx, wy) - dt(ddx, ddy, ddx, ddy)) by (nonlinear_arith);
        assert(p.x - n.x == wx - ddx && p.y - n.y == wy - ddy);
        if cross(c, n, p) == 0 && p != n {
            let k = choose|k: int| 0 <= k < pts.len() && pts[k] == n;
            assert(in_front(c, dx, dy, pts[k]));
            let dd = dt(ddx, ddy, ddx, ddy);
            let ww = dt(wx, wy, wx, wy);
            let dw = dt(ddx, ddy, wx, wy);
            assert(dd > 0);
            if p == c {
                assert(dw == 0) by (nonlinear_arith)
                    requires
                        wx == 0,
                        wy == 0,
                        dw == ddx * wx + ddy * wy,
                ;
            } else {
                lemma_fan_at(c, dx, dy, n, p, p);
                lemma_lagrange(ddx, ddy, wx, wy);
                let z = cr(ddx, ddy, wx, wy);
                assert(z == 0);
                assert(ww <= dd);
                assert(dw < dd) by {
                    if dw >= dd {
                        assert(ww == dd) by (nonlinear_arith)
                            requires
                                dw * dw + z * z == dd * ww,
                                z == 0,
                                dw >= dd,
                                dd > 0,
                                ww <= dd,
                        ;
                        lemma_same_ray_same_dist(c, n, p);
                    }
                }
            }
        }
    }
}

/// From a vertex `c` other than the start `s`, the wrap either closes at `s`
/// or moves on counter-clockwise around `s`.
pub proof fn lemma_turn(s: Point, c: Point, n: Point, dx: int, dy: int, sx: int, sy: int)
    requires
        c != s,
        n != c,
        in_front(c, dx, dy, s),
        in_front(c, dx, dy, n),
        in_front(s, sx, sy, c),
        in_front(s, sx, sy, n),
        cross(c, n, s) >= 0,
        cross(c, n, s) == 0 ==> dist_sq(c, s) <= dist_sq(c, n),
    ensures
        n == s || cross(s, c, n) > 0,
{
    lemma_vector_facts(s, c, n);
    lemma_vector_facts(c, n, s);
    lemma_vector_facts(c, s, n);
    if cross(c, n, s) == 0 && n != s {
        lemma_fan_at(c, dx, dy, n, s, s);
        let ddx = n.x - c.x;
        let ddy = n.y - c.y;
        let wx = s.x - c.x;
        let wy = s.y - c.y;
        let dd = dt(ddx, ddy, ddx, ddy);
        let ww = dt(wx, wy, wx, wy);
        let dw = dt(ddx, ddy, wx, wy);
        let z = cr(ddx, ddy, wx, wy);
        lemma_lagrange(ddx, ddy, wx, wy);
        assert(z == 0);
        assert(ww < dd) by {
            if ww == dd {
                lemma_same_ray_same_dist(c, n, s);
            }
        }
        assert(dw > ww) by (nonlinear_arith)
            requires
                dw * dw + z * z == dd * ww,
                z == 0,
                dw > 0,
                ww < dd,
                ww > 0,
        ;
        // seen from s, the points c and n lie in opposite directions
        let ax = c.x - s.x;
        let ay = c.y - s.y;
        let bx = n.x - s.x;
        let by = n.y - s.y;
        assert(cr(ax, ay, bx, by) == 0) by (nonlinear_arith)
            requires
                ax == -wx,
                ay == -wy,
                bx == ddx - wx,
                by == ddy - wy,
                z == ddx * wy - ddy * wx,
                z == 0,
        ;
        assert(dt(ax, ay, bx, by) < 0) by (nonlinear_arith)
            requires
                ax == -wx,
                ay == -wy,
                bx == ddx - wx,
                by == ddy - wy,
                dw == ddx * wx + ddy * wy,
                ww == wx * wx + wy * wy,
                dw > ww,
        ;
        lemma_half_fan(sx, sy, -1, ax, ay, bx, by, bx, by);
    }
}

/// A wrap that goes from the start s to p and straight back leaves every
/// point on the segment from s to p.
pub proof fn lemma_wrap_segment(s: Point, p: Point, pts: Seq<Point>, sx: int, sy: int)
    requires
        forall|j: int| 0 <= j < pts.len() ==> in_front(s, sx, sy, #[trigger] pts[j]),
        pts.contains(p),
        s != p,
        wraps(s, p, pts),
        supports(p, s, pts),
    ensures
        spans(s, p, pts),
{
    let kp = choose|k: int| 0 <= k < pts.len() && pts[k] == p;
    assert(in_front(s, sx, sy, pts[kp]));
    let ux = p.x - s.x;
    let uy = p.y - s.y;
    let uu = dt(ux, uy, ux, uy);
    lemma_vector_facts(s, p, p);
    assert forall|j: int| 0 <= j < pts.len() implies #[trigger] on_segment(s, p, pts[j]) by {
        let x = pts[j];
        let vx = x.x - s.x;
        let vy = x.y - s.y;
        lemma_vector_facts(s, p, x);
        lemma_vector_facts(p, s, x);
        lemma_vector_facts(s, x, p);
        assert(cross(s, p, x) >= 0 && cross(p, s, x) >= 0);
        lemma_cross_symmetries(s, p, x);
        assert(cross(s, p, x) == 0);
        assert(dist_sq(s, x) <= dist_sq(s, p));
        let uv = dt(ux, uy, vx, vy);
        if x == s {
            assert(uv == 0) by (nonlinear_arith)
                requires
                    vx == 0,
                    vy == 0,
                    uv == ux * vx + uy * vy,
            ;
        } else {
            lemma_fan_at(s, sx, sy, p, x, x);
        }
        assert(uv >= 0);
        lemma_lagrange(ux, uy, vx, vy);
        lemma_vector_facts(s, x, x);
        let vv = dt(vx, vy, vx, vy);
        assert(uv <= uu) by (nonlinear_arith)
            requires
                uv * uv + 0 * 0 == uu * vv,
                vv <= uu,
                uv >= 0,
                uu > 0,
        ;
        assert(dt(s.x - p.x, s.y - p.y, x.x - p.x, x.y - p.y) == uu - uv) by (nonlinear_arith)
            requires
                ux == p.x - s.x,
                uy == p.y - s.y,
                vx == x.x - s.x,
                vy == x.y - s.y,
                uu == ux * ux + uy * uy,
                uv == ux * vx + uy * vy,
        ;
    }
}

fn leftmost_index(points: &[Point]) -> (start: usize)
    requires
        points@.len() > 0,
    ensures
        start < points@.len(),
        is_leftmost(points@[start as int], points@),
        forall|j: int| 0 <= j < start ==> points@[j] != points@[start as int],
{
    let n = points.len();
    let mut start: usize = 0;
    for i in 0..n
        invariant
            n == points@.len(),
            start < n,
            forall|j: int| 0 <= j < i ==> left_lower(points@[start as int], #[trigger] points@[j]),
            forall|j: int| 0 <= j < start ==> points@[j] != points@[start as int] && left_lower(points@[start as int], #[trigger] points@[j]),
    {
        let p = points[i];
        if p.x < points[start].x || (p.x == points[start].x && p.y < points[start].y) {
            start = i;
        }
    }
    start
}

/// One wrapping step: the index of the point such that no point lies on the
/// right of the edge from `points[current]` to it.
fn next_vertex(points: &[Point], current: usize, start: usize, Ghost(dx): Ghost<int>, Ghost(dy): Ghost<int>) -> (next: usize)
    requires
        points@.len() >= 2,
        current < points@.len(),
        start < points@.len(),
        all_in_front(points@[current as int], dx, dy, points@),
        forall|j: int| 0 <= j < start ==> points@[j] != points@[start as int],
    ensures
        next < points@.len(),
        next != current,
        wraps(points@[current as int], points@[next as int], points@),
        points@[next as int] == points@[current as int] ==> forall|j: int|
            0 <= j < points@.len() ==> #[trigger] points@[j] == points@[current as int],
        (forall|j: int| 0 <= j < points@.len() ==> #[trigger] points@[j] == points@[current as int])
            ==> next == (if current == 0 { 1usize } else { 0usize }),
        points@[current as int] != points@[start as int] && points@[next as int] == points@[start as int]
            ==> next == start,
{
    let n = points.len();
    let c = points[current];
    let ghost pts = points@;
    let ghost same = forall|j: int| 0 <= j < pts.len() ==> #[trigger] pts[j] == c;
    let mut next: usize = 0;
    for i in 0..n
        invariant
            n == pts.len(),
            pts == points@,
            n >= 2,
            current < n,
            start < n,
            c == pts[current as int],
            all_in_front(c, dx, dy, pts),
            forall|j: int| 0 <= j < start ==> pts[j] != pts[start as int],
            same == forall|j: int| 0 <= j < pts.len() ==> #[trigger] pts[j] == c,
            next < n,
            next == current ==> current == 0 && i <= 1,
            next != current ==> forall|j: int| 0 <= j < i ==> cross(c, pts[next as int], #[trigger] pts[j]) >= 0
                && (cross(c, pts[next as int], pts[j]) == 0 ==> dist_sq(c, pts[j]) <= dist_sq(c, pts[next as int])),
            pts[next as int] == c ==> forall|j: int| 0 <= j < i ==> #[trigger] pts[j] == c,
            same ==> next == (if current == 0 { if i <= 1 { 0usize } else { 1usize } } else { 0usize }),
            c != pts[start as int] && pts[next as int] == pts[start as int] ==> next == start,
    {
        let pi = points[i];
        if next == current {
            proof {
                lemma_vector_facts(c, pi, c);
                lemma_vector_facts(c, pi, pi);
                assert forall|j: int| 0 <= j < i + 1 implies cross(c, pts[i as int], #[trigger] pts[j]) >= 0
                    && (cross(c, pts[i as int], pts[j]) == 0 ==> dist_sq(c, pts[j]) <= dist_sq(c, pts[i as int])) by {
                    if j < i {
                        assert(j == 0 && pts[j] == c);
                    }
                }
            }
            next = i;
        } else {
            let pn = points[next];
            let ghost old_next = next;
            proof {
                lemma_vector_facts(c, pn, pi);
                lemma_vector_facts(c, pi, pn);
                lemma_vector_facts(c, pi, pi);
                lemma_vector_facts(c, pn, pn);
            }
            match c.orientation(&pn, &pi) {
                Orientation::Clockwise => {
                    proof {
                        assert forall|j: int| 0 <= j < i + 1 implies cross(c, pi, #[trigger] pts[j]) >= 0
                            && (cross(c, pi, pts[j]) == 0 ==> dist_sq(c, pts[j]) <= dist_sq(c, pi)) by {
                            if j < i {
                                lemma_cw_replace(c, dx, dy, pn, pi, pts[j]);
                            }
                        }
                    }
                    next = i;
                }
                Orientation::Collinear => {
                    if c.dist_sq(&pi) > c.dist_sq(&pn) {
                        proof {
                            assert forall|j: int| 0 <= j < i + 1 implies cross(c, pi, #[trigger] pts[j]) >= 0
                                && (cross(c, pi, pts[j]) == 0 ==> dist_sq(c, pts[j]) <= dist_sq(c, pi)) by {
                                if j < i {
                                    if pn == c {
                                        assert(pts[j] == c);
                                        lemma_vector_facts(c, pts[j], pi);
                                        lemma_vector_facts(c, pi, pts[j]);
                                    } else {
                                        lemma_far_replace(c, dx, dy, pn, pi, pts[j]);
                                    }
                                }
                            }
                        }
                        next = i;
                    }
                }
                Orientation::CounterClockwise => {}
            }
            proof {
                if next == i && pts[i as int] == pts[start as int] && c != pts[start as int] && (i as int) != (start as int) {
                    // a repeat of the start never displaces the candidate chosen when the start was passed
                    assert(start < i);
                    assert(cross(c, pts[old_next as int], pts[start as int]) >= 0);
                }
            }
        }
    }
    next
}

/// Compute the convex hull with the Jarvis march (gift wrapping).
///
/// Returns the hull vertices in counter-clockwise order, starting from the
/// leftmost (then lowest) point. With fewer than three points the input is
/// returned unchanged.
pub fn jarvis_march(points: &[Point]) -> (hull: Vec<Point>)
    ensures
        points@.len() < 3 ==> hull@ == points@,
        // the outline of the points: the vertices of their hull, or of what they reduce to
        points@.len() >= 3 ==> outlines(hull@, points@),
        points@.len() >= 3 ==> {
            &&& 1 <= hull@.len() <= points@.len()
            &&& is_leftmost(hull@[0], points@)
            &&& drawn_from(hull@, points@)
            // every edge, the closing one included, has all points on its left or on it
            &&& forall|k: int| 0 <= k < hull@.len() - 1 ==> #[trigger] supports(hull@[k], hull@[k + 1], points@)
            &&& supports(hull@[hull@.len() - 1], hull@[0], points@)
            &&& (forall|j: int| 0 <= j < points@.len() ==> #[trigger] points@[j] == points@[0])
                ==> hull@ == seq![points@[0]]
            &&& !(forall|j: int| 0 <= j < points@.len() ==> #[trigger] points@[j] == points@[0]) ==> {
                &&& hull@.len() >= 2
                &&& distinct(hull@)
                // the vertices turn counter-clockwise around the start
                &&& forall|a: int, b: int| 1 <= a < b < hull@.len() ==> cross(hull@[0], #[trigger] hull@[a], #[trigger] hull@[b]) > 0
            }
            // a wrap of three or more vertices exactly when the points are not all on one line
            &&& hull@.len() >= 3 <==> !collinear_set(points@)
            &&& hull@.len() >= 3 ==> is_convex_hull(hull@, points@)
            // otherwise the segment that holds every point, unless all points are one
            &&& hull@.len() == 2 && hull@[0] != hull@[1] ==> spans(hull@[0], hull@[1], points@)
        },
{
    if points.len() < 3 {
        return copy_points(points);
    }
    let n = points.len();
    let ghost pts = points@;
    let start = leftmost_index(points);
    let ghost s = pts[start as int];
    let ghost same = forall|j: int| 0 <= j < pts.len() ==> #[trigger] pts[j] == s;
    proof {
        assert forall|j: int| 0 <= j < pts.len() implies in_front(s, 0, -1, #[trigger] pts[j]) by {
            assert(left_lower(s, pts[j]));
        }
        if same {
            assert(start == 0) by {
                if start > 0 {
                    assert(pts[0] == s);
                }
            }
        }
    }
    let mut hull: Vec<Point> = Vec::new();
    hull.push(points[start]);
    let mut current = start;
    let ghost mut dx: int = 0;
    let ghost mut dy: int = -1;
    let mut next = next_vertex(points, current, start, Ghost(dx), Ghost(dy));
    if points[next] == points[start] {
        // every point is the start: the hull is that one point
        proof {
            assert(same);
            assert(pts[0] == s);
            assert(hull@ =~= seq![pts[0]]);
            lemma_same_collinear(pts);
            lemma_cross_symmetries(s, s, s);
            assert forall|j: int| 0 <= j < pts.len() implies cross(hull@[0], hull@[0], #[trigger] pts[j]) >= 0 by {
                lemma_cross_symmetries(s, s, pts[j]);
            }
        }
        return hull;
    }
    proof {
        if same {
            assert(pts[next as int] == s);
        }
    }
    while next != start
        invariant
            !same,
            n == pts.len(),
            pts == points@,
            n >= 3,
            start < n,
            current < n,
            next < n,
            next != current,
            s == pts[start as int],
            is_leftmost(s, pts),
            forall|j: int| 0 <= j < start ==> pts[j] != s,
            forall|j: int| 0 <= j < pts.len() ==> in_front(s, 0, -1, #[trigger] pts[j]),
            same == forall|j: int| 0 <= j < pts.len() ==> #[trigger] pts[j] == s,
            same ==> start == 0,
            1 <= hull@.len() <= n,
            hull@[0] == s,
            hull@[hull@.len() - 1] == pts[current as int],
            drawn_from(hull@, pts),
            forall|k: int| 0 <= k < hull@.len() - 1 ==> #[trigger] wraps(hull@[k], hull@[k + 1], pts),
            wraps(pts[current as int], pts[next as int], pts),
            all_in_front(pts[current as int], dx, dy, pts),
            pts[next as int] == pts[current as int] ==> same,
            same ==> next == (if current == 0 { 1usize } else { 0usize }),
            same ==> hull@.len() == current + 1 && current <= 1,
            pts[current as int] != s && pts[next as int] == s ==> next == start,
            !same ==> distinct(hull@),
            !same ==> forall|k: int| 1 <= k < hull@.len() ==> #[trigger] hull@[k] != s,
            !same ==> forall|a: int, b: int| 1 <= a < b < hull@.len() ==> cross(s, #[trigger] hull@[a], #[trigger] hull@[b]) > 0,
            hull@.len() == 1 ==> current == start,
        decreases n - hull@.len(),
    {
        let ghost c = pts[current as int];
        let ghost p = pts[next as int];
        let ghost before = hull@;
        proof {
            assert forall|j: int| 0 <= j < pts.len() implies cross(c, p, #[trigger] pts[j]) >= 0 by {}
            if !same {
                assert(p != s) by {
                    if p == s {
                        if c == s {
                            // only the first vertex is the start
                            assert(hull@.len() == 1) by {
                                if hull@.len() > 1 {
                                    assert(hull@[hull@.len() - 1] != s);
                                }
                            }
                        }
                    }
                }
                if before.len() >= 2 {
                    assert(c != s) by {
                        assert(before[before.len() - 1] != s);
                    }
                    lemma_turn(s, c, p, dx, dy, 0, -1);
                    assert forall|a: int| 1 <= a < before.len() implies cross(s, #[trigger] before[a], p) > 0 by {
                        if a < before.len() - 1 {
                            let k = choose|k: int| 0 <= k < pts.len() && pts[k] == before[a];
                            let m = choose|m: int| 0 <= m < pts.len() && pts[m] == c;
                            assert(in_front(s, 0, -1, pts[k]));
                            assert(in_front(s, 0, -1, pts[m]));
                            assert(before[a] != s);
                            lemma_fan_at(s, 0, -1, before[a], c, p);
                        }
                    }
                }
            }
        }
        hull.push(points[next]);
        proof {
            assert(hull@ == before.push(p));
            if !same {
                assert forall|a: int, b: int| 0 <= a < b < hull@.len() implies #[trigger] hull@[a] != #[trigger] hull@[b] by {
                    if b < before.len() {
                        assert(hull@[a] == before[a] && hull@[b] == before[b]);
                    } else if a == 0 {
                    } else {
                        assert(cross(s, before[a], p) > 0);
                        lemma_vector_facts(s, p, p);
                    }
                }
                assert forall|a: int, b: int| 1 <= a < b < hull@.len() implies cross(s, #[trigger] hull@[a], #[trigger] hull@[b]) > 0 by {
                    if b < before.len() {
                        assert(hull@[a] == before[a] && hull@[b] == before[b]);
                    }
                }
                lemma_distinct_len(hull@, pts);
            }
            assert forall|k: int| 0 <= k < hull@.len() - 1 implies #[trigger] wraps(hull@[k], hull@[k + 1], pts) by {
                if k < before.len() - 1 {
                    assert(hull@[k] == before[k] && hull@[k + 1] == before[k + 1]);
                }
            }
            if p != c {
                lemma_advance(c, dx, dy, p, pts);
                dx = p.x - c.x;
                dy = p.y - c.y;
            } else {
                assert forall|j: int| 0 <= j < pts.len() implies in_front(p, dx, dy, #[trigger] pts[j]) by {}
            }
        }
        current = next;
        next = next_vertex(points, current, start, Ghost(dx), Ghost(dy));
    }
    proof {
        assert(supports(hull@[hull@.len() - 1], hull@[0], pts)) by {
            assert forall|j: int| 0 <= j < pts.len() implies cross(hull@[hull@.len() - 1], hull@[0], #[trigger] pts[j]) >= 0 by {}
        }
        let all0 = forall|j: int| 0 <= j < pts.len() ==> #[trigger] pts[j] == pts[0];
        assert(all0 == same) by {
            if all0 {
                assert(pts[start as int] == pts[0]);
            }
            if same {
                assert(pts[0] == s);
            }
        }
        assert forall|k: int| 0 <= k < hull@.len() - 1 implies #[trigger] supports(hull@[k], hull@[k + 1], pts) by {
            assert(wraps(hull@[k], hull@[k + 1], pts));
        }
        {
            assert(hull@.len() >= 2);
            lemma_wrap_closed(hull@, pts);
            if hull@.len() == 2 {
                let z: int = 0;
                assert(wraps(hull@[z], hull@[z + 1], pts));
                assert(pts.contains(hull@[1]));
                lemma_wrap_segment(s, hull@[1], pts, 0, -1);
            }
        }
    }
    hull
}

} // verus!
