//! What it means for a sequence of points to be a convex hull of a point set,
//! and facts shared by the hull algorithms.

use vstd::prelude::*;
use crate::point::{Point, cross, dist_sq};
use crate::geometry::{cr, dt, in_half_plane, lemma_half_fan, lemma_lagrange, lemma_cross_identity, lemma_decompose, lemma_mul_sub_sub};

verus! {

/// Every point of `h` is a point of `pts`.
pub open spec fn drawn_from(h: Seq<Point>, pts: Seq<Point>) -> bool {
    forall|i: int| 0 <= i < h.len() ==> pts.contains(#[trigger] h[i])
}

/// No point occurs twice in `s`.
pub open spec fn distinct(s: Seq<Point>) -> bool {
    forall|i: int, j: int| 0 <= i < j < s.len() ==> #[trigger] s[i] != #[trigger] s[j]
}

/// A sequence of distinct points drawn from `pts` is no longer than `pts`.
pub proof fn lemma_distinct_len(h: Seq<Point>, pts: Seq<Point>)
    requires
        distinct(h),
        drawn_from(h, pts),
    ensures
        h.len() <= pts.len(),
{
    broadcast use vstd::seq_lib::seq_to_set_is_finite;
    assert(h.no_duplicates()) by {
        assert forall|i: int, j: int| 0 <= i < h.len() && 0 <= j < h.len() && i != j implies h[i] != h[j] by {
            if i < j {
                assert(h[i] != h[j]);
            } else {
                assert(h[j] != h[i]);
            }
        }
    }
    h.unique_seq_to_set();
    assert(h.to_set().subset_of(pts.to_set())) by {
        assert forall|p: Point| h.to_set().contains(p) implies pts.to_set().contains(p) by {
            let i = choose|i: int| 0 <= i < h.len() && h[i] == p;
            assert(pts.contains(h[i]));
        }
    }
    vstd::set_lib::lemma_len_subset(h.to_set(), pts.to_set());
    pts.lemma_cardinality_of_set();
}

/// Every three consecutive points of `h` make a strict counter-clockwise turn.
pub open spec fn ccw_chain(h: Seq<Point>) -> bool {
    forall|i: int| 0 <= i && i + 2 < h.len() ==> #[trigger] cross(h[i], h[i + 1], h[i + 2]) > 0
}

/// `a` is strictly lower than `b`, or as low and not to the right of it.
pub open spec fn lower_left(a: Point, b: Point) -> bool {
    a.y < b.y || (a.y == b.y && a.x <= b.x)
}

/// `a` is strictly to the left of `b`, or as far left and not above it.
pub open spec fn left_lower(a: Point, b: Point) -> bool {
    a.x < b.x || (a.x == b.x && a.y <= b.y)
}

/// Every point of `pts` lies on the left of, or on, the directed line a -> b.
pub open spec fn supports(a: Point, b: Point, pts: Seq<Point>) -> bool {
    forall|j: int| 0 <= j < pts.len() ==> cross(a, b, #[trigger] pts[j]) >= 0
}

/// The edge c -> n was chosen well: no point is on its right, and no point on
/// its line lies farther from `c` than `n`.
pub open spec fn wraps(c: Point, n: Point, pts: Seq<Point>) -> bool {
    forall|j: int|
        0 <= j < pts.len() ==> cross(c, n, #[trigger] pts[j]) >= 0 && (cross(c, n, pts[j]) == 0
            ==> dist_sq(c, pts[j]) <= dist_sq(c, n))
}

/// Copy a slice of points into a vector.
pub fn copy_points(points: &[Point]) -> (out: Vec<Point>)
    ensures
        out@ == points@,
{
    let mut out: Vec<Point> = Vec::new();
    let n = points.len();
    for i in 0..n
        invariant
            n == points@.len(),
            out@ == points@.subrange(0, i as int),
    {
        out.push(points[i]);
        assert(out@ =~= points@.subrange(0, i + 1));
    }
    assert(out@ =~= points@);
    out
}

/// Copy the points `points[start..end]` into a vector.
pub fn copy_range(points: &[Point], start: usize, end: usize) -> (out: Vec<Point>)
    requires
        start <= end <= points@.len(),
    ensures
        out@ == points@.subrange(start as int, end as int),
{
    let mut out: Vec<Point> = Vec::new();
    let mut i = start;
    while i < end
        invariant
            start <= i <= end,
            end <= points@.len(),
            out@ == points@.subrange(start as int, i as int),
        decreases end - i,
    {
        out.push(points[i]);
        i = i + 1;
        proof {
            assert(out@ =~= points@.subrange(start as int, i as int));
        }
    }
    out
}

/// Two points at the same distance in the same direction from `o` are equal.
pub proof fn lemma_same_ray_same_dist(o: Point, a: Point, b: Point)
    requires
        cross(o, a, b) == 0,
        dt(a.x - o.x, a.y - o.y, b.x - o.x, b.y - o.y) > 0,
        dist_sq(o, a) == dist_sq(o, b),
    ensures
        a == b,
{
    let ux = a.x - o.x;
    let uy = a.y - o.y;
    let vx = b.x - o.x;
    let vy = b.y - o.y;
    lemma_lagrange(ux, uy, vx, vy);
    let d = dt(ux, uy, vx, vy);
    let uu = dt(ux, uy, ux, uy);
    let vv = dt(vx, vy, vx, vy);
    assert(dist_sq(o, a) == uu) by (nonlinear_arith)
        requires
            ux == a.x - o.x,
            uy == a.y - o.y,
            uu == ux * ux + uy * uy,
    ;
    assert(dist_sq(o, b) == vv) by (nonlinear_arith)
        requires
            vx == b.x - o.x,
            vy == b.y - o.y,
            vv == vx * vx + vy * vy,
    ;
    let c = cr(ux, uy, vx, vy);
    assert(c == 0);
    assert(uu >= 0) by (nonlinear_arith)
        requires
            uu == ux * ux + uy * uy,
    ;
    assert(d == uu) by (nonlinear_arith)
        requires
            d * d + c * c == uu * vv,
            c == 0,
            uu == vv,
            d > 0,
            uu >= 0,
    ;
    assert((ux - vx) * (ux - vx) + (uy - vy) * (uy - vy) == uu - 2 * d + vv) by (nonlinear_arith)
        requires
            uu == ux * ux + uy * uy,
            vv == vx * vx + vy * vy,
            d == ux * vx + uy * vy,
    ;
    assert(ux == vx && uy == vy) by (nonlinear_arith)
        requires
            (ux - vx) * (ux - vx) + (uy - vy) * (uy - vy) == 0,
    ;
}

/// `q` lies in the closed triangle a, b, c (given counter-clockwise).
pub open spec fn in_triangle(a: Point, b: Point, c: Point, q: Point) -> bool {
    cross(a, b, q) >= 0 && cross(b, c, q) >= 0 && cross(c, a, q) >= 0
}

/// `q` lies on the closed segment from x to y.
pub open spec fn on_segment(x: Point, y: Point, q: Point) -> bool {
    &&& cross(x, y, q) == 0
    &&& dt(y.x - x.x, y.y - x.y, q.x - x.x, q.y - x.y) >= 0
    &&& dt(x.x - y.x, x.y - y.y, q.x - y.x, q.y - y.y) >= 0
}

/// The points of `h` after the first, `o`, turn counter-clockwise around it.
pub open spec fn fan_around(o: Point, h: Seq<Point>) -> bool {
    &&& h.len() >= 1
    &&& h[0] == o
    &&& forall|a: int, b: int| 1 <= a < b < h.len() ==> cross(o, #[trigger] h[a], #[trigger] h[b]) > 0
    &&& forall|k: int| 1 <= k < h.len() ==> #[trigger] h[k] != o
}

/// `q` lies in the region swept by `h` around its first point `o`: it is `o`,
/// lies on the first edge, or lies in one of the triangles o, h[k], h[k + 1].
pub open spec fn covered(o: Point, h: Seq<Point>, q: Point) -> bool {
    ||| q == o
    ||| (h.len() >= 2 && on_segment(o, h[1], q))
    ||| exists|k: int| 1 <= k && k + 1 < h.len() && #[trigger] in_triangle(o, h[k], h[k + 1], q)
}

/// Rotating the three points, and exchanging two of them, as the cross
/// product allows.
pub proof fn lemma_cross_symmetries(a: Point, b: Point, c: Point)
    ensures
        cross(a, b, c) == cross(b, c, a),
        cross(a, b, c) == cross(c, a, b),
        cross(a, b, c) == -cross(a, c, b),
        cross(a, b, c) == -cross(b, a, c),
        cross(a, b, c) == -cross(c, b, a),
        cross(a, b, c) == cr(b.x - a.x, b.y - a.y, c.x - a.x, c.y - a.y),
        cross(a, a, c) == 0,
        cross(a, b, a) == 0,
        cross(a, b, b) == 0,
{
    assert(cross(a, b, c) == cross(b, c, a)) by (nonlinear_arith);
    assert(cross(a, b, c) == cross(c, a, b)) by (nonlinear_arith);
    assert(cross(a, b, c) == -cross(a, c, b)) by (nonlinear_arith);
    assert(cross(a, b, c) == -cross(b, a, c)) by (nonlinear_arith);
    assert(cross(a, b, c) == -cross(c, b, a)) by (nonlinear_arith);
    assert(cross(a, a, c) == 0) by (nonlinear_arith);
    assert(cross(a, b, a) == 0) by (nonlinear_arith);
    assert(cross(a, b, b) == 0) by (nonlinear_arith);
}

/// An affine function of the plane: the cross product of the direction
/// (ex, ey) with the vector from (bx, by) to `q`.
pub open spec fn aff(ex: int, ey: int, bx: int, by: int, q: Point) -> int {
    cr(ex, ey, q.x - bx, q.y - by)
}

/// The value of an affine function at a point, weighted by the area of a
/// triangle, is the combination of its values at the corners with the
/// barycentric weights of the point.
pub proof fn lemma_triangle_affine(a: Point, b: Point, c: Point, q: Point, ex: int, ey: int, px: int, py: int)
    ensures
        cross(a, b, c) * aff(ex, ey, px, py, q) == cross(b, c, q) * aff(ex, ey, px, py, a)
            + cross(c, a, q) * aff(ex, ey, px, py, b) + cross(a, b, q) * aff(ex, ey, px, py, c),
{
    let bx = b.x - a.x;
    let by = b.y - a.y;
    let cx = c.x - a.x;
    let cy = c.y - a.y;
    let wx = q.x - a.x;
    let wy = q.y - a.y;
    let la = aff(ex, ey, px, py, a);
    let lb = aff(ex, ey, px, py, b);
    let lc = aff(ex, ey, px, py, c);
    let lq = aff(ex, ey, px, py, q);
    let t = cross(a, b, c);
    let w1 = cross(b, c, q);
    let w2 = cross(c, a, q);
    let w3 = cross(a, b, q);
    let db = cr(ex, ey, bx, by);
    let dc = cr(ex, ey, cx, cy);
    let dq = cr(ex, ey, wx, wy);
    assert(lb == db + la) by (nonlinear_arith)
        requires
            lb == ex * (b.y - py) - ey * (b.x - px),
            la == ex * (a.y - py) - ey * (a.x - px),
            db == ex * by - ey * bx,
            bx == b.x - a.x,
            by == b.y - a.y,
    ;
    assert(lc == dc + la) by (nonlinear_arith)
        requires
            lc == ex * (c.y - py) - ey * (c.x - px),
            la == ex * (a.y - py) - ey * (a.x - px),
            dc == ex * cy - ey * cx,
            cx == c.x - a.x,
            cy == c.y - a.y,
    ;
    assert(lq == dq + la) by (nonlinear_arith)
        requires
            lq == ex * (q.y - py) - ey * (q.x - px),
            la == ex * (a.y - py) - ey * (a.x - px),
            dq == ex * wy - ey * wx,
            wx == q.x - a.x,
            wy == q.y - a.y,
    ;
    lemma_cross_symmetries(c, a, q);
    assert(w2 == cr(wx, wy, cx, cy));
    assert(w1 == (cx - bx) * (wy - by) - (cy - by) * (wx - bx));
    lemma_mul_sub_sub(cx, bx, wy, by);
    lemma_mul_sub_sub(cy, by, wx, bx);
    assert(w1 + w2 + w3 == t) by (nonlinear_arith)
        requires
            w1 == (cx * wy - cx * by - bx * wy + bx * by) - (cy * wx - cy * bx - by * wx + by * bx),
            w2 == wx * cy - wy * cx,
            w3 == bx * wy - by * wx,
            t == bx * cy - by * cx,
    ;
    lemma_cross_identity(ex, ey, bx, by, cx, cy, wx, wy);
    let cbw = cr(cx, cy, wx, wy);
    assert(cbw == -w2);
    assert(t * dq == w2 * db + w3 * dc) by (nonlinear_arith)
        requires
            t * dq + cbw * db + cr(wx, wy, bx, by) * dc == 0,
            cbw == -w2,
            cr(wx, wy, bx, by) == -w3,
            w3 == cr(bx, by, wx, wy),
    ;
    assert(w2 * lb == w2 * db + w2 * la) by (nonlinear_arith)
        requires
            lb == db + la,
    ;
    assert(w3 * lc == w3 * dc + w3 * la) by (nonlinear_arith)
        requires
            lc == dc + la,
    ;
    assert(t * lq == t * dq + t * la) by (nonlinear_arith)
        requires
            lq == dq + la,
    ;
    assert((w1 + w2 + w3) * la == w1 * la + w2 * la + w3 * la) by (nonlinear_arith);
}

/// The value of an affine function at a point of the line through x and y,
/// weighted by the squared length of x -> y, combines its values at x and y.
pub proof fn lemma_segment_affine(x: Point, y: Point, q: Point, ex: int, ey: int, px: int, py: int)
    requires
        cross(x, y, q) == 0,
    ensures
        aff(ex, ey, px, py, q) * dt(y.x - x.x, y.y - x.y, y.x - x.x, y.y - x.y)
            == dt(y.x - x.x, y.y - x.y, q.x - x.x, q.y - x.y) * aff(ex, ey, px, py, y)
            + dt(x.x - y.x, x.y - y.y, q.x - y.x, q.y - y.y) * aff(ex, ey, px, py, x),
{
    let dx = y.x - x.x;
    let dy = y.y - x.y;
    let wx = q.x - x.x;
    let wy = q.y - x.y;
    let lx = aff(ex, ey, px, py, x);
    let ly = aff(ex, ey, px, py, y);
    let lq = aff(ex, ey, px, py, q);
    let ed = cr(ex, ey, dx, dy);
    let ew = cr(ex, ey, wx, wy);
    let dd = dt(dx, dy, dx, dy);
    let t = dt(dx, dy, wx, wy);
    assert(ly == ed + lx) by (nonlinear_arith)
        requires
            ly == ex * (y.y - py) - ey * (y.x - px),
            lx == ex * (x.y - py) - ey * (x.x - px),
            ed == ex * dy - ey * dx,
            dx == y.x - x.x,
            dy == y.y - x.y,
    ;
    assert(lq == ew + lx) by (nonlinear_arith)
        requires
            lq == ex * (q.y - py) - ey * (q.x - px),
            lx == ex * (x.y - py) - ey * (x.x - px),
            ew == ex * wy - ey * wx,
            wx == q.x - x.x,
            wy == q.y - x.y,
    ;
    lemma_decompose(ex, ey, dx, dy, wx, wy);
    let z = cr(dx, dy, wx, wy);
    assert(z == 0);
    assert(dt(x.x - y.x, x.y - y.y, q.x - y.x, q.y - y.y) == dd - t) by (nonlinear_arith)
        requires
            dd == dx * dx + dy * dy,
            t == dx * wx + dy * wy,
            dx == y.x - x.x,
            dy == y.y - x.y,
            wx == q.x - x.x,
            wy == q.y - x.y,
    ;
    assert(lq * dd == t * ly + (dd - t) * lx) by (nonlinear_arith)
        requires
            ew * dd == t * ed + z * dt(ex, ey, dx, dy),
            z == 0,
            ly == ed + lx,
            lq == ew + lx,
    ;
}

/// The cross product with a fixed directed line is an affine function.
pub proof fn lemma_cross_is_aff(p1: Point, p2: Point, q: Point)
    ensures
        cross(p1, p2, q) == aff(p2.x - p1.x, p2.y - p1.y, p1.x as int, p1.y as int, q),
{
}

/// A point of a triangle lies on the left of every line that has the three
/// corners on its left.
pub proof fn lemma_triangle_side(a: Point, b: Point, c: Point, q: Point, p1: Point, p2: Point)
    requires
        cross(a, b, c) > 0,
        in_triangle(a, b, c, q),
        cross(p1, p2, a) >= 0,
        cross(p1, p2, b) >= 0,
        cross(p1, p2, c) >= 0,
    ensures
        cross(p1, p2, q) >= 0,
{
    lemma_triangle_affine(a, b, c, q, p2.x - p1.x, p2.y - p1.y, p1.x as int, p1.y as int);
    lemma_cross_is_aff(p1, p2, a);
    lemma_cross_is_aff(p1, p2, b);
    lemma_cross_is_aff(p1, p2, c);
    lemma_cross_is_aff(p1, p2, q);
    let t = cross(a, b, c);
    let lq = cross(p1, p2, q);
    let w1 = cross(b, c, q);
    let w2 = cross(c, a, q);
    let w3 = cross(a, b, q);
    let la = cross(p1, p2, a);
    let lb = cross(p1, p2, b);
    let lc = cross(p1, p2, c);
    assert(lq >= 0) by (nonlinear_arith)
        requires
            t * lq == w1 * la + w2 * lb + w3 * lc,
            t > 0,
            w1 >= 0,
            w2 >= 0,
            w3 >= 0,
            la >= 0,
            lb >= 0,
            lc >= 0,
    ;
}

/// A point of a segment lies on the left of every line that has both ends on
/// its left.
pub proof fn lemma_segment_side(x: Point, y: Point, q: Point, p1: Point, p2: Point)
    requires
        x != y,
        on_segment(x, y, q),
        cross(p1, p2, x) >= 0,
        cross(p1, p2, y) >= 0,
    ensures
        cross(p1, p2, q) >= 0,
{
    lemma_segment_affine(x, y, q, p2.x - p1.x, p2.y - p1.y, p1.x as int, p1.y as int);
    lemma_cross_is_aff(p1, p2, x);
    lemma_cross_is_aff(p1, p2, y);
    lemma_cross_is_aff(p1, p2, q);
    let dx = y.x - x.x;
    let dy = y.y - x.y;
    let dd = dt(dx, dy, dx, dy);
    assert(dd > 0) by (nonlinear_arith)
        requires
            dd == dx * dx + dy * dy,
            dx != 0 || dy != 0,
    ;
    let t = dt(dx, dy, q.x - x.x, q.y - x.y);
    let u = dt(x.x - y.x, x.y - y.y, q.x - y.x, q.y - y.y);
    let lq = cross(p1, p2, q);
    let lx = cross(p1, p2, x);
    let ly = cross(p1, p2, y);
    assert(lq >= 0) by (nonlinear_arith)
        requires
            lq * dd == t * ly + u * lx,
            dd > 0,
            t >= 0,
            u >= 0,
            ly >= 0,
            lx >= 0,
    ;
}

/// Angles at a vertex: with `c` the direction of the next edge, `a` that of
/// the previous edge reversed, `z` the direction towards a point of reference
/// and `q` that towards a new point, the new point is on the left of the
/// previous edge.
pub proof fn lemma_wedge(cx: int, cy: int, ax: int, ay: int, zx: int, zy: int, qx: int, qy: int)
    requires
        cr(cx, cy, ax, ay) > 0,
        cr(cx, cy, qx, qy) >= 0,
        cr(qx, qy, zx, zy) > 0,
        cr(zx, zy, ax, ay) >= 0,
        cr(cx, cy, zx, zy) >= 0,
    ensures
        cr(qx, qy, ax, ay) > 0,
{
    let cc = dt(cx, cy, cx, cy);
    assert(cc > 0) by (nonlinear_arith)
        requires
            cr(cx, cy, ax, ay) > 0,
            cc == cx * cx + cy * cy,
    ;
    // z points into the closed half-plane on the left of c, not backwards
    if cr(cx, cy, zx, zy) == 0 {
        lemma_decompose(ax, ay, cx, cy, zx, zy);
        let az = cr(ax, ay, zx, zy);
        let ac = cr(ax, ay, cx, cy);
        let cz = dt(cx, cy, zx, zy);
        assert(az == -cr(zx, zy, ax, ay));
        assert(ac == -cr(cx, cy, ax, ay));
        assert(cz >= 0) by (nonlinear_arith)
            requires
                az * cc == cz * ac + 0 * dt(ax, ay, cx, cy),
                az <= 0,
                ac < 0,
                cc > 0,
        ;
        if cz == 0 {
            lemma_lagrange(cx, cy, zx, zy);
            let zz = dt(zx, zy, zx, zy);
            assert(zz == 0) by (nonlinear_arith)
                requires
                    cz * cz + 0 * 0 == cc * zz,
                    cz == 0,
                    cc > 0,
            ;
            assert(zx == 0 && zy == 0) by (nonlinear_arith)
                requires
                    zz == zx * zx + zy * zy,
                    zz == 0,
            ;
            assert(cr(qx, qy, zx, zy) == 0) by (nonlinear_arith)
                requires
                    zx == 0,
                    zy == 0,
            ;
        }
    }
    // so does q
    if cr(cx, cy, qx, qy) == 0 {
        lemma_decompose(zx, zy, cx, cy, qx, qy);
        let zq = cr(zx, zy, qx, qy);
        let zc = cr(zx, zy, cx, cy);
        let cq = dt(cx, cy, qx, qy);
        assert(zq == -cr(qx, qy, zx, zy));
        assert(zc == -cr(cx, cy, zx, zy));
        assert(zc != 0) by {
            if zc == 0 {
                assert(zq * cc == 0) by (nonlinear_arith)
                    requires
                        zq * cc == cq * zc + 0 * dt(zx, zy, cx, cy),
                        zc == 0,
                ;
                assert(zq == 0) by (nonlinear_arith)
                    requires
                        zq * cc == 0,
                        cc > 0,
                ;
            }
        }
        assert(cq > 0) by (nonlinear_arith)
            requires
                zq * cc == cq * zc + 0 * dt(zx, zy, cx, cy),
                zq < 0,
                zc < 0,
                cc > 0,
        ;
    }
    lemma_half_fan(cx, cy, 1, qx, qy, zx, zy, ax, ay);
}

/// Two affine functions f and g that are not negative, or f zero and g not
/// negative, at every point of a fan are so at every point the fan covers.
pub proof fn lemma_fan_affine(h: Seq<Point>, q: Point, fx: int, fy: int, fbx: int, fby: int, gx: int, gy: int, gbx: int, gby: int)
    requires
        fan_around(h[0], h),
        covered(h[0], h, q),
        forall|j: int| 0 <= j < h.len() ==> aff(fx, fy, fbx, fby, #[trigger] h[j]) >= 0,
        forall|j: int| 0 <= j < h.len() ==> aff(fx, fy, fbx, fby, #[trigger] h[j]) == 0 ==> aff(gx, gy, gbx, gby, h[j]) >= 0,
    ensures
        aff(fx, fy, fbx, fby, q) >= 0,
        aff(fx, fy, fbx, fby, q) == 0 ==> aff(gx, gy, gbx, gby, q) >= 0,
{
    let o = h[0];
    if q == o {
    } else if h.len() >= 2 && on_segment(o, h[1], q) {
        let x = o;
        let y = h[1];
        assert(y != x);
        lemma_segment_affine(x, y, q, fx, fy, fbx, fby);
        lemma_segment_affine(x, y, q, gx, gy, gbx, gby);
        let dx = y.x - x.x;
        let dy = y.y - x.y;
        let dd = dt(dx, dy, dx, dy);
        assert(dd > 0) by (nonlinear_arith)
            requires
                dd == dx * dx + dy * dy,
                dx != 0 || dy != 0,
        ;
        let t = dt(dx, dy, q.x - x.x, q.y - x.y);
        let u = dt(x.x - y.x, x.y - y.y, q.x - y.x, q.y - y.y);
        let fq = aff(fx, fy, fbx, fby, q);
        let fxv = aff(fx, fy, fbx, fby, x);
        let fyv = aff(fx, fy, fbx, fby, y);
        let gq = aff(gx, gy, gbx, gby, q);
        let gxv = aff(gx, gy, gbx, gby, x);
        let gyv = aff(gx, gy, gbx, gby, y);
        assert(h[1] == y);
        assert(fxv >= 0 && fyv >= 0);
        assert(fq >= 0 && (fq == 0 ==> gq >= 0)) by (nonlinear_arith)
            requires
                fq * dd == t * fyv + u * fxv,
                gq * dd == t * gyv + u * gxv,
                dd > 0,
                t >= 0,
                u >= 0,
                fxv >= 0,
                fyv >= 0,
                fxv == 0 ==> gxv >= 0,
                fyv == 0 ==> gyv >= 0,
        ;
    } else {
        let k = choose|k: int| 1 <= k && k + 1 < h.len() && #[trigger] in_triangle(o, h[k], h[k + 1], q);
        let a = o;
        let b = h[k];
        let c = h[k + 1];
        assert(cross(o, h[k], h[k + 1]) > 0);
        lemma_triangle_affine(a, b, c, q, fx, fy, fbx, fby);
        lemma_triangle_affine(a, b, c, q, gx, gy, gbx, gby);
        let t = cross(a, b, c);
        let w1 = cross(b, c, q);
        let w2 = cross(c, a, q);
        let w3 = cross(a, b, q);
        let fa = aff(fx, fy, fbx, fby, a);
        let fb = aff(fx, fy, fbx, fby, b);
        let fc = aff(fx, fy, fbx, fby, c);
        let fq = aff(fx, fy, fbx, fby, q);
        let ga = aff(gx, gy, gbx, gby, a);
        let gb = aff(gx, gy, gbx, gby, b);
        let gc = aff(gx, gy, gbx, gby, c);
        let gq = aff(gx, gy, gbx, gby, q);
        assert(fa >= 0 && fb >= 0 && fc >= 0);
        assert(fa == 0 ==> ga >= 0);
        assert(fb == 0 ==> gb >= 0);
        assert(fc == 0 ==> gc >= 0);
        assert(fq >= 0 && (fq == 0 ==> gq >= 0)) by (nonlinear_arith)
            requires
                t * fq == w1 * fa + w2 * fb + w3 * fc,
                t * gq == w1 * ga + w2 * gb + w3 * gc,
                t > 0,
                w1 >= 0,
                w2 >= 0,
                w3 >= 0,
                fa >= 0,
                fb >= 0,
                fc >= 0,
                fa == 0 ==> ga >= 0,
                fb == 0 ==> gb >= 0,
                fc == 0 ==> gc >= 0,
        ;
    }
}

/// `h` is a convex polygon, counter-clockwise and with no three consecutive
/// vertices on a line, whose vertices are distinct points of `pts` and which
/// has every point of `pts` on the left of, or on, each of its edges.
pub open spec fn is_convex_hull(h: Seq<Point>, pts: Seq<Point>) -> bool {
    &&& h.len() >= 3
    &&& drawn_from(h, pts)
    &&& distinct(h)
    &&& fan_around(h[0], h)
    &&& ccw_chain(h)
    &&& cross(h[h.len() - 2], h[h.len() - 1], h[0]) > 0
    &&& cross(h[h.len() - 1], h[0], h[1]) > 0
    &&& forall|k: int| 0 <= k < h.len() - 1 ==> #[trigger] supports(h[k], h[k + 1], pts)
    &&& supports(h[h.len() - 1], h[0], pts)
}

/// The points of `h` are exactly the corners of `pts`.
pub open spec fn lists_corners(h: Seq<Point>, pts: Seq<Point>) -> bool {
    &&& forall|k: int| 0 <= k < h.len() ==> corner(#[trigger] h[k], pts)
    &&& forall|j: int| 0 <= j < pts.len() && corner(pts[j], pts) ==> h.contains(#[trigger] pts[j])
}

/// `h` outlines `pts`: distinct points of `pts`, at least one; the one point
/// that all points equal, or the two ends of the segment that holds them all,
/// or else, exactly when they are not on one line, their corners: the vertices
/// of their convex hull traversed counter-clockwise or clockwise, or a polygon
/// whose vertices are the corners.
pub open spec fn outlines(h: Seq<Point>, pts: Seq<Point>) -> bool {
    &&& h.len() >= 1
    &&& drawn_from(h, pts)
    &&& distinct(h)
    &&& h.len() >= 3 <==> !collinear_set(pts)
    &&& h.len() == 1 ==> forall|j: int| 0 <= j < pts.len() ==> #[trigger] pts[j] == h[0]
    &&& h.len() == 2 ==> spans(h[0], h[1], pts)
    &&& h.len() >= 3 ==> {
        ||| is_convex_hull(h, pts)
        ||| is_cw_hull(h, pts)
        ||| lists_corners(h, pts)
    }
}

/// All points of `pts` lie on one line.
pub open spec fn collinear_set(pts: Seq<Point>) -> bool {
    forall|i: int, j: int, k: int|
        0 <= i < pts.len() && 0 <= j < pts.len() && 0 <= k < pts.len() ==> #[trigger] cross(pts[i], pts[j], pts[k]) == 0
}

proof fn lemma_sector(h: Seq<Point>, q: Point, k: int)
    requires
        h.len() >= 3,
        1 <= k <= h.len() - 2,
        cross(h[0], h[k], q) >= 0,
        cross(h[0], h[h.len() - 1], q) <= 0,
    ensures
        exists|m: int| k <= m <= h.len() - 2 && cross(h[0], #[trigger] h[m], q) >= 0 && cross(h[0], h[m + 1], q) <= 0,
    decreases h.len() - k,
{
    if cross(h[0], h[k + 1], q) <= 0 {
        assert(cross(h[0], h[k], q) >= 0 && cross(h[0], h[k + 1], q) <= 0);
    } else {
        lemma_sector(h, q, k + 1);
        let m = choose|m: int| k + 1 <= m <= h.len() - 2 && cross(h[0], #[trigger] h[m], q) >= 0 && cross(h[0], h[m + 1], q) <= 0;
        assert(cross(h[0], h[m], q) >= 0);
    }
}

/// A point on the left of, or on, every edge of a polygon of three or more
/// vertices that fan out around the first lies in one of its fan triangles.
pub proof fn lemma_supports_cover(h: Seq<Point>, q: Point)
    requires
        h.len() >= 3,
        fan_around(h[0], h),
        forall|k: int| 0 <= k < h.len() - 1 ==> #[trigger] cross(h[k], h[k + 1], q) >= 0,
        cross(h[h.len() - 1], h[0], q) >= 0,
    ensures
        exists|m: int| 1 <= m && m + 1 < h.len() && #[trigger] in_triangle(h[0], h[m], h[m + 1], q),
        covered(h[0], h, q),
{
    let o = h[0];
    let t = h.len() - 1;
    let z: int = 0;
    assert(cross(h[z], h[z + 1], q) >= 0);
    assert(cross(h[0], h[1], q) >= 0);
    lemma_cross_symmetries(h[t], o, q);
    lemma_cross_symmetries(o, h[t], q);
    lemma_sector(h, q, 1);
    let m = choose|m: int| 1 <= m <= h.len() - 2 && cross(h[0], #[trigger] h[m], q) >= 0 && cross(h[0], h[m + 1], q) <= 0;
    assert(cross(h[m], h[m + 1], q) >= 0);
    lemma_cross_symmetries(h[m + 1], o, q);
    lemma_cross_symmetries(o, h[m + 1], q);
    assert(in_triangle(o, h[m], h[m + 1], q));
}

/// The sum of the barycentric weights of a point is the area of the triangle.
pub proof fn lemma_weights_sum(a: Point, b: Point, c: Point, q: Point)
    ensures
        cross(b, c, q) + cross(c, a, q) + cross(a, b, q) == cross(a, b, c),
{
    let bx = b.x - a.x;
    let by = b.y - a.y;
    let cx = c.x - a.x;
    let cy = c.y - a.y;
    let wx = q.x - a.x;
    let wy = q.y - a.y;
    lemma_cross_symmetries(c, a, q);
    let w1 = cross(b, c, q);
    assert(w1 == (cx - bx) * (wy - by) - (cy - by) * (wx - bx));
    lemma_mul_sub_sub(cx, bx, wy, by);
    lemma_mul_sub_sub(cy, by, wx, bx);
    assert(cross(b, c, q) + cross(c, a, q) + cross(a, b, q) == cross(a, b, c)) by (nonlinear_arith)
        requires
            w1 == cross(b, c, q),
            w1 == (cx * wy - cx * by - bx * wy + bx * by) - (cy * wx - cy * bx - by * wx + by * bx),
            cross(c, a, q) == wx * cy - wy * cx,
            cross(a, b, q) == bx * wy - by * wx,
            cross(a, b, c) == bx * cy - by * cx,
    ;
}

/// Along the wrap, three consecutive vertices that fan out around `o` turn
/// strictly left when the middle one was chosen as the farthest on its ray.
pub proof fn lemma_strict_turn(o: Point, a: Point, b: Point, c: Point)
    requires
        cross(o, a, b) > 0,
        cross(o, b, c) > 0,
        cross(a, b, c) >= 0,
        cross(a, b, c) == 0 ==> dist_sq(a, c) <= dist_sq(a, b),
    ensures
        cross(a, b, c) > 0,
{
    if cross(a, b, c) == 0 {
        assert(cross(a, b, c) == cross(o, b, c) - cross(o, a, c) + cross(o, a, b)) by (nonlinear_arith);
        let ex = a.x - o.x;
        let ey = a.y - o.y;
        let ux = b.x - a.x;
        let uy = b.y - a.y;
        let wx = c.x - a.x;
        let wy = c.y - a.y;
        assert(cross(o, a, b) == cr(ex, ey, ux, uy)) by (nonlinear_arith)
            requires
                ex == a.x - o.x,
                ey == a.y - o.y,
                ux == b.x - a.x,
                uy == b.y - a.y,
        ;
        assert(cross(o, a, c) == cr(ex, ey, wx, wy)) by (nonlinear_arith)
            requires
                ex == a.x - o.x,
                ey == a.y - o.y,
                wx == c.x - a.x,
                wy == c.y - a.y,
        ;
        lemma_cross_symmetries(a, b, c);
        let z = cr(ux, uy, wx, wy);
        assert(z == 0);
        lemma_decompose(ex, ey, ux, uy, wx, wy);
        lemma_lagrange(ux, uy, wx, wy);
        let uu = dt(ux, uy, ux, uy);
        let ww = dt(wx, wy, wx, wy);
        let uw = dt(ux, uy, wx, wy);
        let eu = cr(ex, ey, ux, uy);
        let ew = cr(ex, ey, wx, wy);
        assert(dist_sq(a, b) == uu && dist_sq(a, c) == ww) by (nonlinear_arith)
            requires
                uu == ux * ux + uy * uy,
                ww == wx * wx + wy * wy,
                ux == b.x - a.x,
                uy == b.y - a.y,
                wx == c.x - a.x,
                wy == c.y - a.y,
        ;
        assert(uu > 0) by (nonlinear_arith)
            requires
                eu > 0,
                eu == ex * uy - ey * ux,
                uu == ux * ux + uy * uy,
        ;
        assert(ew > eu);
        assert(uw > uu) by (nonlinear_arith)
            requires
                ew * uu == uw * eu + z * dt(ex, ey, ux, uy),
                z == 0,
                ew > eu,
                eu > 0,
                uu > 0,
        ;
        assert(ww > uu) by (nonlinear_arith)
            requires
                uw * uw + z * z == uu * ww,
                z == 0,
                uw > uu,
                uu > 0,
        ;
    }
}

/// The lines p -> v and v -> n have every point of `pts` on their left or on
/// them, and turn strictly at `v`; p and n are points of `pts`.
pub open spec fn corner_witness(p: Point, v: Point, n: Point, pts: Seq<Point>) -> bool {
    &&& pts.contains(p)
    &&& pts.contains(n)
    &&& cross(p, v, n) > 0
    &&& supports(p, v, pts)
    &&& supports(v, n, pts)
}

/// `v` is a corner of `pts`: a point of it at which two lines that leave no
/// point on their right meet at a strict turn.
pub open spec fn corner(v: Point, pts: Seq<Point>) -> bool {
    &&& pts.contains(v)
    &&& exists|p: Point, n: Point| #[trigger] corner_witness(p, v, n, pts)
}

/// Every vertex of a convex hull is a corner of the points.
pub proof fn lemma_hull_vertex_corner(h: Seq<Point>, pts: Seq<Point>, k: int)
    requires
        is_convex_hull(h, pts),
        0 <= k < h.len(),
    ensures
        corner(h[k], pts),
{
    let n = h.len();
    let v = h[k];
    let p = if k == 0 { h[n - 1] } else { h[k - 1] };
    let nx = if k == n - 1 { h[0] } else { h[k + 1] };
    assert(cross(p, v, nx) > 0) by {
        if k == 0 {
        } else if k == n - 1 {
        } else {
            let i = k - 1;
            assert(cross(h[i], h[i + 1], h[i + 2]) > 0);
        }
    }
    assert(supports(p, v, pts)) by {
        if k > 0 {
            let i = k - 1;
            assert(supports(h[i], h[i + 1], pts));
        }
    }
    assert(supports(v, nx, pts)) by {
        if k < n - 1 {
            assert(supports(h[k], h[k + 1], pts));
        }
    }
    assert(pts.contains(p)) by {
        if k == 0 {
            assert(pts.contains(h[n - 1]));
        } else {
            assert(pts.contains(h[k - 1]));
        }
    }
    assert(pts.contains(nx)) by {
        if k == n - 1 {
            assert(pts.contains(h[0]));
        } else {
            assert(pts.contains(h[k + 1]));
        }
    }
    assert(corner_witness(p, v, nx, pts));
}

/// At a corner v, the sum of the cross products of the two lines is positive
/// at every other point.
pub proof fn lemma_corner_positive(p: Point, v: Point, nx: Point, pts: Seq<Point>, x: Point)
    requires
        corner_witness(p, v, nx, pts),
        pts.contains(x),
        x != v,
    ensures
        cross(p, v, x) + cross(v, nx, x) > 0,
{
    let j = choose|j: int| 0 <= j < pts.len() && pts[j] == x;
    assert(cross(p, v, pts[j]) >= 0);
    assert(cross(v, nx, pts[j]) >= 0);
    if cross(p, v, x) == 0 && cross(v, nx, x) == 0 {
        lemma_two_lines(p, v, nx, x);
    }
}

/// A corner of the points lies in no closed triangle of three other points.
pub proof fn lemma_corner_not_in_triangle(p: Point, v: Point, nx: Point, o: Point, b: Point, c: Point, pts: Seq<Point>)
    requires
        corner_witness(p, v, nx, pts),
        pts.contains(o),
        pts.contains(b),
        pts.contains(c),
        o != v,
        b != v,
        c != v,
        cross(o, b, c) > 0,
    ensures
        !in_triangle(o, b, c, v),
{
    if in_triangle(o, b, c, v) {
        // F = (p -> v) + (v -> nx) is zero at v and positive at every other point
        lemma_corner_positive(p, v, nx, pts, o);
        lemma_corner_positive(p, v, nx, pts, b);
        lemma_corner_positive(p, v, nx, pts, c);
        lemma_triangle_affine(o, b, c, v, v.x - p.x, v.y - p.y, p.x as int, p.y as int);
        lemma_triangle_affine(o, b, c, v, nx.x - v.x, nx.y - v.y, v.x as int, v.y as int);
        lemma_cross_is_aff(p, v, o);
        lemma_cross_is_aff(p, v, b);
        lemma_cross_is_aff(p, v, c);
        lemma_cross_is_aff(p, v, v);
        lemma_cross_is_aff(v, nx, o);
        lemma_cross_is_aff(v, nx, b);
        lemma_cross_is_aff(v, nx, c);
        lemma_cross_is_aff(v, nx, v);
        lemma_cross_symmetries(p, v, v);
        lemma_cross_symmetries(v, nx, v);
        lemma_weights_sum(o, b, c, v);
        let t = cross(o, b, c);
        let w1 = cross(b, c, v);
        let w2 = cross(c, o, v);
        let w3 = cross(o, b, v);
        let fo = cross(p, v, o) + cross(v, nx, o);
        let fb = cross(p, v, b) + cross(v, nx, b);
        let fc = cross(p, v, c) + cross(v, nx, c);
        assert(w1 * fo == w1 * cross(p, v, o) + w1 * cross(v, nx, o)) by (nonlinear_arith)
            requires
                fo == cross(p, v, o) + cross(v, nx, o),
        ;
        assert(w2 * fb == w2 * cross(p, v, b) + w2 * cross(v, nx, b)) by (nonlinear_arith)
            requires
                fb == cross(p, v, b) + cross(v, nx, b),
        ;
        assert(w3 * fc == w3 * cross(p, v, c) + w3 * cross(v, nx, c)) by (nonlinear_arith)
            requires
                fc == cross(p, v, c) + cross(v, nx, c),
        ;
        assert(cross(p, v, v) == 0 && cross(v, nx, v) == 0);
        assert(t * cross(p, v, v) == 0 && t * cross(v, nx, v) == 0) by (nonlinear_arith)
            requires
                cross(p, v, v) == 0,
                cross(v, nx, v) == 0,
        ;
        assert(0 == w1 * fo + w2 * fb + w3 * fc);
        assert(false) by (nonlinear_arith)
            requires
                0 == w1 * fo + w2 * fb + w3 * fc,
                w1 + w2 + w3 == t,
                t > 0,
                w1 >= 0,
                w2 >= 0,
                w3 >= 0,
                fo > 0,
                fb > 0,
                fc > 0,
        ;
    }
}

/// Every corner of the points is a vertex of every convex hull of them.
pub proof fn lemma_corner_in_every_hull(v: Point, h: Seq<Point>, pts: Seq<Point>)
    requires
        corner(v, pts),
        is_convex_hull(h, pts),
    ensures
        h.contains(v),
{
    let (p, nx) = choose|p: Point, n: Point| #[trigger] corner_witness(p, v, n, pts);
    if !h.contains(v) {
        let kv = choose|j: int| 0 <= j < pts.len() && pts[j] == v;
        // v lies in a fan triangle of h, whose corners are other points
        assert forall|m: int| 0 <= m < h.len() - 1 implies #[trigger] cross(h[m], h[m + 1], v) >= 0 by {
            assert(supports(h[m], h[m + 1], pts));
            assert(cross(h[m], h[m + 1], pts[kv]) >= 0);
        }
        assert(cross(h[h.len() - 1], h[0], pts[kv]) >= 0);
        lemma_supports_cover(h, v);
        let o = h[0];
        let m = choose|m: int| 1 <= m && m + 1 < h.len() && #[trigger] in_triangle(o, h[m], h[m + 1], v);
        let m1 = m + 1;
        assert(cross(h[0], h[m], h[m1]) > 0);
        assert(h[m] != v);
        assert(h[m1] != v);
        assert(pts.contains(h[0]));
        assert(pts.contains(h[m]));
        assert(pts.contains(h[m1]));
        lemma_corner_not_in_triangle(p, v, nx, o, h[m], h[m1], pts);
    }
}

/// A vertex of a convex hull is a point of any other convex hull of the same
/// points.
pub proof fn lemma_vertex_of_every_hull(h1: Seq<Point>, h2: Seq<Point>, pts: Seq<Point>, k: int)
    requires
        is_convex_hull(h1, pts),
        is_convex_hull(h2, pts),
        0 <= k < h1.len(),
    ensures
        h2.contains(h1[k]),
{
    lemma_hull_vertex_corner(h1, pts, k);
    lemma_corner_in_every_hull(h1[k], h2, pts);
}

/// Two lines through `v` that are not one line meet only at `v`.
proof fn lemma_two_lines(p: Point, v: Point, n: Point, x: Point)
    requires
        cross(p, v, n) > 0,
        cross(p, v, x) == 0,
        cross(v, n, x) == 0,
    ensures
        x == v,
{
    let ax = p.x - v.x;
    let ay = p.y - v.y;
    let bx = n.x - v.x;
    let by = n.y - v.y;
    let wx = x.x - v.x;
    let wy = x.y - v.y;
    lemma_cross_symmetries(p, v, n);
    lemma_cross_symmetries(v, n, p);
    lemma_cross_symmetries(p, v, x);
    lemma_cross_symmetries(v, x, p);
    lemma_cross_symmetries(v, n, x);
    // with a = p - v, b = n - v, w = x - v: cr(b, a) > 0, cr(w, a) == 0, cr(b, w) == 0
    assert(cr(bx, by, ax, ay) > 0);
    assert(cr(wx, wy, ax, ay) == 0);
    assert(cr(bx, by, wx, wy) == 0);
    lemma_cross_identity(1, 0, ax, ay, bx, by, wx, wy);
    lemma_cross_identity(0, 1, ax, ay, bx, by, wx, wy);
    let ab = cr(ax, ay, bx, by);
    assert(ab < 0);
    assert(ab * cr(1, 0, wx, wy) == 0) by (nonlinear_arith)
        requires
            ab * cr(1, 0, wx, wy) + cr(bx, by, wx, wy) * cr(1, 0, ax, ay) + cr(wx, wy, ax, ay) * cr(1, 0, bx, by) == 0,
            cr(bx, by, wx, wy) == 0,
            cr(wx, wy, ax, ay) == 0,
    ;
    assert(ab * cr(0, 1, wx, wy) == 0) by (nonlinear_arith)
        requires
            ab * cr(0, 1, wx, wy) + cr(bx, by, wx, wy) * cr(0, 1, ax, ay) + cr(wx, wy, ax, ay) * cr(0, 1, bx, by) == 0,
            cr(bx, by, wx, wy) == 0,
            cr(wx, wy, ax, ay) == 0,
    ;
    assert(cr(1, 0, wx, wy) == 0) by (nonlinear_arith)
        requires
            ab * cr(1, 0, wx, wy) == 0,
            ab < 0,
    ;
    assert(cr(0, 1, wx, wy) == 0) by (nonlinear_arith)
        requires
            ab * cr(0, 1, wx, wy) == 0,
            ab < 0,
    ;
}

/// Points on one line through two distinct points make a collinear set.
pub proof fn lemma_on_line_collinear(a: Point, b: Point, pts: Seq<Point>)
    requires
        a != b,
        forall|j: int| 0 <= j < pts.len() ==> #[trigger] cross(a, b, pts[j]) == 0,
    ensures
        collinear_set(pts),
{
    let dx = b.x - a.x;
    let dy = b.y - a.y;
    assert(dt(dx, dy, dx, dy) > 0) by (nonlinear_arith)
        requires
            dx != 0 || dy != 0,
    ;
    assert forall|x: Point, y: Point| #[trigger] cross(a, b, x) == 0 && #[trigger] cross(a, b, y) == 0 implies cross(a, x, y) == 0 by {
        let xx = x.x - a.x;
        let xy = x.y - a.y;
        let yx = y.x - a.x;
        let yy = y.y - a.y;
        lemma_cross_symmetries(a, b, x);
        lemma_cross_symmetries(a, b, y);
        lemma_cross_symmetries(a, x, y);
        lemma_cross_identity(-dy, dx, dx, dy, xx, xy, yx, yy);
        assert(cr(-dy, dx, dx, dy) == -dt(dx, dy, dx, dy)) by (nonlinear_arith);
        let c = cr(xx, xy, yx, yy);
        assert(c * cr(-dy, dx, dx, dy) == 0) by (nonlinear_arith)
            requires
                cr(dx, dy, xx, xy) * cr(-dy, dx, yx, yy) + c * cr(-dy, dx, dx, dy) + cr(yx, yy, dx, dy) * cr(-dy, dx, xx, xy) == 0,
                cr(dx, dy, xx, xy) == 0,
                cr(yx, yy, dx, dy) == 0,
        ;
        assert(c == 0) by (nonlinear_arith)
            requires
                c * cr(-dy, dx, dx, dy) == 0,
                cr(-dy, dx, dx, dy) < 0,
        ;
    }
    assert forall|i: int, j: int, k: int| 0 <= i < pts.len() && 0 <= j < pts.len() && 0 <= k < pts.len() implies #[trigger] cross(pts[i], pts[j], pts[k]) == 0 by {
        let p = pts[i];
        let q = pts[j];
        let r = pts[k];
        assert(cross(a, b, p) == 0 && cross(a, b, q) == 0 && cross(a, b, r) == 0);
        assert(cross(p, q, r) == cross(a, q, r) - cross(a, p, r) + cross(a, p, q)) by (nonlinear_arith);
    }
}

/// The wrap of a point set, when it has three or more vertices, is a convex
/// hull of it.
pub proof fn lemma_wrap_is_hull(h: Seq<Point>, pts: Seq<Point>)
    requires
        h.len() >= 3,
        drawn_from(h, pts),
        distinct(h),
        forall|a: int, b: int| 1 <= a < b < h.len() ==> cross(h[0], #[trigger] h[a], #[trigger] h[b]) > 0,
        forall|k: int| 0 <= k < h.len() - 1 ==> #[trigger] wraps(h[k], h[k + 1], pts),
        supports(h[h.len() - 1], h[0], pts),
    ensures
        is_convex_hull(h, pts),
{
    let o = h[0];
    let n = h.len();
    assert forall|k: int| 1 <= k < n implies #[trigger] h[k] != o by {
        assert(h[0] != h[k]);
    }
    assert forall|k: int| 0 <= k < n - 1 implies #[trigger] supports(h[k], h[k + 1], pts) by {
        assert(wraps(h[k], h[k + 1], pts));
    }
    assert forall|k: int| 0 <= k && k + 2 < n implies #[trigger] cross(h[k], h[k + 1], h[k + 2]) > 0 by {
        let k1 = k + 1;
        let k2 = k + 2;
        if k == 0 {
            assert(cross(o, h[k1], h[k2]) > 0);
        } else {
            assert(wraps(h[k], h[k1], pts));
            let j = choose|j: int| 0 <= j < pts.len() && pts[j] == h[k2];
            assert(cross(h[k], h[k1], pts[j]) >= 0);
            assert(cross(o, h[k], h[k1]) > 0);
            assert(cross(o, h[k1], h[k2]) > 0);
            lemma_strict_turn(o, h[k], h[k1], h[k2]);
        }
    }
    assert(cross(o, h[n - 2], h[n - 1]) > 0);
    lemma_cross_symmetries(o, h[n - 2], h[n - 1]);
    assert(cross(o, h[1], h[n - 1]) > 0);
    lemma_cross_symmetries(o, h[1], h[n - 1]);
}

/// A point set with a convex hull does not lie on one line.
pub proof fn lemma_hull_not_collinear(h: Seq<Point>, pts: Seq<Point>)
    requires
        is_convex_hull(h, pts),
    ensures
        !collinear_set(pts),
{
    let z: int = 0;
    assert(cross(h[z], h[z + 1], h[z + 2]) > 0);
    let i = choose|i: int| 0 <= i < pts.len() && pts[i] == h[0];
    assert(pts.contains(h[1]));
    let j = choose|j: int| 0 <= j < pts.len() && pts[j] == h[1];
    assert(pts.contains(h[2]));
    let k = choose|k: int| 0 <= k < pts.len() && pts[k] == h[2];
    assert(cross(pts[i], pts[j], pts[k]) > 0);
}

/// A set of copies of one point lies on one line.
pub proof fn lemma_same_collinear(pts: Seq<Point>)
    requires
        pts.len() > 0,
        forall|j: int| 0 <= j < pts.len() ==> #[trigger] pts[j] == pts[0],
    ensures
        collinear_set(pts),
{
    assert forall|i: int, j: int, k: int| 0 <= i < pts.len() && 0 <= j < pts.len() && 0 <= k < pts.len() implies #[trigger] cross(pts[i], pts[j], pts[k]) == 0 by {
        assert(pts[i] == pts[0] && pts[j] == pts[0] && pts[k] == pts[0]);
        let p = pts[0];
        assert(cross(p, p, p) == 0) by (nonlinear_arith);
    }
}

/// A closed wrap of two or more distinct vertices is a convex hull of the
/// points when it has three or more vertices, and has exactly two when the
/// points lie on one line.
pub proof fn lemma_wrap_closed(h: Seq<Point>, pts: Seq<Point>)
    requires
        h.len() >= 2,
        drawn_from(h, pts),
        distinct(h),
        forall|a: int, b: int| 1 <= a < b < h.len() ==> cross(h[0], #[trigger] h[a], #[trigger] h[b]) > 0,
        forall|k: int| 0 <= k < h.len() - 1 ==> #[trigger] wraps(h[k], h[k + 1], pts),
        supports(h[h.len() - 1], h[0], pts),
    ensures
        h.len() >= 3 ==> is_convex_hull(h, pts),
        h.len() >= 3 <==> !collinear_set(pts),
{
    if h.len() >= 3 {
        lemma_wrap_is_hull(h, pts);
        lemma_hull_not_collinear(h, pts);
    } else {
        let a = h[0];
        let b = h[1];
        let z: int = 0;
        assert(wraps(h[z], h[z + 1], pts));
        assert(a != b);
        assert forall|j: int| 0 <= j < pts.len() implies #[trigger] cross(a, b, pts[j]) == 0 by {
            assert(cross(a, b, pts[j]) >= 0);
            assert(cross(b, a, pts[j]) >= 0);
            lemma_cross_symmetries(a, b, pts[j]);
        }
        lemma_on_line_collinear(a, b, pts);
    }
}

/// Points covered by a polygon of one or two distinct vertices lie on one
/// line.
pub proof fn lemma_covered_collinear(h: Seq<Point>, pts: Seq<Point>)
    requires
        1 <= h.len() <= 2,
        distinct(h),
        pts.len() > 0,
        forall|j: int| 0 <= j < pts.len() ==> covered(h[0], h, #[trigger] pts[j]),
    ensures
        collinear_set(pts),
{
    let o = h[0];
    if h.len() == 1 {
        assert forall|j: int| 0 <= j < pts.len() implies #[trigger] pts[j] == pts[0] by {
            assert(covered(o, h, pts[j]));
            assert(covered(o, h, pts[0]));
        }
        lemma_same_collinear(pts);
    } else {
        let b = h[1];
        assert(o != b);
        assert forall|j: int| 0 <= j < pts.len() implies #[trigger] cross(o, b, pts[j]) == 0 by {
            assert(covered(o, h, pts[j]));
            lemma_cross_symmetries(o, b, pts[j]);
        }
        lemma_on_line_collinear(o, b, pts);
    }
}

/// The segment from a to b, of two distinct points, holds every point of `pts`.
pub open spec fn spans(a: Point, b: Point, pts: Seq<Point>) -> bool {
    &&& a != b
    &&& forall|j: int| 0 <= j < pts.len() ==> #[trigger] on_segment(a, b, pts[j])
}

/// A segment holds the same points read from either end.
pub proof fn lemma_spans_reversed(a: Point, b: Point, pts: Seq<Point>)
    requires
        spans(a, b, pts),
    ensures
        spans(b, a, pts),
{
    assert forall|j: int| 0 <= j < pts.len() implies #[trigger] on_segment(b, a, pts[j]) by {
        assert(on_segment(a, b, pts[j]));
        lemma_cross_symmetries(a, b, pts[j]);
    }
}

/// A point on the line through c and d, written from c along d - c.
pub proof fn lemma_collinear_multiple(c: Point, d: Point, q: Point)
    requires
        cross(c, d, q) == 0,
    ensures
        dt(d.x - c.x, d.y - c.y, d.x - c.x, d.y - c.y) * (q.x - c.x) == dt(d.x - c.x, d.y - c.y, q.x - c.x, q.y - c.y) * (d.x - c.x),
        dt(d.x - c.x, d.y - c.y, d.x - c.x, d.y - c.y) * (q.y - c.y) == dt(d.x - c.x, d.y - c.y, q.x - c.x, q.y - c.y) * (d.y - c.y),
{
    let ux = d.x - c.x;
    let uy = d.y - c.y;
    let vx = q.x - c.x;
    let vy = q.y - c.y;
    assert(cr(ux, uy, vx, vy) == 0);
    assert(dt(ux, uy, ux, uy) * vx == dt(ux, uy, vx, vy) * ux) by (nonlinear_arith)
        requires
            ux * vy - uy * vx == 0,
    ;
    assert(dt(ux, uy, ux, uy) * vy == dt(ux, uy, vx, vy) * uy) by (nonlinear_arith)
        requires
            ux * vy - uy * vx == 0,
    ;
}

/// The dot product with a difference of vectors is the difference of the dot
/// products.
proof fn lemma_dt_diff(bx: int, by: int, x: int, y: int, px: int, py: int, qx: int, qy: int)
    requires
        x == px - qx,
        y == py - qy,
    ensures
        dt(bx, by, x, y) == dt(bx, by, px, py) - dt(bx, by, qx, qy),
{
    assert(dt(bx, by, x, y) == dt(bx, by, px, py) - dt(bx, by, qx, qy)) by (nonlinear_arith)
        requires
            x == px - qx,
            y == py - qy,
    ;
}

/// With e * (x, y) == alpha * (ux, uy) and alpha + beta == e, the level
/// -tc of (x, y) along (bx, by) gives beta * tc + alpha * td == 0, where
/// td - tc is the level of (ux, uy).
proof fn lemma_weights_along(e: int, alpha: int, beta: int, tc: int, td: int, bx: int, by: int, x: int, y: int, ux: int, uy: int)
    requires
        e * x == alpha * ux,
        e * y == alpha * uy,
        alpha + beta == e,
        dt(bx, by, x, y) == 0 - tc,
        dt(bx, by, ux, uy) == td - tc,
    ensures
        0 == beta * tc + alpha * td,
{
    assert(e * (bx * x + by * y) == bx * (e * x) + by * (e * y)) by (nonlinear_arith);
    assert(bx * (alpha * ux) + by * (alpha * uy) == alpha * (bx * ux + by * uy)) by (nonlinear_arith);
    assert(e * (0 - tc) == alpha * (td - tc));
    assert(e * (0 - tc) == 0 - e * tc) by (nonlinear_arith);
    assert(alpha * (td - tc) == alpha * td - alpha * tc) by (nonlinear_arith);
    assert(beta * tc == e * tc - alpha * tc) by (nonlinear_arith)
        requires
            alpha + beta == e,
    ;
}

/// An end of a segment that holds every point is an end of every other such
/// segment whose ends are points of `pts`.
pub proof fn lemma_end_is_end(a: Point, b: Point, c: Point, d: Point, pts: Seq<Point>)
    requires
        spans(a, b, pts),
        spans(c, d, pts),
        pts.contains(a),
        pts.contains(c),
        pts.contains(d),
    ensures
        a == c || a == d,
{
    let ka = choose|j: int| 0 <= j < pts.len() && pts[j] == a;
    let kc = choose|j: int| 0 <= j < pts.len() && pts[j] == c;
    let kd = choose|j: int| 0 <= j < pts.len() && pts[j] == d;
    assert(on_segment(c, d, pts[ka]));
    assert(on_segment(a, b, pts[kc]));
    assert(on_segment(a, b, pts[kd]));
    let bx = b.x - a.x;
    let by = b.y - a.y;
    // t measures along a -> b from a; every point has t >= 0
    let tc = dt(bx, by, c.x - a.x, c.y - a.y);
    let td = dt(bx, by, d.x - a.x, d.y - a.y);
    let ux = d.x - c.x;
    let uy = d.y - c.y;
    let e = dt(ux, uy, ux, uy);
    let alpha = dt(ux, uy, a.x - c.x, a.y - c.y);
    let beta = dt(c.x - d.x, c.y - d.y, a.x - d.x, a.y - d.y);
    assert(alpha + beta == e) by (nonlinear_arith)
        requires
            alpha == ux * (a.x - c.x) + uy * (a.y - c.y),
            beta == (c.x - d.x) * (a.x - d.x) + (c.y - d.y) * (a.y - d.y),
            e == ux * ux + uy * uy,
            ux == d.x - c.x,
            uy == d.y - c.y,
    ;
    assert(e > 0) by (nonlinear_arith)
        requires
            e == ux * ux + uy * uy,
            ux != 0 || uy != 0,
    ;
    lemma_collinear_multiple(c, d, a);
    // e * (a - c) == alpha * (d - c), so e * t(a) == beta * t(c) + alpha * t(d), and t(a) == 0
    lemma_dt_diff(bx, by, a.x - c.x, a.y - c.y, 0, 0, c.x - a.x, c.y - a.y);
    assert(dt(bx, by, 0, 0) == 0);
    lemma_dt_diff(bx, by, ux, uy, d.x - a.x, d.y - a.y, c.x - a.x, c.y - a.y);
    lemma_weights_along(e, alpha, beta, tc, td, bx, by, a.x - c.x, a.y - c.y, ux, uy);
    assert(alpha >= 0 && beta >= 0 && tc >= 0 && td >= 0);
    if alpha == 0 {
        assert(a == c) by (nonlinear_arith)
            requires
                e * (a.x - c.x) == alpha * ux,
                e * (a.y - c.y) == alpha * uy,
                alpha == 0,
                e > 0,
        ;
    } else if beta == 0 {
        assert(a == d) by (nonlinear_arith)
            requires
                e * (a.x - c.x) == alpha * ux,
                e * (a.y - c.y) == alpha * uy,
                alpha == e,
                e > 0,
                ux == d.x - c.x,
                uy == d.y - c.y,
        ;
    } else {
        assert(tc == 0 && td == 0) by (nonlinear_arith)
            requires
                0 == beta * tc + alpha * td,
                alpha > 0,
                beta > 0,
                tc >= 0,
                td >= 0,
        ;
        // on the line through a and b, only a has t == 0
        lemma_lagrange(bx, by, c.x - a.x, c.y - a.y);
        lemma_lagrange(bx, by, d.x - a.x, d.y - a.y);
        lemma_cross_symmetries(a, b, c);
        lemma_cross_symmetries(a, b, d);
        assert(dt(bx, by, bx, by) > 0) by (nonlinear_arith)
            requires
                bx != 0 || by != 0,
        ;
        assert(c == a) by (nonlinear_arith)
            requires
                tc * tc + cr(bx, by, c.x - a.x, c.y - a.y) * cr(bx, by, c.x - a.x, c.y - a.y)
                    == dt(bx, by, bx, by) * dt(c.x - a.x, c.y - a.y, c.x - a.x, c.y - a.y),
                cr(bx, by, c.x - a.x, c.y - a.y) == 0,
                tc == 0,
                dt(bx, by, bx, by) > 0,
        ;
        assert(d == a) by (nonlinear_arith)
            requires
                td * td + cr(bx, by, d.x - a.x, d.y - a.y) * cr(bx, by, d.x - a.x, d.y - a.y)
                    == dt(bx, by, bx, by) * dt(d.x - a.x, d.y - a.y, d.x - a.x, d.y - a.y),
                cr(bx, by, d.x - a.x, d.y - a.y) == 0,
                td == 0,
                dt(bx, by, bx, by) > 0,
        ;
    }
}

/// A polygon of one or two distinct points that covers every point is a
/// single point equal to all of them, or a segment that holds them all.
pub proof fn lemma_covered_spans(h: Seq<Point>, pts: Seq<Point>)
    requires
        1 <= h.len() <= 2,
        distinct(h),
        forall|j: int| 0 <= j < pts.len() ==> covered(h[0], h, #[trigger] pts[j]),
    ensures
        h.len() == 1 ==> forall|j: int| 0 <= j < pts.len() ==> #[trigger] pts[j] == h[0],
        h.len() == 2 ==> spans(h[0], h[1], pts),
{
    let o = h[0];
    if h.len() == 1 {
        assert forall|j: int| 0 <= j < pts.len() implies #[trigger] pts[j] == h[0] by {
            assert(covered(o, h, pts[j]));
        }
    } else {
        let b = h[1];
        assert(o != b);
        assert forall|j: int| 0 <= j < pts.len() implies #[trigger] on_segment(o, b, pts[j]) by {
            assert(covered(o, h, pts[j]));
            if pts[j] == o {
                lemma_cross_symmetries(o, b, o);
                assert(dt(b.x - o.x, b.y - o.y, 0, 0) == 0);
                assert(dt(o.x - b.x, o.y - b.y, o.x - b.x, o.y - b.y) >= 0) by (nonlinear_arith);
            }
        }
    }
}

/// A closed polygon of points of `pts` that turns strictly left at every
/// vertex and has every point on the left of or on each edge has only
/// corners for vertices.
pub proof fn lemma_turns_corners(h: Seq<Point>, pts: Seq<Point>)
    requires
        h.len() >= 3,
        drawn_from(h, pts),
        ccw_chain(h),
        cross(h[h.len() - 2], h[h.len() - 1], h[0]) > 0,
        cross(h[h.len() - 1], h[0], h[1]) > 0,
        forall|k: int| 0 <= k < h.len() - 1 ==> #[trigger] supports(h[k], h[k + 1], pts),
        supports(h[h.len() - 1], h[0], pts),
    ensures
        forall|k: int| 0 <= k < h.len() ==> corner(#[trigger] h[k], pts),
{
    let n = h.len();
    assert forall|k: int| 0 <= k < n implies corner(#[trigger] h[k], pts) by {
        let v = h[k];
        let p = if k == 0 { h[n - 1] } else { h[k - 1] };
        let nx = if k == n - 1 { h[0] } else { h[k + 1] };
        assert(cross(p, v, nx) > 0) by {
            if 0 < k < n - 1 {
                let i = k - 1;
                assert(cross(h[i], h[i + 1], h[i + 2]) > 0);
            }
        }
        assert(supports(p, v, pts)) by {
            if k > 0 {
                let i = k - 1;
                assert(supports(h[i], h[i + 1], pts));
            }
        }
        assert(supports(v, nx, pts)) by {
            if k < n - 1 {
                assert(supports(h[k], h[k + 1], pts));
            }
        }
        assert(pts.contains(p)) by {
            if k == 0 {
                assert(pts.contains(h[n - 1]));
            } else {
                assert(pts.contains(h[k - 1]));
            }
        }
        assert(pts.contains(nx)) by {
            if k == n - 1 {
                assert(pts.contains(h[0]));
            } else {
                assert(pts.contains(h[k + 1]));
            }
        }
        assert(pts.contains(h[k]));
        assert(corner_witness(p, v, nx, pts));
    }
}

/// The mirror image of `p` across the diagonal x == y.
pub open spec fn refl(p: Point) -> Point {
    Point { x: p.y, y: p.x }
}

/// The mirror images of the points of `s`, in order.
pub open spec fn refl_seq(s: Seq<Point>) -> Seq<Point> {
    s.map_values(|p: Point| refl(p))
}

/// `h` is a convex hull of `pts` traversed clockwise: its mirror image across
/// the diagonal is a counter-clockwise convex hull of the mirrored points.
pub open spec fn is_cw_hull(h: Seq<Point>, pts: Seq<Point>) -> bool {
    is_convex_hull(refl_seq(h), refl_seq(pts))
}

/// Mirroring reverses every turn and keeps distances and dot products.
pub proof fn lemma_refl(a: Point, b: Point, c: Point)
    ensures
        cross(refl(a), refl(b), refl(c)) == -cross(a, b, c),
        dist_sq(refl(a), refl(b)) == dist_sq(a, b),
        dt(refl(b).x - refl(a).x, refl(b).y - refl(a).y, refl(c).x - refl(a).x, refl(c).y - refl(a).y)
            == dt(b.x - a.x, b.y - a.y, c.x - a.x, c.y - a.y),
        refl(refl(a)) == a,
        refl(a) == refl(b) <==> a == b,
{
    assert(cross(refl(a), refl(b), refl(c)) == -cross(a, b, c)) by (nonlinear_arith);
    assert(dist_sq(refl(a), refl(b)) == dist_sq(a, b)) by (nonlinear_arith);
    assert(dt(refl(b).x - refl(a).x, refl(b).y - refl(a).y, refl(c).x - refl(a).x, refl(c).y - refl(a).y)
        == dt(b.x - a.x, b.y - a.y, c.x - a.x, c.y - a.y)) by (nonlinear_arith);
}

/// The mirrored sequence holds the mirror images, position by position.
pub proof fn lemma_refl_seq(s: Seq<Point>)
    ensures
        refl_seq(s).len() == s.len(),
        forall|i: int| 0 <= i < s.len() ==> #[trigger] refl_seq(s)[i] == refl(s[i]),
        forall|p: Point| s.contains(p) ==> #[trigger] refl_seq(s).contains(refl(p)),
        forall|p: Point| #[trigger] refl_seq(s).contains(p) ==> s.contains(refl(p)),
        distinct(s) <==> distinct(refl_seq(s)),
{
    let r = refl_seq(s);
    assert forall|p: Point| s.contains(p) implies #[trigger] r.contains(refl(p)) by {
        let i = choose|i: int| 0 <= i < s.len() && s[i] == p;
        assert(r[i] == refl(p));
    }
    assert forall|p: Point| #[trigger] r.contains(p) implies s.contains(refl(p)) by {
        let i = choose|i: int| 0 <= i < r.len() && r[i] == p;
        lemma_refl(s[i], s[i], s[i]);
        assert(s[i] == refl(p));
    }
    assert forall|i: int, j: int| 0 <= i < j < s.len() && s[i] != s[j] implies r[i] != r[j] by {
        lemma_refl(s[i], s[j], s[j]);
    }
    assert forall|i: int, j: int| 0 <= i < j < s.len() && r[i] != r[j] implies s[i] != s[j] by {}
}

/// A point set and its mirror image lie on one line together.
pub proof fn lemma_refl_collinear(pts: Seq<Point>)
    ensures
        collinear_set(refl_seq(pts)) <==> collinear_set(pts),
{
    let r = refl_seq(pts);
    lemma_refl_seq(pts);
    if collinear_set(pts) {
        assert forall|i: int, j: int, k: int| 0 <= i < r.len() && 0 <= j < r.len() && 0 <= k < r.len()
            implies #[trigger] cross(r[i], r[j], r[k]) == 0 by {
            lemma_refl(pts[i], pts[j], pts[k]);
            assert(cross(pts[i], pts[j], pts[k]) == 0);
        }
    }
    if collinear_set(r) {
        assert forall|i: int, j: int, k: int| 0 <= i < pts.len() && 0 <= j < pts.len() && 0 <= k < pts.len()
            implies #[trigger] cross(pts[i], pts[j], pts[k]) == 0 by {
            lemma_refl(pts[i], pts[j], pts[k]);
            assert(cross(r[i], r[j], r[k]) == 0);
        }
    }
}

/// A segment that holds the mirrored points, mirrored back, holds the points.
pub proof fn lemma_refl_spans(a: Point, b: Point, pts: Seq<Point>)
    requires
        spans(refl(a), refl(b), refl_seq(pts)),
    ensures
        spans(a, b, pts),
{
    let r = refl_seq(pts);
    lemma_refl_seq(pts);
    lemma_refl(a, b, b);
    assert forall|j: int| 0 <= j < pts.len() implies #[trigger] on_segment(a, b, pts[j]) by {
        assert(on_segment(refl(a), refl(b), r[j]));
        lemma_refl(a, b, pts[j]);
        lemma_refl(b, a, pts[j]);
    }
}

/// A corner of the points, mirrored, is a corner of the mirrored points.
pub proof fn lemma_refl_corner(v: Point, pts: Seq<Point>)
    requires
        corner(v, pts),
    ensures
        corner(refl(v), refl_seq(pts)),
{
    let r = refl_seq(pts);
    lemma_refl_seq(pts);
    let (p, n) = choose|p: Point, n: Point| #[trigger] corner_witness(p, v, n, pts);
    lemma_refl(n, v, p);
    assert forall|j: int| 0 <= j < r.len() implies cross(refl(n), refl(v), #[trigger] r[j]) >= 0 by {
        assert(cross(v, n, pts[j]) >= 0);
        lemma_refl(n, v, pts[j]);
        lemma_cross_symmetries(n, v, pts[j]);
    }
    assert forall|j: int| 0 <= j < r.len() implies cross(refl(v), refl(p), #[trigger] r[j]) >= 0 by {
        assert(cross(p, v, pts[j]) >= 0);
        lemma_refl(v, p, pts[j]);
        lemma_cross_symmetries(v, p, pts[j]);
    }
    lemma_cross_symmetries(n, v, p);
    assert(corner_witness(refl(n), refl(v), refl(p), r));
}

/// A corner of the mirrored points, mirrored back, is a corner of the points.
pub proof fn lemma_corner_unrefl(v: Point, pts: Seq<Point>)
    requires
        corner(refl(v), refl_seq(pts)),
    ensures
        corner(v, pts),
{
    let r = refl_seq(pts);
    lemma_refl_seq(pts);
    let (p, n) = choose|p: Point, n: Point| #[trigger] corner_witness(p, refl(v), n, r);
    let pp = refl(p);
    let nn = refl(n);
    lemma_refl(pp, pp, pp);
    lemma_refl(nn, nn, nn);
    lemma_refl(v, v, v);
    lemma_refl(nn, v, pp);
    assert forall|j: int| 0 <= j < pts.len() implies cross(nn, v, #[trigger] pts[j]) >= 0 by {
        assert(cross(refl(v), n, r[j]) >= 0);
        lemma_refl(v, nn, pts[j]);
        lemma_cross_symmetries(v, nn, pts[j]);
    }
    assert forall|j: int| 0 <= j < pts.len() implies cross(v, pp, #[trigger] pts[j]) >= 0 by {
        assert(cross(p, refl(v), r[j]) >= 0);
        lemma_refl(pp, v, pts[j]);
        lemma_cross_symmetries(pp, v, pts[j]);
    }
    lemma_cross_symmetries(nn, v, pp);
    assert(corner_witness(nn, v, pp, pts));
}

/// A point v of `pts` on a line that has every point on one side (l >= 0,
/// l(v) == 0), and strictly the farthest along that line by a second affine
/// measure d, is a vertex of every convex hull of `pts`.
pub proof fn lemma_extreme_in_hull(v: Point, h: Seq<Point>, pts: Seq<Point>, lx: int, ly: int, lpx: int, lpy: int, dx: int, dy: int, dpx: int, dpy: int)
    requires
        is_convex_hull(h, pts),
        pts.contains(v),
        forall|j: int| 0 <= j < pts.len() ==> aff(lx, ly, lpx, lpy, #[trigger] pts[j]) >= 0,
        aff(lx, ly, lpx, lpy, v) == 0,
        forall|j: int| 0 <= j < pts.len() && pts[j] != v && aff(lx, ly, lpx, lpy, pts[j]) == 0
            ==> aff(dx, dy, dpx, dpy, #[trigger] pts[j]) < aff(dx, dy, dpx, dpy, v),
    ensures
        h.contains(v),
{
    if !h.contains(v) {
        let kv = choose|j: int| 0 <= j < pts.len() && pts[j] == v;
        assert forall|m: int| 0 <= m < h.len() - 1 implies #[trigger] cross(h[m], h[m + 1], v) >= 0 by {
            assert(supports(h[m], h[m + 1], pts));
            assert(cross(h[m], h[m + 1], pts[kv]) >= 0);
        }
        assert(cross(h[h.len() - 1], h[0], pts[kv]) >= 0);
        lemma_supports_cover(h, v);
        let o = h[0];
        let m = choose|m: int| 1 <= m && m + 1 < h.len() && #[trigger] in_triangle(o, h[m], h[m + 1], v);
        let m1 = m + 1;
        let b = h[m];
        let c = h[m1];
        assert(cross(h[0], h[m], h[m1]) > 0);
        assert(b != v && c != v && o != v);
        assert(pts.contains(h[0]));
        assert(pts.contains(h[m]));
        assert(pts.contains(h[m1]));
        let jo = choose|j: int| 0 <= j < pts.len() && pts[j] == o;
        let jb = choose|j: int| 0 <= j < pts.len() && pts[j] == b;
        let jc = choose|j: int| 0 <= j < pts.len() && pts[j] == c;
        lemma_triangle_affine(o, b, c, v, lx, ly, lpx, lpy);
        lemma_triangle_affine(o, b, c, v, dx, dy, dpx, dpy);
        lemma_weights_sum(o, b, c, v);
        let t = cross(o, b, c);
        let w1 = cross(b, c, v);
        let w2 = cross(c, o, v);
        let w3 = cross(o, b, v);
        let lo = aff(lx, ly, lpx, lpy, o);
        let lb = aff(lx, ly, lpx, lpy, b);
        let lc = aff(lx, ly, lpx, lpy, c);
        let dv = aff(dx, dy, dpx, dpy, v);
        let d_o = aff(dx, dy, dpx, dpy, o);
        let db = aff(dx, dy, dpx, dpy, b);
        let dc = aff(dx, dy, dpx, dpy, c);
        assert(lo >= 0 && lb >= 0 && lc >= 0) by {
            assert(aff(lx, ly, lpx, lpy, pts[jo]) >= 0);
            assert(aff(lx, ly, lpx, lpy, pts[jb]) >= 0);
            assert(aff(lx, ly, lpx, lpy, pts[jc]) >= 0);
        }
        assert(t * 0 == 0) by (nonlinear_arith);
        assert(w1 * lo == 0 && w2 * lb == 0 && w3 * lc == 0) by (nonlinear_arith)
            requires
                t * 0 == w1 * lo + w2 * lb + w3 * lc,
                w1 >= 0,
                w2 >= 0,
                w3 >= 0,
                lo >= 0,
                lb >= 0,
                lc >= 0,
        ;
        // a corner with weight lies on the line, so strictly behind v
        assert(w1 * d_o <= w1 * dv && (w1 > 0 ==> w1 * d_o < w1 * dv)) by {
            if w1 > 0 {
                assert(lo == 0) by (nonlinear_arith)
                    requires
                        w1 * lo == 0,
                        w1 > 0,
                ;
                assert(aff(dx, dy, dpx, dpy, pts[jo]) < dv);
                assert(w1 * d_o < w1 * dv) by (nonlinear_arith)
                    requires
                        w1 > 0,
                        d_o < dv,
                ;
            } else {
                assert(w1 * d_o == 0 && w1 * dv == 0) by (nonlinear_arith)
                    requires
                        w1 == 0,
                ;
            }
        }
        assert(w2 * db <= w2 * dv && (w2 > 0 ==> w2 * db < w2 * dv)) by {
            if w2 > 0 {
                assert(lb == 0) by (nonlinear_arith)
                    requires
                        w2 * lb == 0,
                        w2 > 0,
                ;
                assert(aff(dx, dy, dpx, dpy, pts[jb]) < dv);
                assert(w2 * db < w2 * dv) by (nonlinear_arith)
                    requires
                        w2 > 0,
                        db < dv,
                ;
            } else {
                assert(w2 * db == 0 && w2 * dv == 0) by (nonlinear_arith)
                    requires
                        w2 == 0,
                ;
            }
        }
        assert(w3 * dc <= w3 * dv && (w3 > 0 ==> w3 * dc < w3 * dv)) by {
            if w3 > 0 {
                assert(lc == 0) by (nonlinear_arith)
                    requires
                        w3 * lc == 0,
                        w3 > 0,
                ;
                assert(aff(dx, dy, dpx, dpy, pts[jc]) < dv);
                assert(w3 * dc < w3 * dv) by (nonlinear_arith)
                    requires
                        w3 > 0,
                        dc < dv,
                ;
            } else {
                assert(w3 * dc == 0 && w3 * dv == 0) by (nonlinear_arith)
                    requires
                        w3 == 0,
                ;
            }
        }
        assert(t * dv == w1 * dv + w2 * dv + w3 * dv) by (nonlinear_arith)
            requires
                w1 + w2 + w3 == t,
        ;
        assert(false) by (nonlinear_arith)
            requires
                t * dv == w1 * d_o + w2 * db + w3 * dc,
                t * dv == w1 * dv + w2 * dv + w3 * dv,
                w1 * d_o <= w1 * dv,
                w2 * db <= w2 * dv,
                w3 * dc <= w3 * dv,
                w1 > 0 ==> w1 * d_o < w1 * dv,
                w2 > 0 ==> w2 * db < w2 * dv,
                w3 > 0 ==> w3 * dc < w3 * dv,
                w1 + w2 + w3 == t,
                t > 0,
                w1 >= 0,
                w2 >= 0,
                w3 >= 0,
        ;
    }
}

} // verus!
