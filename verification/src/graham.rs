//! Graham scan.
//!
//! Finds the lowest point, sorts the points by angle around it (nearer points
//! first on a tie), drops repeated points and scans the sorted sequence with a
//! stack, removing every point that does not make a left turn.

use vstd::prelude::*;
use crate::point::{Point, Orientation, cross, dist_sq};
use crate::geometry::{cr, dt, in_half_plane, lemma_half_fan, lemma_lagrange, lemma_decompose};
use crate::hull::{
    drawn_from, outlines, ccw_chain, distinct, lower_left, supports, copy_points, copy_range, in_triangle, on_segment,
    fan_around, covered,
    lemma_same_ray_same_dist, lemma_cross_symmetries, lemma_triangle_side, lemma_segment_side,
    lemma_wedge, is_convex_hull, collinear_set, lemma_hull_not_collinear, lemma_covered_collinear,
    spans, lemma_covered_spans,
};

verus! {

/// `p` is a point of `pts`, and no point of `pts` is lower than `p`, or as low
/// and to its left.
pub open spec fn is_lowest(p: Point, pts: Seq<Point>) -> bool {
    &&& pts.contains(p)
    &&& forall|i: int| 0 <= i < pts.len() ==> lower_left(p, #[trigger] pts[i])
}

/// Seen from `o`, the direction of `a` comes before that of `b` in
/// counter-clockwise order, or it is the same direction and `a` is not farther.
pub open spec fn angle_le(o: Point, a: Point, b: Point) -> bool {
    cross(o, a, b) > 0 || (cross(o, a, b) == 0 && dist_sq(o, a) <= dist_sq(o, b))
}

/// `s` is sorted by `angle_le` around `o`.
pub open spec fn sorted_around(o: Point, s: Seq<Point>) -> bool {
    forall|i: int, j: int| 0 <= i < j < s.len() ==> angle_le(o, #[trigger] s[i], #[trigger] s[j])
}

proof fn lemma_origin_facts(o: Point, a: Point, b: Point)
    ensures
        a == o ==> cross(o, a, b) == 0 && cross(o, b, a) == 0,
        dist_sq(o, a) >= 0,
        dist_sq(o, a) == 0 <==> a == o,
        cross(o, a, b) == cr(a.x - o.x, a.y - o.y, b.x - o.x, b.y - o.y),
        cross(o, a, b) == -cross(o, b, a),
{
    assert(a == o ==> cross(o, a, b) == 0 && cross(o, b, a) == 0) by (nonlinear_arith);
    assert(dist_sq(o, a) >= 0) by (nonlinear_arith);
    assert(dist_sq(o, a) == 0 ==> a == o) by (nonlinear_arith);
    assert(a == o ==> dist_sq(o, a) == 0) by (nonlinear_arith);
    assert(cross(o, a, b) == -cross(o, b, a)) by (nonlinear_arith);
}

proof fn lemma_frame(o: Point, a: Point)
    requires
        lower_left(o, a),
        a != o,
    ensures
        in_half_plane(1, 0, 1, a.x - o.x, a.y - o.y),
{
}

/// `angle_le` is transitive among points that the lowest point `o` sees.
pub proof fn lemma_angle_le_transitive(o: Point, a: Point, b: Point, c: Point)
    requires
        lower_left(o, a),
        lower_left(o, b),
        lower_left(o, c),
        angle_le(o, a, b),
        angle_le(o, b, c),
    ensures
        angle_le(o, a, c),
{
    lemma_origin_facts(o, a, c);
    lemma_origin_facts(o, b, a);
    lemma_origin_facts(o, c, b);
    lemma_origin_facts(o, a, b);
    lemma_origin_facts(o, b, c);
    if a != o && b != o && c != o {
        lemma_frame(o, a);
        lemma_frame(o, b);
        lemma_frame(o, c);
        lemma_half_fan(1, 0, 1, a.x - o.x, a.y - o.y, b.x - o.x, b.y - o.y, c.x - o.x, c.y - o.y);
    }
}

/// Two points that `angle_le` cannot tell apart are equal.
pub proof fn lemma_angle_le_antisymmetric(o: Point, a: Point, b: Point)
    requires
        lower_left(o, a),
        lower_left(o, b),
        angle_le(o, a, b),
        angle_le(o, b, a),
    ensures
        a == b,
{
    lemma_origin_facts(o, a, b);
    lemma_origin_facts(o, b, a);
    if a != o && b != o {
        lemma_frame(o, a);
        lemma_frame(o, b);
        lemma_half_fan(1, 0, 1, a.x - o.x, a.y - o.y, b.x - o.x, b.y - o.y, b.x - o.x, b.y - o.y);
        lemma_same_ray_same_dist(o, a, b);
    }
}

fn lowest_point(points: &[Point]) -> (p: Point)
    requires
        points@.len() > 0,
    ensures
        is_lowest(p, points@),
{
    let n = points.len();
    let mut a = points[0];
    let ghost mut k: int = 0;
    for i in 1..n
        invariant
            n == points@.len(),
            0 <= k < i,
            points@[k] == a,
            forall|j: int| 0 <= j < i ==> lower_left(a, #[trigger] points@[j]),
    {
        let b = points[i];
        if a.y < b.y || (a.y == b.y && a.x < b.x) {
        } else {
            a = b;
            proof {
                k = i as int;
            }
        }
    }
    assert(points@[k] == a);
    a
}

fn angle_le_exec(o: &Point, a: &Point, b: &Point) -> (r: bool)
    ensures
        r == angle_le(*o, *a, *b),
{
    let c = o.cross(a, b);
    c > 0 || (c == 0 && o.dist_sq(a) <= o.dist_sq(b))
}

/// Merge two sequences sorted around `o` into one.
fn merge_around(a: &Vec<Point>, b: &Vec<Point>, o: &Point) -> (out: Vec<Point>)
    requires
        sorted_around(*o, a@),
        sorted_around(*o, b@),
        forall|i: int| 0 <= i < a@.len() ==> lower_left(*o, #[trigger] a@[i]),
        forall|i: int| 0 <= i < b@.len() ==> lower_left(*o, #[trigger] b@[i]),
    ensures
        out@.to_multiset() == a@.to_multiset().add(b@.to_multiset()),
        sorted_around(*o, out@),
        forall|i: int| 0 <= i < out@.len() ==> lower_left(*o, #[trigger] out@[i]),
{
    broadcast use vstd::seq_lib::group_to_multiset_ensures;

    let mut out: Vec<Point> = Vec::new();
    let mut i: usize = 0;
    let mut j: usize = 0;
    proof {
        assert(a@.subrange(0, 0) =~= Seq::<Point>::empty());
        assert(b@.subrange(0, 0) =~= Seq::<Point>::empty());
        assert(out@.to_multiset() =~= a@.subrange(0, 0).to_multiset().add(b@.subrange(0, 0).to_multiset()));
    }
    while i < a.len() || j < b.len()
        invariant
            i <= a@.len(),
            j <= b@.len(),
            sorted_around(*o, a@),
            sorted_around(*o, b@),
            forall|k: int| 0 <= k < a@.len() ==> lower_left(*o, #[trigger] a@[k]),
            forall|k: int| 0 <= k < b@.len() ==> lower_left(*o, #[trigger] b@[k]),
            out@.to_multiset() == a@.subrange(0, i as int).to_multiset().add(b@.subrange(0, j as int).to_multiset()),
            sorted_around(*o, out@),
            forall|k: int| 0 <= k < out@.len() ==> lower_left(*o, #[trigger] out@[k]),
            forall|k: int, q: int| 0 <= k < out@.len() && i <= q < a@.len() ==> angle_le(*o, #[trigger] out@[k], #[trigger] a@[q]),
            forall|k: int, q: int| 0 <= k < out@.len() && j <= q < b@.len() ==> angle_le(*o, #[trigger] out@[k], #[trigger] b@[q]),
        decreases a@.len() + b@.len() - i - j,
    {
        let take_a = j >= b.len() || (i < a.len() && angle_le_exec(o, &a[i], &b[j]));
        let ghost old_out = out@;
        if take_a {
            let x = a[i];
            proof {
                if j < b@.len() {
                    assert(angle_le(*o, x, b@[j as int]));
                }
                assert forall|q: int| j <= q < b@.len() implies angle_le(*o, x, #[trigger] b@[q]) by {
                    if q > j {
                        lemma_angle_le_transitive(*o, x, b@[j as int], b@[q]);
                    }
                }
                assert forall|q: int| i < q < a@.len() implies angle_le(*o, x, #[trigger] a@[q]) by {}
            }
            out.push(x);
            i = i + 1;
            proof {
                broadcast use vstd::multiset::group_multiset_axioms;
                assert(a@.subrange(0, i as int) =~= a@.subrange(0, i - 1).push(x));
                assert(out@ == old_out.push(x));
                vstd::seq_lib::to_multiset_build(old_out, x);
                vstd::seq_lib::to_multiset_build(a@.subrange(0, i - 1), x);
                assert(out@.to_multiset() =~= a@.subrange(0, i as int).to_multiset().add(b@.subrange(0, j as int).to_multiset()));
            }
        } else {
            let x = b[j];
            proof {
                if i < a@.len() {
                    assert(!angle_le(*o, a@[i as int], x));
                    lemma_origin_facts(*o, a@[i as int], x);
                    assert(angle_le(*o, x, a@[i as int]));
                }
                assert forall|q: int| i <= q < a@.len() implies angle_le(*o, x, #[trigger] a@[q]) by {
                    if q > i {
                        lemma_angle_le_transitive(*o, x, a@[i as int], a@[q]);
                    }
                }
                assert forall|q: int| j < q < b@.len() implies angle_le(*o, x, #[trigger] b@[q]) by {}
            }
            out.push(x);
            j = j + 1;
            proof {
                broadcast use vstd::multiset::group_multiset_axioms;
                assert(b@.subrange(0, j as int) =~= b@.subrange(0, j - 1).push(x));
                assert(out@ == old_out.push(x));
                vstd::seq_lib::to_multiset_build(old_out, x);
                vstd::seq_lib::to_multiset_build(b@.subrange(0, j - 1), x);
                assert(out@.to_multiset() =~= a@.subrange(0, i as int).to_multiset().add(b@.subrange(0, j as int).to_multiset()));
            }
        }
        proof {
            let x = out@[out@.len() - 1];
            assert forall|k: int, l: int| 0 <= k < l < out@.len() implies angle_le(*o, #[trigger] out@[k], #[trigger] out@[l]) by {
                if l < out@.len() - 1 {
                    assert(out@[k] == old_out[k] && out@[l] == old_out[l]);
                } else {
                    assert(out@[k] == old_out[k]);
                }
            }
        }
    }
    proof {
        assert(a@.subrange(0, a@.len() as int) =~= a@);
        assert(b@.subrange(0, b@.len() as int) =~= b@);
    }
    out
}

/// Sort the points around `o` by angle, nearer first on a tie (merge sort).
fn sort_around(pts: &Vec<Point>, o: &Point) -> (out: Vec<Point>)
    requires
        forall|i: int| 0 <= i < pts@.len() ==> lower_left(*o, #[trigger] pts@[i]),
    ensures
        out@.to_multiset() == pts@.to_multiset(),
        sorted_around(*o, out@),
        forall|i: int| 0 <= i < out@.len() ==> lower_left(*o, #[trigger] out@[i]),
    decreases pts@.len(),
{
    let n = pts.len();
    if n <= 1 {
        return copy_points(pts.as_slice());
    }
    let mid = n / 2;
    let left = copy_range(pts.as_slice(), 0, mid);
    let right = copy_range(pts.as_slice(), mid, n);
    proof {
        assert(pts@ =~= left@ + right@);
        vstd::seq_lib::lemma_multiset_commutative(left@, right@);
    }
    let sl = sort_around(&left, o);
    let sr = sort_around(&right, o);
    merge_around(&sl, &sr, o)
}

fn dedup_sorted(s: &Vec<Point>, o: &Point) -> (d: Vec<Point>)
    requires
        sorted_around(*o, s@),
        forall|i: int| 0 <= i < s@.len() ==> lower_left(*o, #[trigger] s@[i]),
    ensures
        sorted_around(*o, d@),
        distinct(d@),
        forall|i: int| 0 <= i < d@.len() ==> s@.contains(#[trigger] d@[i]),
        forall|i: int| 0 <= i < s@.len() ==> d@.contains(#[trigger] s@[i]),
        forall|i: int| 0 <= i < d@.len() ==> lower_left(*o, #[trigger] d@[i]),
        s@.len() > 0 ==> d@.len() > 0 && d@[0] == s@[0],
        d@.len() <= s@.len(),
{
    let mut d: Vec<Point> = Vec::new();
    let n = s.len();
    for i in 0..n
        invariant
            n == s@.len(),
            sorted_around(*o, s@),
            forall|k: int| 0 <= k < s@.len() ==> lower_left(*o, #[trigger] s@[k]),
            sorted_around(*o, d@),
            distinct(d@),
            d@.len() <= i,
            forall|k: int| 0 <= k < d@.len() ==> s@.subrange(0, i as int).contains(#[trigger] d@[k]),
            forall|k: int| 0 <= k < i ==> d@.contains(#[trigger] s@[k]),
            i > 0 ==> d@.len() > 0 && d@[d@.len() - 1] == s@[i - 1] && d@[0] == s@[0],
    {
        let p = s[i];
        if d.len() == 0 || d[d.len() - 1] != p {
            let ghost old_d = d@;
            proof {
                assert forall|k: int| 0 <= k < old_d.len() implies angle_le(*o, #[trigger] old_d[k], p) && old_d[k] != p by {
                    let m = choose|m: int| 0 <= m < i && s@.subrange(0, i as int)[m] == old_d[k];
                    assert(s@[m] == old_d[k]);
                    if old_d[k] == p {
                        if m < i - 1 {
                            lemma_angle_le_antisymmetric(*o, s@[i - 1], p);
                        }
                    }
                }
            }
            d.push(p);
            proof {
                assert forall|k: int| 0 <= k < d@.len() implies s@.subrange(0, i + 1).contains(#[trigger] d@[k]) by {
                    if k < old_d.len() {
                        let m = choose|m: int| 0 <= m < i && s@.subrange(0, i as int)[m] == old_d[k];
                        assert(s@.subrange(0, i + 1)[m] == d@[k]);
                    } else {
                        assert(s@.subrange(0, i + 1)[i as int] == d@[k]);
                    }
                }
                assert forall|k: int| 0 <= k < i + 1 implies d@.contains(#[trigger] s@[k]) by {
                    if k < i {
                        let m = choose|m: int| 0 <= m < old_d.len() && old_d[m] == s@[k];
                        assert(d@[m] == s@[k]);
                    } else {
                        assert(d@[d@.len() - 1] == s@[k]);
                    }
                }
            }
        } else {
            proof {
                assert forall|k: int| 0 <= k < d@.len() implies s@.subrange(0, i + 1).contains(#[trigger] d@[k]) by {
                    let m = choose|m: int| 0 <= m < i && s@.subrange(0, i as int)[m] == d@[k];
                    assert(s@.subrange(0, i + 1)[m] == d@[k]);
                }
                assert forall|k: int| 0 <= k < i + 1 implies d@.contains(#[trigger] s@[k]) by {
                    if k == i {
                        assert(d@[d@.len() - 1] == s@[k]);
                    }
                }
            }
        }
    }
    proof {
        assert(s@.subrange(0, n as int) =~= s@);
    }
    d
}

/// Every point of `h` lies on the left of, or on, every edge between
/// consecutive points of `h`.
pub open spec fn convex_position(h: Seq<Point>) -> bool {
    forall|k: int, j: int|
        0 <= k && k + 1 < h.len() && 0 <= j < h.len() ==> #[trigger] cross(h[k], h[k + 1], h[j]) >= 0
}

/// Strict angular order around the lowest point is transitive.
proof fn lemma_fan_strict(o: Point, a: Point, b: Point, c: Point)
    requires
        lower_left(o, a),
        lower_left(o, b),
        lower_left(o, c),
        a != o,
        b != o,
        c != o,
    ensures
        cross(o, a, b) > 0 && cross(o, b, c) >= 0 ==> cross(o, a, c) > 0,
        cross(o, a, b) >= 0 && cross(o, b, c) > 0 ==> cross(o, a, c) > 0,
        cross(o, a, b) == 0 && cross(o, b, c) == 0 ==> cross(o, a, c) == 0,
        cross(o, a, b) == 0 ==> dt(a.x - o.x, a.y - o.y, b.x - o.x, b.y - o.y) > 0,
{
    lemma_frame(o, a);
    lemma_frame(o, b);
    lemma_frame(o, c);
    lemma_cross_symmetries(o, a, b);
    lemma_cross_symmetries(o, b, c);
    lemma_cross_symmetries(o, a, c);
    lemma_half_fan(1, 0, 1, a.x - o.x, a.y - o.y, b.x - o.x, b.y - o.y, c.x - o.x, c.y - o.y);
}

/// The cross product seen from another origin.
proof fn lemma_cross_translate(o: Point, a: Point, b: Point, c: Point)
    ensures
        cross(a, b, c) == cross(o, b, c) - cross(o, a, c) + cross(o, a, b),
{
    assert(cross(a, b, c) == cross(o, b, c) - cross(o, a, c) + cross(o, a, b)) by (nonlinear_arith);
}

/// When `p` lies on the ray from `o` through `t`, beyond `t`, the turn
/// r -> t -> p is clockwise for every `r` before `t` around `o`.
proof fn lemma_same_ray_pop(o: Point, r: Point, t: Point, p: Point)
    requires
        lower_left(o, t),
        lower_left(o, p),
        t != o,
        p != o,
        cross(o, r, t) > 0,
        cross(o, t, p) == 0,
        dist_sq(o, t) < dist_sq(o, p),
    ensures
        cross(r, t, p) < 0,
{
    lemma_cross_translate(o, r, t, p);
    lemma_fan_strict(o, t, p, p);
    let ux = t.x - o.x;
    let uy = t.y - o.y;
    let vx = p.x - o.x;
    let vy = p.y - o.y;
    let ex = r.x - o.x;
    let ey = r.y - o.y;
    lemma_decompose(ex, ey, ux, uy, vx, vy);
    lemma_lagrange(ux, uy, vx, vy);
    lemma_origin_facts(o, t, p);
    lemma_origin_facts(o, p, t);
    lemma_origin_facts(o, r, t);
    lemma_origin_facts(o, r, p);
    let uu = dt(ux, uy, ux, uy);
    let vv = dt(vx, vy, vx, vy);
    let uv = dt(ux, uy, vx, vy);
    let z = cr(ux, uy, vx, vy);
    assert(uu == dist_sq(o, t) && vv == dist_sq(o, p)) by (nonlinear_arith)
        requires
            uu == ux * ux + uy * uy,
            vv == vx * vx + vy * vy,
            ux == t.x - o.x,
            uy == t.y - o.y,
            vx == p.x - o.x,
            vy == p.y - o.y,
    ;
    assert(z == 0);
    assert(uv > uu) by (nonlinear_arith)
        requires
            uv * uv + z * z == uu * vv,
            z == 0,
            uv > 0,
            0 <= uu < vv,
    ;
    let rp = cross(o, r, p);
    let rt = cross(o, r, t);
    assert(rp > rt) by (nonlinear_arith)
        requires
            rp * uu == uv * rt + z * dt(ex, ey, ux, uy),
            z == 0,
            uv > uu,
            uu > 0,
            rt > 0,
    ;
}

/// A point on the ray from `o` through `p`, not beyond `p`, lies on the
/// segment from `o` to `p`.
proof fn lemma_on_ray(o: Point, p: Point, q: Point)
    requires
        lower_left(o, p),
        lower_left(o, q),
        p != o,
        cross(o, q, p) == 0,
        dist_sq(o, q) <= dist_sq(o, p),
    ensures
        on_segment(o, p, q),
{
    lemma_origin_facts(o, q, p);
    lemma_origin_facts(o, p, q);
    let vx = p.x - o.x;
    let vy = p.y - o.y;
    let wx = q.x - o.x;
    let wy = q.y - o.y;
    let vv = dt(vx, vy, vx, vy);
    let ww = dt(wx, wy, wx, wy);
    let vw = dt(vx, vy, wx, wy);
    assert(vv == dist_sq(o, p) && ww == dist_sq(o, q)) by (nonlinear_arith)
        requires
            vv == vx * vx + vy * vy,
            ww == wx * wx + wy * wy,
            vx == p.x - o.x,
            vy == p.y - o.y,
            wx == q.x - o.x,
            wy == q.y - o.y,
    ;
    assert(dt(o.x - p.x, o.y - p.y, q.x - p.x, q.y - p.y) == vv - vw) by (nonlinear_arith)
        requires
            vv == vx * vx + vy * vy,
            vw == vx * wx + vy * wy,
            vx == p.x - o.x,
            vy == p.y - o.y,
            wx == q.x - o.x,
            wy == q.y - o.y,
    ;
    if q == o {
        assert(vw == 0) by (nonlinear_arith)
            requires
                wx == 0,
                wy == 0,
                vw == vx * wx + vy * wy,
        ;
    } else {
        lemma_fan_strict(o, p, q, q);
        lemma_lagrange(vx, vy, wx, wy);
        let z = cr(vx, vy, wx, wy);
        assert(z == 0);
        assert(vw <= vv) by (nonlinear_arith)
            requires
                vw * vw + z * z == vv * ww,
                z == 0,
                ww <= vv,
                ww >= 0,
                vw > 0,
        ;
    }
}

/// A segment with both ends in a triangle lies in the triangle.
proof fn lemma_segment_in_triangle(x: Point, y: Point, q: Point, a: Point, b: Point, c: Point)
    requires
        x != y,
        on_segment(x, y, q),
        in_triangle(a, b, c, x),
        in_triangle(a, b, c, y),
    ensures
        in_triangle(a, b, c, q),
{
    lemma_segment_side(x, y, q, a, b);
    lemma_segment_side(x, y, q, b, c);
    lemma_segment_side(x, y, q, c, a);
}

/// A triangle with its corners in another triangle lies in it.
proof fn lemma_triangle_in_triangle(a: Point, b: Point, c: Point, q: Point, d: Point, e: Point, f: Point)
    requires
        cross(a, b, c) > 0,
        in_triangle(a, b, c, q),
        in_triangle(d, e, f, a),
        in_triangle(d, e, f, b),
        in_triangle(d, e, f, c),
    ensures
        in_triangle(d, e, f, q),
{
    lemma_triangle_side(a, b, c, q, d, e);
    lemma_triangle_side(a, b, c, q, e, f);
    lemma_triangle_side(a, b, c, q, f, d);
}

proof fn lemma_reflect(x1: int, y1: int, x2: int, y2: int)
    ensures
        cr(x1, -y1, x2, -y2) == -cr(x1, y1, x2, y2),
{
    assert(cr(x1, -y1, x2, -y2) == -cr(x1, y1, x2, y2)) by (nonlinear_arith);
}

/// The point-level form of `lemma_wedge`: around the vertex `b` of the left
/// turn a -> b -> c, a point `p` on the left of b -> c and after `b` around
/// `o` lies on the left of a -> b, when `o` lies on the left of both edges.
proof fn lemma_wedge_points(a: Point, b: Point, c: Point, o: Point, p: Point)
    requires
        cross(a, b, c) > 0,
        cross(b, c, p) >= 0,
        cross(o, b, p) > 0,
        cross(o, a, b) >= 0,
        cross(o, b, c) >= 0,
    ensures
        cross(a, b, p) > 0,
{
    lemma_cross_symmetries(a, b, c);
    lemma_cross_symmetries(b, c, p);
    lemma_cross_symmetries(o, b, p);
    lemma_cross_symmetries(b, p, o);
    lemma_cross_symmetries(b, o, a);
    lemma_cross_symmetries(o, a, b);
    lemma_cross_symmetries(b, c, o);
    lemma_cross_symmetries(o, b, c);
    lemma_cross_symmetries(a, b, p);
    lemma_cross_symmetries(b, p, a);
    lemma_wedge(c.x - b.x, c.y - b.y, a.x - b.x, a.y - b.y, o.x - b.x, o.y - b.y, p.x - b.x, p.y - b.y);
}

/// A new point beyond a convex counter-clockwise chain that fans out around
/// `o` lies on the left of every edge from the k-th on, once it lies on the
/// left of the last one.
proof fn lemma_left_of_edges(o: Point, h: Seq<Point>, p: Point, k: int)
    requires
        fan_around(o, h),
        ccw_chain(h),
        h.len() >= 2,
        0 <= k <= h.len() - 2,
        cross(h[h.len() - 2], h[h.len() - 1], p) > 0,
        forall|a: int| 1 <= a < h.len() ==> cross(o, #[trigger] h[a], p) > 0,
    ensures
        forall|m: int| k <= m <= h.len() - 2 ==> #[trigger] cross(h[m], h[m + 1], p) >= 0,
    decreases h.len() - 2 - k,
{
    if k < h.len() - 2 {
        lemma_left_of_edges(o, h, p, k + 1);
        let a = h[k];
        let b = h[k + 1];
        let c = h[k + 2];
        assert(cross(h[k], h[k + 1], h[k + 2]) > 0);
        let k1 = k + 1;
        assert(cross(h[k1], h[k1 + 1], p) >= 0);
        assert(cross(o, b, p) > 0);
        assert(cross(o, b, c) > 0);
        if k >= 1 {
            assert(cross(o, a, b) > 0);
        } else {
            lemma_cross_symmetries(o, b, o);
        }
        lemma_wedge_points(a, b, c, o, p);
        assert forall|m: int| k <= m <= h.len() - 2 implies #[trigger] cross(h[m], h[m + 1], p) >= 0 by {
            if m == k {
            }
        }
    }
}

/// Every earlier point of a convex chain fanning out around `o` lies on the
/// left of the edge from its last point `h[t]` to a new point `p` that makes a
/// left turn after it.
proof fn lemma_left_of_new_edge(o: Point, h: Seq<Point>, p: Point, j: int)
    requires
        fan_around(o, h),
        convex_position(h),
        h.len() >= 3,
        1 <= j < h.len() - 1,
        cross(h[h.len() - 2], h[h.len() - 1], p) > 0,
        cross(o, h[h.len() - 1], p) >= 0,
    ensures
        cross(h[h.len() - 1], p, h[j]) > 0,
{
    let t = h[h.len() - 1];
    let r = h[h.len() - 2];
    let q = h[j];
    let k: int = h.len() - 2;
    assert(cross(h[k], h[k + 1], h[j]) >= 0);
    assert(cross(r, t, q) >= 0);
    assert(cross(o, q, t) > 0);
    if h.len() - 2 >= 1 {
        assert(cross(o, r, t) > 0);
    }
    lemma_cross_symmetries(r, t, p);
    lemma_cross_symmetries(t, r, p);
    lemma_cross_symmetries(r, t, q);
    lemma_cross_symmetries(t, r, q);
    lemma_cross_symmetries(o, q, t);
    lemma_cross_symmetries(t, q, o);
    lemma_cross_symmetries(o, t, p);
    lemma_cross_symmetries(t, o, p);
    lemma_cross_symmetries(o, r, t);
    lemma_cross_symmetries(t, r, o);
    lemma_cross_symmetries(t, q, p);
    lemma_cross_symmetries(t, p, q);
    let cx = r.x - t.x;
    let cy = r.y - t.y;
    let ax = p.x - t.x;
    let ay = p.y - t.y;
    let zx = o.x - t.x;
    let zy = o.y - t.y;
    let qx = q.x - t.x;
    let qy = q.y - t.y;
    lemma_reflect(cx, cy, ax, ay);
    lemma_reflect(cx, cy, qx, qy);
    lemma_reflect(qx, qy, zx, zy);
    lemma_reflect(zx, zy, ax, ay);
    lemma_reflect(cx, cy, zx, zy);
    lemma_reflect(qx, qy, ax, ay);
    lemma_wedge(cx, -cy, ax, -ay, zx, -zy, qx, -qy);
}

/// The last point of the stack and a new point are not on one ray from `o`.
proof fn lemma_push_turns(o: Point, h: Seq<Point>, p: Point)
    requires
        fan_around(o, h),
        h.len() >= 2,
        forall|k: int| 0 <= k < h.len() ==> lower_left(o, #[trigger] h[k]),
        angle_le(o, h[h.len() - 1], p),
        h[h.len() - 1] != p,
        lower_left(o, p),
        p != o,
        cross(h[h.len() - 2], h[h.len() - 1], p) > 0,
    ensures
        cross(o, h[h.len() - 1], p) > 0,
        forall|a: int| 1 <= a < h.len() ==> cross(o, #[trigger] h[a], p) > 0,
{
    let n: int = h.len() as int;
    let t = h[n - 1];
    if cross(o, t, p) == 0 {
        lemma_origin_facts(o, t, p);
        if n == 2 {
            assert(h[0] == o);
        } else {
            let r = h[n - 2];
            assert(cross(o, r, t) > 0);
            if dist_sq(o, t) == dist_sq(o, p) {
                lemma_fan_strict(o, t, p, p);
                lemma_same_ray_same_dist(o, t, p);
            }
            lemma_same_ray_pop(o, r, t, p);
        }
    }
    assert forall|a: int| 1 <= a < n implies cross(o, #[trigger] h[a], p) > 0 by {
        if a < n - 1 {
            assert(cross(o, h[a], t) > 0);
            lemma_fan_strict(o, h[a], t, p);
        }
    }
}

/// Pushing a point that turns left after the stack, and comes after all of
/// it around `o`, keeps the stack a chain fanning out around `o`.
proof fn lemma_push_fan(o: Point, h: Seq<Point>, p: Point)
    requires
        fan_around(o, h),
        ccw_chain(h),
        p != o,
        h.len() == 1 || cross(h[h.len() - 2], h[h.len() - 1], p) > 0,
        forall|a: int| 1 <= a < h.len() ==> cross(o, #[trigger] h[a], p) > 0,
    ensures
        fan_around(o, h.push(p)),
        ccw_chain(h.push(p)),
{
    let n: int = h.len() as int;
    let g = h.push(p);
    assert forall|a: int, b: int| 1 <= a < b < g.len() implies cross(o, #[trigger] g[a], #[trigger] g[b]) > 0 by {
        if b < n {
            assert(g[a] == h[a] && g[b] == h[b]);
        } else {
            assert(g[a] == h[a]);
        }
    }
    assert forall|k: int| 0 <= k && k + 2 < g.len() implies #[trigger] cross(g[k], g[k + 1], g[k + 2]) > 0 by {
        if k + 2 < n {
            assert(g[k] == h[k] && g[k + 1] == h[k + 1] && g[k + 2] == h[k + 2]);
        }
    }
    assert forall|k: int| 1 <= k < g.len() implies #[trigger] g[k] != o by {
        if k < n {
            assert(g[k] == h[k]);
        }
    }
}

/// Every point of the stack lies on the left of the edge from its last point
/// to a new point that turns left after it.
proof fn lemma_new_edge_side(o: Point, h: Seq<Point>, p: Point)
    requires
        fan_around(o, h),
        convex_position(h),
        h.len() == 1 || cross(h[h.len() - 2], h[h.len() - 1], p) > 0,
        h.len() >= 2 ==> cross(o, h[h.len() - 1], p) > 0,
    ensures
        forall|j: int| 0 <= j < h.len() ==> cross(h[h.len() - 1], p, #[trigger] h[j]) >= 0,
{
    let n: int = h.len() as int;
    let t = h[n - 1];
    assert forall|j: int| 0 <= j < n implies cross(t, p, #[trigger] h[j]) >= 0 by {
        lemma_cross_symmetries(t, p, h[j]);
        if j == 0 {
            lemma_cross_symmetries(o, t, p);
        } else if j < n - 1 {
            lemma_left_of_new_edge(o, h, p, j);
        }
    }
}

/// Pushing a point that turns left after the stack, and comes after all of
/// it around `o`, keeps every point of the stack on the left of every edge.
#[verifier::spinoff_prover]
proof fn lemma_push_convex(o: Point, h: Seq<Point>, p: Point)
    requires
        fan_around(o, h),
        ccw_chain(h),
        convex_position(h),
        h.len() == 1 || cross(h[h.len() - 2], h[h.len() - 1], p) > 0,
        h.len() >= 2 ==> cross(o, h[h.len() - 1], p) > 0,
        forall|a: int| 1 <= a < h.len() ==> cross(o, #[trigger] h[a], p) > 0,
    ensures
        convex_position(h.push(p)),
{
    let n: int = h.len() as int;
    let g = h.push(p);
    let t = h[n - 1];
    if n >= 2 {
        lemma_left_of_edges(o, h, p, 0);
    }
    lemma_new_edge_side(o, h, p);
    lemma_cross_symmetries(t, p, p);
    assert forall|k: int, j: int| 0 <= k && k + 1 < g.len() && 0 <= j < g.len() implies #[trigger] cross(g[k], g[k + 1], g[j]) >= 0 by {
        if k + 1 < n {
            assert(g[k] == h[k] && g[k + 1] == h[k + 1]);
            if j < n {
                assert(g[j] == h[j]);
                assert(cross(h[k], h[k + 1], h[j]) >= 0);
            } else {
                assert(g[j] == p);
                assert(cross(h[k], h[k + 1], p) >= 0);
            }
        } else {
            assert(g[k] == t && g[k + 1] == p);
            if j < n {
                assert(g[j] == h[j]);
            }
        }
    }
}

/// Popping the last point of the stack, when p does not turn left after it,
/// keeps every point scanned so far in the swept region or in the triangle
/// o, new last point, p.
proof fn lemma_pop_cover(o: Point, h: Seq<Point>, p: Point, q: Point)
    requires
        fan_around(o, h),
        h.len() >= 2,
        forall|k: int| 0 <= k < h.len() ==> lower_left(o, #[trigger] h[k]),
        forall|k: int| 0 <= k < h.len() ==> angle_le(o, #[trigger] h[k], p),
        lower_left(o, p),
        lower_left(o, q),
        p != o,
        angle_le(o, q, p),
        cross(h[h.len() - 2], h[h.len() - 1], p) <= 0,
        covered(o, h, q) || in_triangle(o, h[h.len() - 1], p, q),
    ensures
        covered(o, h.drop_last(), q) || in_triangle(o, h[h.len() - 2], p, q),
{
    let n: int = h.len() as int;
    let g = h.drop_last();
    let t = h[n - 1];
    let r = h[n - 2];
    assert(angle_le(o, t, p));
    assert(angle_le(o, r, p));
    lemma_origin_facts(o, t, p);
    lemma_origin_facts(o, r, p);
    lemma_origin_facts(o, q, p);
    lemma_cross_symmetries(o, r, p);
    lemma_cross_symmetries(o, t, p);
    lemma_cross_symmetries(r, t, p);
    lemma_cross_symmetries(o, r, t);
    lemma_cross_symmetries(o, p, q);
    assert(cross(o, t, p) >= 0);
    assert(cross(o, r, p) >= 0);
    // the corners o, r, t and p all lie in the triangle o, r, p
    assert(in_triangle(o, r, p, o));
    assert(in_triangle(o, r, p, r));
    assert(in_triangle(o, r, p, p));
    assert(in_triangle(o, r, p, t));
    if q == o {
    } else if covered(o, h, q) && n >= 3 && h.len() >= 2 && on_segment(o, h[1], q) {
        assert(g[1] == h[1]);
    } else if covered(o, h, q) && n == 2 && on_segment(o, h[1], q) {
        // t is on the ray from o through p
        assert(r == o);
        assert(cross(o, t, p) == 0);
        assert(cross(o, t, q) == 0);
        lemma_fan_strict(o, p, t, q);
        lemma_cross_symmetries(o, t, q);
        assert(cross(o, p, q) == 0);
        assert(in_triangle(o, r, p, q));
    } else if covered(o, h, q) && (exists|k: int| 1 <= k && k + 1 < h.len() && #[trigger] in_triangle(o, h[k], h[k + 1], q)) {
        let k = choose|k: int| 1 <= k && k + 1 < h.len() && #[trigger] in_triangle(o, h[k], h[k + 1], q);
        if k + 1 < n - 1 {
            assert(g[k] == h[k] && g[k + 1] == h[k + 1]);
            assert(in_triangle(o, g[k], g[k + 1], q));
        } else {
            assert(h[k] == r && h[k + 1] == t);
            assert(cross(o, r, t) > 0);
            lemma_triangle_in_triangle(o, r, t, q, o, r, p);
        }
    } else {
        assert(in_triangle(o, t, p, q));
        if cross(o, t, p) > 0 {
            lemma_triangle_in_triangle(o, t, p, q, o, r, p);
        } else {
            // a flat triangle: q is on the ray from o through p
            lemma_cross_symmetries(p, o, q);
            lemma_cross_symmetries(o, t, q);
            assert(cross(o, p, q) <= 0);
            lemma_fan_strict(o, p, t, q);
            lemma_fan_strict(o, t, p, q);
            assert(cross(o, p, q) == 0);
            lemma_on_ray(o, p, q);
            lemma_segment_in_triangle(o, p, q, o, r, p);
        }
    }
}

/// Pushing p after the pops: every point scanned so far, and p, is in the
/// region swept by the new stack.
proof fn lemma_push_cover(o: Point, h: Seq<Point>, p: Point, q: Point)
    requires
        fan_around(o, h),
        lower_left(o, p),
        lower_left(o, q),
        p != o,
        h.len() >= 2 ==> cross(o, h[h.len() - 1], p) > 0,
        angle_le(o, q, p),
        covered(o, h, q) || in_triangle(o, h[h.len() - 1], p, q),
    ensures
        covered(o, h.push(p), q),
        covered(o, h.push(p), p),
{
    let n: int = h.len() as int;
    let g = h.push(p);
    let t = h[n - 1];
    lemma_cross_symmetries(o, t, p);
    lemma_cross_symmetries(o, p, p);
    lemma_cross_symmetries(t, p, p);
    lemma_cross_symmetries(p, o, p);
    if n >= 2 {
        assert(g[1] == h[1]);
        let k = n - 1;
        assert(g[k] == t && g[k + 1] == p);
        assert(in_triangle(o, g[k], g[k + 1], p));
    } else {
        assert(g[1] == p);
        lemma_origin_facts(o, p, p);
        assert(dist_sq(o, p) <= dist_sq(o, p));
        lemma_on_ray(o, p, p);
    }
    if q == o {
    } else if covered(o, h, q) && n >= 2 && on_segment(o, h[1], q) {
    } else if covered(o, h, q) && (exists|k: int| 1 <= k && k + 1 < h.len() && #[trigger] in_triangle(o, h[k], h[k + 1], q)) {
        let k = choose|k: int| 1 <= k && k + 1 < h.len() && #[trigger] in_triangle(o, h[k], h[k + 1], q);
        assert(g[k] == h[k] && g[k + 1] == h[k + 1]);
        assert(in_triangle(o, g[k], g[k + 1], q));
    } else {
        assert(in_triangle(o, t, p, q));
        if n >= 2 {
            let k = n - 1;
            assert(g[k] == t && g[k + 1] == p);
            assert(in_triangle(o, g[k], g[k + 1], q));
        } else {
            assert(t == o);
            lemma_cross_symmetries(p, o, q);
            lemma_cross_symmetries(o, p, q);
            lemma_cross_symmetries(o, o, q);
            assert(cross(o, p, q) == 0);
            lemma_origin_facts(o, q, p);
            lemma_on_ray(o, p, q);
        }
    }
}

/// Every point of the swept region of a finished convex stack lies on the
/// left of, or on, each of its edges, the closing one included.
proof fn lemma_covered_inside(o: Point, h: Seq<Point>, q: Point)
    requires
        fan_around(o, h),
        convex_position(h),
        h.len() >= 2,
        covered(o, h, q),
    ensures
        forall|k: int| 0 <= k < h.len() - 1 ==> #[trigger] cross(h[k], h[k + 1], q) >= 0,
        cross(h[h.len() - 1], h[0], q) >= 0,
{
    let n: int = h.len() as int;
    let t = h[n - 1];
    // the corners are on the left of the closing edge
    assert forall|j: int| 0 <= j < n implies cross(t, o, #[trigger] h[j]) >= 0 by {
        lemma_cross_symmetries(o, h[j], t);
        if j == 0 || j == n - 1 {
            lemma_cross_symmetries(t, o, o);
            lemma_cross_symmetries(t, o, t);
        } else {
            assert(cross(o, h[j], h[n - 1]) > 0);
        }
    }
    assert forall|k: int| 0 <= k < n - 1 implies #[trigger] cross(h[k], h[k + 1], q) >= 0 by {
        assert(cross(h[k], h[k + 1], h[0]) >= 0);
        assert(cross(h[k], h[k + 1], h[1]) >= 0);
        if q == o {
        } else if on_segment(o, h[1], q) {
            lemma_segment_side(o, h[1], q, h[k], h[k + 1]);
        } else {
            let m = choose|m: int| 1 <= m && m + 1 < h.len() && #[trigger] in_triangle(o, h[m], h[m + 1], q);
            assert(cross(h[k], h[k + 1], h[m]) >= 0);
            assert(cross(h[k], h[k + 1], h[m + 1]) >= 0);
            assert(cross(o, h[m], h[m + 1]) > 0);
            lemma_triangle_side(o, h[m], h[m + 1], q, h[k], h[k + 1]);
        }
    }
    assert(cross(t, o, h[0]) >= 0);
    assert(cross(t, o, h[1]) >= 0);
    if q == o {
        lemma_cross_symmetries(t, o, o);
    } else if on_segment(o, h[1], q) {
        lemma_segment_side(o, h[1], q, t, o);
    } else {
        let m = choose|m: int| 1 <= m && m + 1 < h.len() && #[trigger] in_triangle(o, h[m], h[m + 1], q);
        assert(cross(t, o, h[m]) >= 0);
        assert(cross(t, o, h[m + 1]) >= 0);
        lemma_triangle_side(o, h[m], h[m + 1], q, t, o);
    }
}

/// `h` picks the points of `s` at the strictly increasing positions `idx`.
pub open spec fn picks(h: Seq<Point>, s: Seq<Point>, idx: Seq<int>) -> bool {
    &&& idx.len() == h.len()
    &&& forall|k: int| 0 <= k < idx.len() ==> 0 <= #[trigger] idx[k] < s.len() && h[k] == s[idx[k]]
    &&& forall|a: int, b: int| 0 <= a < b < idx.len() ==> #[trigger] idx[a] < #[trigger] idx[b]
}

proof fn lemma_picks_distinct(h: Seq<Point>, s: Seq<Point>, idx: Seq<int>)
    requires
        picks(h, s, idx),
        distinct(s),
    ensures
        distinct(h),
        forall|k: int| 0 <= k < h.len() ==> s.contains(#[trigger] h[k]),
{
    assert forall|a: int, b: int| 0 <= a < b < h.len() implies #[trigger] h[a] != #[trigger] h[b] by {
        assert(idx[a] < idx[b]);
    }
    assert forall|k: int| 0 <= k < h.len() implies s.contains(#[trigger] h[k]) by {
        assert(s[idx[k]] == h[k]);
    }
}

/// Dropping the last point keeps the shape of the stack.
proof fn lemma_pop_shape(o: Point, h: Seq<Point>)
    requires
        h.len() >= 2,
        fan_around(o, h),
        ccw_chain(h),
        convex_position(h),
    ensures
        fan_around(o, h.drop_last()),
        ccw_chain(h.drop_last()),
        convex_position(h.drop_last()),
{
    let g = h.drop_last();
    assert forall|a: int, b: int| 1 <= a < b < g.len() implies cross(o, #[trigger] g[a], #[trigger] g[b]) > 0 by {
        assert(g[a] == h[a] && g[b] == h[b]);
    }
    assert forall|k: int| 1 <= k < g.len() implies #[trigger] g[k] != o by {
        assert(g[k] == h[k]);
    }
    assert forall|k: int| 0 <= k && k + 2 < g.len() implies #[trigger] cross(g[k], g[k + 1], g[k + 2]) > 0 by {
        assert(g[k] == h[k] && g[k + 1] == h[k + 1] && g[k + 2] == h[k + 2]);
    }
    assert forall|k: int, j: int| 0 <= k && k + 1 < g.len() && 0 <= j < g.len() implies #[trigger] cross(g[k], g[k + 1], g[j]) >= 0 by {
        assert(g[k] == h[k] && g[k + 1] == h[k + 1] && g[j] == h[j]);
    }
}

/// What the stack knows of the next point p = s[i] to scan.
proof fn lemma_stack_facts(o: Point, h: Seq<Point>, s: Seq<Point>, idx: Seq<int>, i: int)
    requires
        picks(h, s, idx),
        forall|k: int| 0 <= k < idx.len() ==> #[trigger] idx[k] < i,
        0 <= i < s.len(),
        sorted_around(o, s),
        distinct(s),
        forall|j: int| 0 <= j < s.len() ==> lower_left(o, #[trigger] s[j]),
    ensures
        forall|k: int| 0 <= k < h.len() ==> lower_left(o, #[trigger] h[k]),
        forall|k: int| 0 <= k < h.len() ==> angle_le(o, #[trigger] h[k], s[i]),
        forall|k: int| 0 <= k < h.len() ==> #[trigger] h[k] != s[i],
{
    assert forall|k: int| 0 <= k < h.len() implies lower_left(o, #[trigger] h[k]) && angle_le(o, h[k], s[i]) && h[k] != s[i] by {
        assert(h[k] == s[idx[k]]);
        assert(idx[k] < i);
    }
}

/// The stack scan: keeps the points of `s` that make left turns.
fn scan(s: &Vec<Point>, o: &Point) -> (h: Vec<Point>)
    requires
        s@.len() >= 2,
        s@[0] == *o,
        sorted_around(*o, s@),
        distinct(s@),
        forall|j: int| 0 <= j < s@.len() ==> lower_left(*o, #[trigger] s@[j]),
    ensures
        h@.len() >= 2,
        fan_around(*o, h@),
        ccw_chain(h@),
        convex_position(h@),
        forall|j: int| 0 <= j < s@.len() ==> covered(*o, h@, #[trigger] s@[j]),
        exists|idx: Seq<int>| picks(h@, s@, idx),
{
    let ghost og = *o;
    let mut hull: Vec<Point> = Vec::new();
    hull.push(s[0]);
    let ghost mut idx: Seq<int> = seq![0];
    let m = s.len();
    proof {
        assert(covered(og, hull@, s@[0]));
    }
    for i in 1..m
        invariant
            m == s@.len(),
            m >= 2,
            s@[0] == og,
            sorted_around(og, s@),
            distinct(s@),
            forall|j: int| 0 <= j < s@.len() ==> lower_left(og, #[trigger] s@[j]),
            hull@.len() >= 1,
            i >= 2 ==> hull@.len() >= 2,
            fan_around(og, hull@),
            ccw_chain(hull@),
            convex_position(hull@),
            picks(hull@, s@, idx),
            forall|k: int| 0 <= k < idx.len() ==> #[trigger] idx[k] < i,
            idx[0] == 0,
            forall|j: int| 0 <= j < i ==> covered(og, hull@, #[trigger] s@[j]),
    {
        let p = s[i];
        proof {
            lemma_origin_facts(og, p, p);
            assert(p != og) by {
                assert(s@[0] != s@[i as int]);
            }
        }
        while hull.len() > 1
            invariant
                hull@.len() >= 1,
                fan_around(og, hull@),
                ccw_chain(hull@),
                convex_position(hull@),
                picks(hull@, s@, idx),
                forall|k: int| 0 <= k < idx.len() ==> #[trigger] idx[k] < i,
                idx[0] == 0,
                1 <= i < s@.len(),
                p == s@[i as int],
                p != og,
                sorted_around(og, s@),
                distinct(s@),
                forall|j: int| 0 <= j < s@.len() ==> lower_left(og, #[trigger] s@[j]),
                forall|j: int| 0 <= j < i ==> covered(og, hull@, #[trigger] s@[j])
                    || in_triangle(og, hull@[hull@.len() - 1], p, s@[j]),
            ensures
                hull@.len() > 1 ==> cross(hull@[hull@.len() - 2], hull@[hull@.len() - 1], p) > 0,
            decreases hull@.len(),
        {
            let top = hull[hull.len() - 1];
            let next_to_top = hull[hull.len() - 2];
            match next_to_top.orientation(&top, &p) {
                Orientation::CounterClockwise => {
                    break;
                }
                _ => {
                    let ghost before = hull@;
                    proof {
                        lemma_stack_facts(og, before, s@, idx, i as int);
                        assert forall|j: int| 0 <= j < i implies covered(og, before.drop_last(), #[trigger] s@[j])
                            || in_triangle(og, before[before.len() - 2], p, s@[j]) by {
                            assert(angle_le(og, s@[j], s@[i as int]));
                            lemma_pop_cover(og, before, p, s@[j]);
                        }
                        lemma_pop_shape(og, before);
                    }
                    hull.pop();
                    proof {
                        assert(hull@ =~= before.drop_last());
                        idx = idx.drop_last();
                    }
                }
            }
        }
        let ghost before = hull@;
        let ghost before_idx = idx;
        proof {
            lemma_stack_facts(og, before, s@, idx, i as int);
            if before.len() >= 2 {
                lemma_push_turns(og, before, p);
            }
            lemma_push_fan(og, before, p);
            lemma_push_convex(og, before, p);
            assert forall|j: int| 0 <= j < i implies covered(og, before.push(p), #[trigger] s@[j]) by {
                assert(angle_le(og, s@[j], s@[i as int]));
                lemma_push_cover(og, before, p, s@[j]);
            }
            lemma_push_cover(og, before, p, p);
        }
        hull.push(p);
        proof {
            idx = idx.push(i as int);
            assert forall|a: int, b: int| 0 <= a < b < idx.len() implies #[trigger] idx[a] < #[trigger] idx[b] by {
                if b < before_idx.len() {
                    assert(idx[a] == before_idx[a] && idx[b] == before_idx[b]);
                } else {
                    assert(idx[a] == before_idx[a]);
                }
            }
            assert forall|j: int| 0 <= j < i + 1 implies covered(og, hull@, #[trigger] s@[j]) by {
                if j == i {
                }
            }
        }
    }
    hull
}

/// When at most two distinct points remain, every point lies on the line
/// through them.
proof fn lemma_few_points(u: Seq<Point>, pts: Seq<Point>)
    requires
        1 <= u.len() < 3,
        forall|j: int| 0 <= j < pts.len() ==> u.contains(#[trigger] pts[j]),
    ensures
        forall|k: int| 0 <= k < u.len() - 1 ==> #[trigger] supports(u[k], u[k + 1], pts),
        supports(u[u.len() - 1], u[0], pts),
{
    assert forall|j: int| 0 <= j < pts.len() implies cross(u[u.len() - 1], u[0], #[trigger] pts[j]) >= 0
        && (u.len() == 2 ==> cross(u[0], u[1], pts[j]) >= 0) by {
        let m = choose|m: int| 0 <= m < u.len() && u[m] == pts[j];
        lemma_cross_symmetries(u[u.len() - 1], u[0], pts[j]);
        lemma_cross_symmetries(u[0], u[u.len() - 1], pts[j]);
        if u.len() == 2 {
            lemma_cross_symmetries(u[0], u[1], pts[j]);
        }
    }
    assert forall|k: int| 0 <= k < u.len() - 1 implies #[trigger] supports(u[k], u[k + 1], pts) by {
        assert(k == 0 && u.len() == 2);
    }
}

/// Compute the convex hull of a set of points with the Graham scan.
///
/// Returns the hull vertices in counter-clockwise order starting from the
/// bottom-most (then left-most) point. Repeated points and points in the
/// interior of hull edges are removed. With fewer than three points the
/// input is returned unchanged.
pub fn graham_scan(points: &[Point]) -> (hull: Vec<Point>)
    ensures
        points@.len() < 3 ==> hull@ == points@,
        // the outline of the points: the vertices of their hull, or of what they reduce to
        points@.len() >= 3 ==> outlines(hull@, points@),
        points@.len() >= 3 ==> {
            &&& hull@.len() >= 1
            &&& is_lowest(hull@[0], points@)
            &&& drawn_from(hull@, points@)
            &&& distinct(hull@)
            &&& ccw_chain(hull@)
            // the polygon closes with counter-clockwise turns too
            &&& hull@.len() >= 3 ==> cross(hull@[hull@.len() - 2], hull@[hull@.len() - 1], hull@[0]) > 0
            &&& hull@.len() >= 3 ==> cross(hull@[hull@.len() - 1], hull@[0], hull@[1]) > 0
            // the vertices turn counter-clockwise around the first one
            &&& forall|a: int, b: int| 1 <= a < b < hull@.len() ==> cross(hull@[0], #[trigger] hull@[a], #[trigger] hull@[b]) > 0
            // every point lies on the left of, or on, every edge, the closing one included
            &&& forall|k: int| 0 <= k < hull@.len() - 1 ==> #[trigger] supports(hull@[k], hull@[k + 1], points@)
            &&& supports(hull@[hull@.len() - 1], hull@[0], points@)
            // every point lies in one of the triangles that the hull fans into
            // from its first vertex, or on its first edge
            &&& fan_around(hull@[0], hull@)
            &&& forall|j: int| 0 <= j < points@.len() ==> covered(hull@[0], hull@, #[trigger] points@[j])
            // three or more vertices exactly when the points are not all on one line
            &&& hull@.len() >= 3 <==> !collinear_set(points@)
            &&& hull@.len() >= 3 ==> is_convex_hull(hull@, points@)
            // otherwise one point that all points equal, or the segment that holds them
            &&& hull@.len() == 1 ==> forall|j: int| 0 <= j < points@.len() ==> #[trigger] points@[j] == hull@[0]
            &&& hull@.len() == 2 ==> spans(hull@[0], hull@[1], points@)
        },
{
    if points.len() < 3 {
        return copy_points(points);
    }
    let pivot = lowest_point(points);
    let all = copy_points(points);
    let sorted = sort_around(&all, &pivot);
    proof {
        broadcast use vstd::seq_lib::group_to_multiset_ensures;
        assert(sorted@.to_multiset().count(pivot) > 0);
        assert forall|i: int| 0 <= i < sorted@.len() implies points@.contains(#[trigger] sorted@[i]) by {
            assert(sorted@.to_multiset().count(sorted@[i]) > 0);
        }
    }
    let unique = dedup_sorted(&sorted, &pivot);
    proof {
        // the first point after sorting is the pivot itself
        let k = choose|k: int| 0 <= k < sorted@.len() && sorted@[k] == pivot;
        if k > 0 {
            assert(angle_le(pivot, sorted@[0], sorted@[k]));
        }
        lemma_origin_facts(pivot, sorted@[0], pivot);
        lemma_origin_facts(pivot, pivot, pivot);
        assert(unique@[0] == pivot);
        assert forall|i: int| 0 <= i < unique@.len() implies points@.contains(#[trigger] unique@[i]) by {
            let m = choose|m: int| 0 <= m < sorted@.len() && sorted@[m] == unique@[i];
            assert(points@.contains(sorted@[m]));
        }
    }
    proof {
        // every point occurs in the deduplicated sequence
        assert forall|j: int| 0 <= j < points@.len() implies unique@.contains(#[trigger] points@[j]) by {
            broadcast use vstd::seq_lib::group_to_multiset_ensures;
            assert(points@.to_multiset().count(points@[j]) > 0);
            assert(sorted@.to_multiset().count(points@[j]) > 0);
            assert(sorted@.contains(points@[j]));
            let m = choose|m: int| 0 <= m < sorted@.len() && sorted@[m] == points@[j];
            assert(unique@.contains(sorted@[m]));
        }
    }
    if unique.len() < 3 {
        proof {
            lemma_few_points(unique@, points@);
            let u = unique@;
            assert forall|j: int| 0 <= j < points@.len() implies covered(u[0], u, #[trigger] points@[j]) by {
                let m = choose|m: int| 0 <= m < u.len() && u[m] == points@[j];
                if m == 1 {
                    lemma_cross_symmetries(u[0], u[1], u[1]);
                    lemma_origin_facts(u[0], u[1], u[1]);
                    assert(dt(u[1].x - u[0].x, u[1].y - u[0].y, u[1].x - u[0].x, u[1].y - u[0].y) == dist_sq(u[0], u[1])) by (nonlinear_arith);
                    assert(dt(u[0].x - u[1].x, u[0].y - u[1].y, 0, 0) == 0) by (nonlinear_arith);
                    assert(on_segment(u[0], u[1], points@[j]));
                }
            }
            lemma_covered_collinear(u, points@);
            lemma_covered_spans(u, points@);
        }
        return unique;
    }
    let hull = scan(&unique, &pivot);
    proof {
        let idx = choose|idx: Seq<int>| picks(hull@, unique@, idx);
        lemma_picks_distinct(hull@, unique@, idx);
        assert forall|k: int| 0 <= k < hull@.len() implies points@.contains(#[trigger] hull@[k]) by {
            assert(unique@.contains(hull@[k]));
        }
        let n = hull@.len();
        assert(hull@[0] == pivot);
        assert forall|j: int| 0 <= j < points@.len() implies covered(pivot, hull@, #[trigger] points@[j]) by {
            let m = choose|m: int| 0 <= m < unique@.len() && unique@[m] == points@[j];
            assert(covered(pivot, hull@, unique@[m]));
        }
        assert forall|k: int| 0 <= k < n - 1 implies #[trigger] supports(hull@[k], hull@[k + 1], points@) by {
            assert forall|j: int| 0 <= j < points@.len() implies cross(hull@[k], hull@[k + 1], #[trigger] points@[j]) >= 0 by {
                lemma_covered_inside(pivot, hull@, points@[j]);
            }
        }
        assert(supports(hull@[n - 1], hull@[0], points@)) by {
            assert forall|j: int| 0 <= j < points@.len() implies cross(hull@[n - 1], hull@[0], #[trigger] points@[j]) >= 0 by {
                lemma_covered_inside(pivot, hull@, points@[j]);
            }
        }
        if n >= 3 {
            assert(cross(pivot, hull@[n - 2], hull@[n - 1]) > 0);
            lemma_cross_symmetries(pivot, hull@[n - 2], hull@[n - 1]);
            assert(cross(pivot, hull@[1], hull@[n - 1]) > 0);
            lemma_cross_symmetries(pivot, hull@[1], hull@[n - 1]);
            assert(is_convex_hull(hull@, points@));
            lemma_hull_not_collinear(hull@, points@);
        } else {
            lemma_covered_collinear(hull@, points@);
            lemma_covered_spans(hull@, points@);
        }
    }
    hull
}

} // verus!
