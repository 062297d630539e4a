//! Chan's algorithm.
//!
//! Splits the points into groups of at most m points, computes the hull of
//! each group with the Graham scan, then wraps around the group hulls as the
//! Jarvis march does, for at most m steps. The candidate size m doubles until
//! the wrap closes.

use vstd::prelude::*;
use crate::point::{Point, Orientation, cross, dist_sq};
use crate::geometry::{cr, dt, lemma_lagrange, lemma_zero_vector};
use crate::hull::{
    drawn_from, outlines, distinct, left_lower, supports, wraps, copy_points, copy_range, fan_around, covered, aff,
    lemma_fan_affine, lemma_distinct_len, lemma_cross_symmetries, is_convex_hull, collinear_set,
    lemma_wrap_closed, lemma_same_collinear, spans, refl, refl_seq, is_cw_hull, lemma_refl, lemma_refl_seq,
    lemma_refl_collinear, lemma_refl_spans, lemma_extreme_in_hull,
};
use crate::graham::graham_scan;
use crate::jarvis::{
    is_leftmost, in_front, all_in_front, lemma_vector_facts, lemma_fan_at, lemma_cw_replace,
    lemma_far_replace, lemma_advance, lemma_turn, lemma_wrap_segment,
};

verus! {

/// Whether `candidate` should replace `best` as the next vertex after
/// `current`: it does when `best` is `current` itself, when `candidate` lies
/// on the left of current -> best (a more counter-clockwise turn), or when it
/// lies on that line farther out.
pub open spec fn better(current: Point, best: Point, candidate: Point) -> bool {
    best == current || cross(current, best, candidate) > 0 || (cross(current, best, candidate) == 0
        && dist_sq(current, candidate) > dist_sq(current, best))
}

/// The group hull `s` encloses `q`: `q` is one of its points, or lies in the
/// triangles it fans into from its first point.
pub open spec fn encloses(s: Seq<Point>, q: Point) -> bool {
    s.contains(q) || (fan_around(s[0], s) && covered(s[0], s, q))
}

/// Every group hull is a non-empty sequence of points of `pts`.
pub open spec fn hulls_from(subs: Seq<Vec<Point>>, pts: Seq<Point>) -> bool {
    forall|g: int| 0 <= g < subs.len() ==> (#[trigger] subs[g])@.len() >= 1 && drawn_from(subs[g]@, pts)
}

/// Every point of `pts[0..end]` is enclosed by one of the group hulls.
pub open spec fn hulls_enclose(subs: Seq<Vec<Point>>, pts: Seq<Point>, end: int) -> bool {
    forall|j: int| 0 <= j < end ==> exists|g: int| 0 <= g < subs.len() && encloses((#[trigger] subs[g])@, #[trigger] pts[j])
}

/// No point of the group hulls `subs[0..upto]` makes a better next vertex
/// after `c` than `b`: none lies on the left of c -> b, nor on that line
/// farther out.
pub open spec fn beats_hulls(c: Point, b: Point, subs: Seq<Vec<Point>>, upto: int) -> bool {
    forall|g: int, k: int| 0 <= g < upto && 0 <= k < (#[trigger] subs[g])@.len() ==> {
        &&& cross(c, b, #[trigger] subs[g]@[k]) <= 0
        &&& cross(c, b, subs[g]@[k]) == 0 ==> dist_sq(c, subs[g]@[k]) <= dist_sq(c, b)
    }
}

/// An enclosed point shares the sign conditions of the hull points.
proof fn lemma_encloses_affine(s: Seq<Point>, q: Point, fx: int, fy: int, fbx: int, fby: int, gx: int, gy: int, gbx: int, gby: int)
    requires
        s.len() >= 1,
        encloses(s, q),
        forall|j: int| 0 <= j < s.len() ==> aff(fx, fy, fbx, fby, #[trigger] s[j]) >= 0,
        forall|j: int| 0 <= j < s.len() ==> aff(fx, fy, fbx, fby, #[trigger] s[j]) == 0 ==> aff(gx, gy, gbx, gby, s[j]) >= 0,
    ensures
        aff(fx, fy, fbx, fby, q) >= 0,
        aff(fx, fy, fbx, fby, q) == 0 ==> aff(gx, gy, gbx, gby, q) >= 0,
{
    if s.contains(q) {
        let j = choose|j: int| 0 <= j < s.len() && s[j] == q;
        assert(aff(fx, fy, fbx, fby, s[j]) >= 0);
    } else {
        lemma_fan_affine(s, q, fx, fy, fbx, fby, gx, gy, gbx, gby);
    }
}

/// On the ray from `c` through `b`, not being farther than `b` is an affine
/// condition.
proof fn lemma_ray_dist(c: Point, b: Point, v: Point)
    requires
        v == c || dt(b.x - c.x, b.y - c.y, v.x - c.x, v.y - c.y) > 0,
        b != c,
        cross(c, b, v) == 0,
    ensures
        dist_sq(c, v) <= dist_sq(c, b) <==> aff(c.y - b.y, b.x - c.x, b.x as int, b.y as int, v) >= 0,
{
    let ux = b.x - c.x;
    let uy = b.y - c.y;
    let vx = v.x - c.x;
    let vy = v.y - c.y;
    let uu = dt(ux, uy, ux, uy);
    let vv = dt(vx, vy, vx, vy);
    let uv = dt(ux, uy, vx, vy);
    let a = aff(c.y - b.y, b.x - c.x, b.x as int, b.y as int, v);
    assert(a == uu - uv) by (nonlinear_arith)
        requires
            a == (c.y - b.y) * (v.y - b.y) - (b.x - c.x) * (v.x - b.x),
            uu == ux * ux + uy * uy,
            uv == ux * vx + uy * vy,
            ux == b.x - c.x,
            uy == b.y - c.y,
            vx == v.x - c.x,
            vy == v.y - c.y,
    ;
    lemma_vector_facts(c, b, v);
    lemma_vector_facts(c, v, b);
    assert(dist_sq(c, b) == uu && dist_sq(c, v) == vv);
    assert(uu > 0);
    if v == c {
        assert(uv == 0) by (nonlinear_arith)
            requires
                vx == 0,
                vy == 0,
                uv == ux * vx + uy * vy,
        ;
    } else {
        lemma_lagrange(ux, uy, vx, vy);
        let z = cr(ux, uy, vx, vy);
        assert(z == 0);
        assert(vv <= uu <==> uv <= uu) by (nonlinear_arith)
            requires
                uv * uv + z * z == uu * vv,
                z == 0,
                uv > 0,
                uu > 0,
                vv >= 0,
        ;
    }
}

/// Seen from c, a point v on the line c -> b lies no farther than b exactly
/// when an affine condition holds, when every mirrored point is in front of
/// the mirrored c.
proof fn lemma_ray_dist_refl(c: Point, dx: int, dy: int, b: Point, v: Point, pts: Seq<Point>)
    requires
        all_in_front(refl(c), dx, dy, refl_seq(pts)),
        pts.contains(b),
        pts.contains(v),
        b != c,
        cross(c, b, v) == 0,
    ensures
        dist_sq(c, v) <= dist_sq(c, b) <==> aff(c.y - b.y, b.x - c.x, b.x as int, b.y as int, v) >= 0,
{
    lemma_refl_seq(pts);
    lemma_refl(c, b, v);
    lemma_refl(c, v, v);
    if v != c {
        let kb = choose|k: int| 0 <= k < pts.len() && pts[k] == b;
        let kv = choose|k: int| 0 <= k < pts.len() && pts[k] == v;
        assert(in_front(refl(c), dx, dy, refl_seq(pts)[kb]));
        assert(in_front(refl(c), dx, dy, refl_seq(pts)[kv]));
        lemma_refl(c, b, b);
        lemma_fan_at(refl(c), dx, dy, refl(b), refl(v), refl(v));
    }
    lemma_ray_dist(c, b, v);
}

/// What one wrapping step saw of the group hulls holds of every point: no
/// point lies on the left of c -> b, nor on that line beyond b. In the mirror
/// image, c -> b wraps the mirrored points.
proof fn lemma_lift_wraps(c: Point, dx: int, dy: int, b: Point, subs: Seq<Vec<Point>>, pts: Seq<Point>)
    requires
        all_in_front(refl(c), dx, dy, refl_seq(pts)),
        pts.contains(b),
        b != c,
        hulls_from(subs, pts),
        hulls_enclose(subs, pts, pts.len() as int),
        beats_hulls(c, b, subs, subs.len() as int),
    ensures
        wraps(refl(c), refl(b), refl_seq(pts)),
{
    let fx = c.x - b.x;
    let fy = c.y - b.y;
    let gx = c.y - b.y;
    let gy = b.x - c.x;
    assert forall|j: int| 0 <= j < pts.len() implies cross(b, c, #[trigger] pts[j]) >= 0
        && (cross(b, c, pts[j]) == 0 ==> dist_sq(c, pts[j]) <= dist_sq(c, b)) by {
        let q = pts[j];
        let g = choose|g: int| 0 <= g < subs.len() && encloses((#[trigger] subs[g])@, q);
        let s = subs[g]@;
        assert(s.len() >= 1 && drawn_from(s, pts));
        assert forall|k: int| 0 <= k < s.len() implies aff(fx, fy, b.x as int, b.y as int, #[trigger] s[k]) >= 0
            && (aff(fx, fy, b.x as int, b.y as int, s[k]) == 0 ==> aff(gx, gy, b.x as int, b.y as int, s[k]) >= 0) by {
            let v = s[k];
            assert(cross(c, b, subs[g]@[k]) <= 0);
            crate::hull::lemma_cross_is_aff(b, c, v);
            lemma_cross_symmetries(c, b, v);
            assert(pts.contains(s[k]));
            if cross(c, b, v) == 0 {
                lemma_ray_dist_refl(c, dx, dy, b, v, pts);
            }
        }
        lemma_encloses_affine(s, q, fx, fy, b.x as int, b.y as int, gx, gy, b.x as int, b.y as int);
        crate::hull::lemma_cross_is_aff(b, c, q);
        lemma_cross_symmetries(c, b, q);
        assert(pts.contains(pts[j]));
        if cross(c, b, q) == 0 {
            lemma_ray_dist_refl(c, dx, dy, b, q, pts);
        }
    }
    lemma_refl_seq(pts);
    let rp = refl_seq(pts);
    assert forall|j: int| 0 <= j < rp.len() implies cross(refl(c), refl(b), #[trigger] rp[j]) >= 0
        && (cross(refl(c), refl(b), rp[j]) == 0 ==> dist_sq(refl(c), rp[j]) <= dist_sq(refl(c), refl(b))) by {
        lemma_refl(c, b, pts[j]);
        lemma_refl(c, pts[j], pts[j]);
        lemma_refl(c, b, b);
        lemma_cross_symmetries(c, b, pts[j]);
        assert(cross(b, c, pts[j]) >= 0);
    }
}

/// When every point of every group hull is `c`, every point is `c`.
proof fn lemma_lift_same(c: Point, subs: Seq<Vec<Point>>, pts: Seq<Point>)
    requires
        hulls_from(subs, pts),
        hulls_enclose(subs, pts, pts.len() as int),
        forall|g: int, k: int| 0 <= g < subs.len() && 0 <= k < (#[trigger] subs[g])@.len() ==> #[trigger] subs[g]@[k] == c,
    ensures
        forall|j: int| 0 <= j < pts.len() ==> #[trigger] pts[j] == c,
{
    assert forall|j: int| 0 <= j < pts.len() implies #[trigger] pts[j] == c by {
        let q = pts[j];
        let g = choose|g: int| 0 <= g < subs.len() && encloses((#[trigger] subs[g])@, q);
        let s = subs[g]@;
        assert(s.len() >= 1);
        if s.contains(q) {
            let k = choose|k: int| 0 <= k < s.len() && s[k] == q;
            assert(subs[g]@[k] == c);
        } else {
            assert(s[0] == c);
            if s.len() >= 2 {
                assert(s[1] == c);
            }
        }
    }
}

fn should_update(current: Point, best: Point, candidate: Point) -> (r: bool)
    ensures
        r == better(current, best, candidate),
{
    if best == current {
        return true;
    }
    match current.orientation(&best, &candidate) {
        Orientation::CounterClockwise => true,
        Orientation::Collinear => current.dist_sq(&candidate) > current.dist_sq(&best),
        Orientation::Clockwise => false,
    }
}

/// The point of a group hull that the wrap from `current` should go to next,
/// the most counter-clockwise one: scanning the hull, a point replaces the
/// best so far when `better` says so, and `current` itself is passed over.
/// Any hull is accepted; when the mirrored hull lies in front of the mirrored
/// `current` for the ghost direction (dx, dy), as it does along the wrap, the
/// point found is extreme among all points of the hull.
fn find_tangent(hull: &Vec<Point>, current: Point, Ghost(dx): Ghost<int>, Ghost(dy): Ghost<int>) -> (best: Point)
    requires
        hull@.len() >= 1,
    ensures
        hull@.contains(best),
        best == current ==> forall|k: int| 0 <= k < hull@.len() ==> #[trigger] hull@[k] == current,
        // when the mirrored hull lies in front of the mirrored `current`, no point
        // of the hull is on the left of current -> best, nor on that line farther out
        all_in_front(refl(current), dx, dy, refl_seq(hull@)) && best != current ==> forall|k: int| 0 <= k < hull@.len()
            ==> cross(current, best, #[trigger] hull@[k]) <= 0
            && (cross(current, best, hull@[k]) == 0 ==> dist_sq(current, hull@[k]) <= dist_sq(current, best)),
{
    let n = hull.len();
    let c = current;
    let mut best = hull[0];
    let ghost mut kb: int = 0;
    let ghost rh = refl_seq(hull@);
    let ghost front = all_in_front(refl(current), dx, dy, refl_seq(hull@));
    proof {
        lemma_vector_facts(c, best, best);
        lemma_refl_seq(hull@);
    }
    for i in 1..n
        invariant
            n == hull@.len(),
            rh == refl_seq(hull@),
            rh.len() == n,
            forall|k: int| 0 <= k < n ==> #[trigger] rh[k] == refl(hull@[k]),
            front == all_in_front(refl(c), dx, dy, rh),
            0 <= kb < n,
            hull@[kb] == best,
            front && best != c ==> forall|k: int| 0 <= k < i ==> cross(c, best, #[trigger] hull@[k]) <= 0
                && (cross(c, best, hull@[k]) == 0 ==> dist_sq(c, hull@[k]) <= dist_sq(c, best)),
            best == c ==> forall|k: int| 0 <= k < i ==> #[trigger] hull@[k] == c,
    {
        let p = hull[i];
        proof {
            lemma_vector_facts(c, best, p);
            lemma_vector_facts(c, p, best);
            lemma_vector_facts(c, p, p);
            lemma_vector_facts(c, p, c);
            lemma_vector_facts(c, best, c);
        }
        if p != c {
            if should_update(c, best, p) {
                proof {
                  if front {
                    assert(in_front(refl(c), dx, dy, rh[kb]));
                    assert(in_front(refl(c), dx, dy, rh[i as int]));
                    lemma_refl(c, best, p);
                    lemma_refl(c, best, best);
                    lemma_refl(c, p, p);
                    assert forall|k: int| 0 <= k < i + 1 implies cross(c, p, #[trigger] hull@[k]) <= 0
                        && (cross(c, p, hull@[k]) == 0 ==> dist_sq(c, hull@[k]) <= dist_sq(c, p)) by {
                        if k < i {
                            let w = hull@[k];
                            assert(in_front(refl(c), dx, dy, rh[k]));
                            lemma_vector_facts(c, p, w);
                            lemma_vector_facts(c, w, p);
                            lemma_refl(c, p, w);
                            lemma_refl(c, best, w);
                            lemma_refl(c, w, w);
                            if best == c {
                                assert(w == c);
                            } else if cross(c, best, p) > 0 {
                                lemma_cw_replace(refl(c), dx, dy, refl(best), refl(p), refl(w));
                            } else {
                                lemma_far_replace(refl(c), dx, dy, refl(best), refl(p), refl(w));
                            }
                        }
                    }
                  }
                }
                best = p;
                proof {
                    kb = i as int;
                }
            }
        }
    }
    proof {
        assert(hull@.contains(hull@[kb]));
    }
    best
}

fn leftmost_point(points: &[Point]) -> (p: Point)
    requires
        points@.len() > 0,
    ensures
        is_leftmost(p, points@),
{
    let n = points.len();
    let mut start = points[0];
    let ghost mut k: int = 0;
    for i in 1..n
        invariant
            n == points@.len(),
            0 <= k < n,
            points@[k] == start,
            forall|j: int| 0 <= j < i ==> left_lower(start, #[trigger] points@[j]),
    {
        let p = points[i];
        if p.x < start.x || (p.x == start.x && p.y < start.y) {
            start = p;
            proof {
                k = i as int;
            }
        }
    }
    proof {
        assert(points@.contains(points@[k]));
    }
    start
}

/// The Graham scan hull of one group: a non-empty sequence of points of the
/// group that encloses each of them.
fn group_hull(group: &Vec<Point>) -> (sub: Vec<Point>)
    requires
        group@.len() >= 1,
    ensures
        sub@.len() >= 1,
        drawn_from(sub@, group@),
        forall|j: int| 0 <= j < group@.len() ==> encloses(sub@, #[trigger] group@[j]),
{
    let sub = graham_scan(group.as_slice());
    proof {
        assert forall|j: int| 0 <= j < group@.len() implies encloses(sub@, #[trigger] group@[j]) by {
            if group@.len() < 3 {
                assert(sub@[j] == group@[j]);
            } else {
                assert(covered(sub@[0], sub@, group@[j]));
            }
        }
    }
    sub
}

/// The hulls of consecutive groups of at most m points.
fn group_hulls(points: &[Point], m: usize) -> (subs: Vec<Vec<Point>>)
    requires
        m >= 1,
    ensures
        hulls_from(subs@, points@),
        hulls_enclose(subs@, points@, points@.len() as int),
{
    let n = points.len();
    let mut sub_hulls: Vec<Vec<Point>> = Vec::new();
    let mut start: usize = 0;
    while start < n
        invariant
            n == points@.len(),
            m >= 1,
            start <= n,
            hulls_from(sub_hulls@, points@),
            hulls_enclose(sub_hulls@, points@, start as int),
        decreases n - start,
    {
        let end = if n - start > m { start + m } else { n };
        let group = copy_range(points, start, end);
        let sub = group_hull(&group);
        let ghost before = sub_hulls@;
        proof {
            assert forall|i: int| 0 <= i < sub@.len() implies points@.contains(#[trigger] sub@[i]) by {
                let j = choose|j: int| 0 <= j < group@.len() && group@[j] == sub@[i];
                assert(points@[start + j] == sub@[i]);
            }
        }
        sub_hulls.push(sub);
        proof {
            let g_new = before.len() as int;
            assert(sub_hulls@[g_new] == sub);
            assert forall|g: int| 0 <= g < sub_hulls@.len() implies (#[trigger] sub_hulls@[g])@.len() >= 1 && drawn_from(sub_hulls@[g]@, points@) by {
                if g < g_new {
                    assert(sub_hulls@[g] == before[g]);
                }
            }
            assert forall|j: int| 0 <= j < end implies exists|g: int| 0 <= g < sub_hulls@.len() && encloses((#[trigger] sub_hulls@[g])@, #[trigger] points@[j]) by {
                if j < start {
                    let g = choose|g: int| 0 <= g < before.len() && encloses((#[trigger] before[g])@, points@[j]);
                    assert(sub_hulls@[g] == before[g]);
                } else {
                    assert(group@[j - start] == points@[j]);
                    assert(encloses(sub@, group@[j - start]));
                    assert(encloses(sub_hulls@[g_new]@, points@[j]));
                }
            }
        }
        start = end;
    }
    sub_hulls
}

/// Every mirrored point lies in front of the mirrored leftmost (then lowest)
/// point for the direction (2^36, -1): its mirror image is the lowest (then
/// leftmost) point of the mirrored points.
proof fn lemma_start_in_front(first: Point, pts: Seq<Point>)
    requires
        is_leftmost(first, pts),
    ensures
        forall|j: int| 0 <= j < pts.len() ==> in_front(refl(first), 0x10_0000_0000, -1, #[trigger] refl_seq(pts)[j]),
{
    lemma_refl_seq(pts);
    assert forall|j: int| 0 <= j < pts.len() implies in_front(refl(first), 0x10_0000_0000, -1, #[trigger] refl_seq(pts)[j]) by {
        let p = pts[j];
        assert(left_lower(first, p));
        let ddx = p.x - first.x;
        let ddy = p.y - first.y;
        if ddx == 0 && ddy == 0 {
            assert(refl(p) == refl(first));
        } else {
            assert(cr(0x10_0000_0000, -1, ddy, ddx) > 0) by (nonlinear_arith)
                requires
                    ddx > 0 || (ddx == 0 && ddy > 0),
                    -0x1_0000_0000 <= ddy <= 0x1_0000_0000,
            ;
        }
    }
}

/// The mirror image of `h` is a counter-clockwise wrap of the mirrored points
/// from the mirrored `first`: distinct points, each edge wrapping, turning
/// counter-clockwise around the start.
#[verifier::opaque]
pub open spec fn mirrored_wrap(h: Seq<Point>, first: Point, pts: Seq<Point>) -> bool {
    &&& h.len() >= 1
    &&& h[0] == first
    &&& drawn_from(h, pts)
    &&& distinct(h)
    &&& drawn_from(refl_seq(h), refl_seq(pts))
    &&& distinct(refl_seq(h))
    &&& forall|k: int| 0 <= k < h.len() - 1 ==> #[trigger] wraps(refl_seq(h)[k], refl_seq(h)[k + 1], refl_seq(pts))
    &&& forall|a: int, b: int| 1 <= a < b < h.len()
        ==> cross(refl(first), #[trigger] refl_seq(h)[a], #[trigger] refl_seq(h)[b]) > 0
}

/// The wrap starts at the leftmost point alone, with every mirrored point in
/// front of the mirrored start.
proof fn lemma_wrap_start(first: Point, pts: Seq<Point>)
    requires
        is_leftmost(first, pts),
    ensures
        mirrored_wrap(seq![first], first, pts),
        all_in_front(refl(first), 0x10_0000_0000, -1, refl_seq(pts)),
{
    reveal(mirrored_wrap);
    lemma_refl_seq(pts);
    lemma_refl_seq(seq![first]);
    lemma_start_in_front(first, pts);
    assert(refl_seq(pts).contains(refl(first)));
    assert(refl_seq(seq![first])[0] == refl(first));
}

/// One more vertex p after `current`, when current -> p wraps in the mirror
/// image and p is neither current nor the start.
proof fn lemma_wrap_extend(first: Point, current: Point, p: Point, dx: int, dy: int, h: Seq<Point>, pts: Seq<Point>)
    requires
        is_leftmost(first, pts),
        mirrored_wrap(h, first, pts),
        current == h[h.len() - 1],
        all_in_front(refl(current), dx, dy, refl_seq(pts)),
        wraps(refl(current), refl(p), refl_seq(pts)),
        pts.contains(p),
        p != current,
        p != first,
    ensures
        mirrored_wrap(h.push(p), first, pts),
        all_in_front(refl(p), refl(p).x - refl(current).x, refl(p).y - refl(current).y, refl_seq(pts)),
{
    reveal(mirrored_wrap);
    let rp = refl_seq(pts);
    let rh = refl_seq(h);
    lemma_refl_seq(pts);
    lemma_refl_seq(h);
    lemma_start_in_front(first, pts);
    lemma_refl(current, p, first);
    lemma_refl(p, p, p);
    assert(rh[0] == refl(first));
    assert(rh[rh.len() - 1] == refl(current));
    assert(rp.contains(refl(first)));
    assert(rp.contains(refl(p)));
    lemma_wrap_push(refl(first), refl(current), refl(p), dx, dy, rh, rp, 0x10_0000_0000, -1);
    let g = h.push(p);
    assert(refl_seq(g) =~= rh.push(refl(p)));
    lemma_refl_seq(g);
    assert forall|k: int| 0 <= k < g.len() - 1 implies #[trigger] wraps(refl_seq(g)[k], refl_seq(g)[k + 1], rp) by {
        if k < h.len() - 1 {
            assert(refl_seq(g)[k] == rh[k] && refl_seq(g)[k + 1] == rh[k + 1]);
        }
    }
    assert forall|i: int| 0 <= i < g.len() implies pts.contains(#[trigger] g[i]) by {
        if i < h.len() {
            assert(g[i] == h[i]);
        }
    }
    lemma_advance(refl(current), dx, dy, refl(p), rp);
}

/// The wrap closes when current -> first wraps in the mirror image: it is the
/// clockwise hull, or the segment that holds every point.
proof fn lemma_wrap_close(first: Point, current: Point, h: Seq<Point>, pts: Seq<Point>)
    requires
        is_leftmost(first, pts),
        mirrored_wrap(h, first, pts),
        current == h[h.len() - 1],
        wraps(refl(current), refl(first), refl_seq(pts)),
        current != first,
    ensures
        h.len() >= 2,
        distinct(h),
        drawn_from(h, pts),
        h.len() == 2 ==> spans(h[0], h[1], pts),
        h.len() >= 3 <==> !collinear_set(pts),
        h.len() >= 3 ==> is_cw_hull(h, pts),
{
    reveal(mirrored_wrap);
    let rp = refl_seq(pts);
    let rh = refl_seq(h);
    lemma_refl_seq(pts);
    lemma_refl_seq(h);
    lemma_refl_collinear(pts);
    lemma_start_in_front(first, pts);
    assert(rh[0] == refl(first));
    assert(rh[rh.len() - 1] == refl(current));
    assert(supports(rh[rh.len() - 1], rh[0], rp)) by {
        assert forall|j: int| 0 <= j < rp.len() implies cross(rh[rh.len() - 1], rh[0], #[trigger] rp[j]) >= 0 by {
            assert(wraps(refl(current), refl(first), rp));
        }
    }
    lemma_wrap_closed(rh, rp);
    if h.len() == 2 {
        let z: int = 0;
        assert(wraps(rh[z], rh[z + 1], rp));
        assert(rp.contains(rh[1]));
        lemma_wrap_segment(refl(first), rh[1], rp, 0x10_0000_0000, -1);
        assert(rh[1] == refl(h[1]));
        lemma_refl_spans(first, h[1], pts);
    }
}

/// The leftmost (then lowest) point is a vertex of every convex hull.
proof fn lemma_start_in_every_hull(first: Point, g: Seq<Point>, pts: Seq<Point>)
    requires
        is_leftmost(first, pts),
        is_convex_hull(g, pts),
    ensures
        g.contains(first),
{
    // l(x) = (x.y - first.y) + 2^36 (x.x - first.x) is positive at every other point
    assert forall|j: int| 0 <= j < pts.len() implies aff(1, -0x10_0000_0000, first.x as int, first.y as int, #[trigger] pts[j]) >= 0
        && (aff(1, -0x10_0000_0000, first.x as int, first.y as int, pts[j]) == 0 ==> pts[j] == first) by {
        let p = pts[j];
        assert(left_lower(first, p));
        let ddx = p.x - first.x;
        let ddy = p.y - first.y;
        assert(aff(1, -0x10_0000_0000, first.x as int, first.y as int, p) == ddy + 0x10_0000_0000 * ddx);
        assert(ddy + 0x10_0000_0000 * ddx >= 0 && (ddy + 0x10_0000_0000 * ddx == 0 ==> ddx == 0 && ddy == 0)) by (nonlinear_arith)
            requires
                ddx > 0 || (ddx == 0 && ddy >= 0),
                -0x1_0000_0000 <= ddy <= 0x1_0000_0000,
        ;
    }
    assert(aff(1, -0x10_0000_0000, first.x as int, first.y as int, first) == 0);
    lemma_extreme_in_hull(first, g, pts, 1, -0x10_0000_0000, first.x as int, first.y as int,
        1, -0x10_0000_0000, first.x as int, first.y as int);
}

/// A vertex w reached from c by a wrap of the mirrored points is a vertex of
/// every convex hull.
proof fn lemma_wrap_vertex_in_every_hull(c: Point, w: Point, g: Seq<Point>, pts: Seq<Point>)
    requires
        wraps(refl(c), refl(w), refl_seq(pts)),
        w != c,
        pts.contains(w),
        is_convex_hull(g, pts),
    ensures
        g.contains(w),
{
    lemma_refl_seq(pts);
    let rp = refl_seq(pts);
    let ux = w.x - c.x;
    let uy = w.y - c.y;
    let uu = dt(ux, uy, ux, uy);
    assert(uu > 0) by (nonlinear_arith)
        requires
            uu == ux * ux + uy * uy,
            ux != 0 || uy != 0,
    ;
    assert forall|j: int| 0 <= j < pts.len() implies aff(c.x - w.x, c.y - w.y, w.x as int, w.y as int, #[trigger] pts[j]) >= 0
        && (pts[j] != w && aff(c.x - w.x, c.y - w.y, w.x as int, w.y as int, pts[j]) == 0
            ==> aff(uy, -ux, c.x as int, c.y as int, pts[j]) < aff(uy, -ux, c.x as int, c.y as int, w)) by {
        let x = pts[j];
        assert(wraps(refl(c), refl(w), rp));
        assert(rp[j] == refl(x));
        lemma_refl(c, w, x);
        lemma_refl(c, x, x);
        lemma_refl(c, w, w);
        crate::hull::lemma_cross_is_aff(w, c, x);
        lemma_cross_symmetries(c, w, x);
        if x != w && cross(w, c, x) == 0 {
            // on the line through c and w, no farther from c than w, and not w
            let vx = x.x - c.x;
            let vy = x.y - c.y;
            let uv = dt(ux, uy, vx, vy);
            let vv = dt(vx, vy, vx, vy);
            assert(dist_sq(c, x) <= dist_sq(c, w));
            lemma_vector_facts(c, x, x);
            lemma_vector_facts(c, w, w);
            assert(vv <= uu);
            lemma_lagrange(ux, uy, vx, vy);
            assert(cr(ux, uy, vx, vy) == 0);
            assert(aff(uy, -ux, c.x as int, c.y as int, x) == uv) by (nonlinear_arith)
                requires
                    uv == ux * vx + uy * vy,
                    vx == x.x - c.x,
                    vy == x.y - c.y,
            ;
            assert(aff(uy, -ux, c.x as int, c.y as int, w) == uu) by (nonlinear_arith)
                requires
                    uu == ux * ux + uy * uy,
                    ux == w.x - c.x,
                    uy == w.y - c.y,
            ;
            assert(uv < uu) by {
                assert(uv <= uu) by (nonlinear_arith)
                    requires
                        uv * uv + 0 * 0 == uu * vv,
                        vv <= uu,
                        uu > 0,
                ;
                if uv == uu {
                    assert(cr(ux, uy, vx - ux, vy - uy) == 0) by (nonlinear_arith)
                        requires
                            ux * vy - uy * vx == 0,
                    ;
                    assert(dt(ux, uy, vx - ux, vy - uy) == 0) by (nonlinear_arith)
                        requires
                            ux * vx + uy * vy == ux * ux + uy * uy,
                    ;
                    lemma_zero_vector(ux, uy, vx - ux, vy - uy);
                }
            }
        }
    }
    crate::hull::lemma_cross_is_aff(w, c, w);
    lemma_cross_symmetries(w, c, w);
    lemma_extreme_in_hull(w, g, pts, c.x - w.x, c.y - w.y, w.x as int, w.y as int, uy, -ux, c.x as int, c.y as int);
}

/// One round of Chan's algorithm with candidate hull size `m`, wrapping
/// clockwise from the leftmost (then lowest) point: `None` when the wrap has
/// not closed after `m` steps.
fn chans_with_h(points: &[Point], m: usize) -> (result: Option<Vec<Point>>)
    requires
        points@.len() >= 1,
        m >= 1,
    ensures
        // with room for every point the wrap always closes
        result is None ==> m < points@.len(),
        // it fails to close only when the hull has more than m vertices
        result is None ==> forall|g: Seq<Point>| is_convex_hull(g, points@) ==> g.len() > m,
        result is None && collinear_set(points@) ==> m == 1,
        result is None ==> exists|j: int| 0 <= j < points@.len() && #[trigger] points@[j] != points@[0],
        result matches Some(h) ==> {
            &&& 1 <= h@.len() <= m
            &&& is_leftmost(h@[0], points@)
            &&& drawn_from(h@, points@)
            &&& distinct(h@)
            &&& h@.len() == 1 ==> forall|j: int| 0 <= j < points@.len() ==> #[trigger] points@[j] == h@[0]
            &&& h@.len() == 2 ==> spans(h@[0], h@[1], points@)
            &&& h@.len() >= 3 <==> !collinear_set(points@)
            &&& h@.len() >= 3 ==> is_cw_hull(h@, points@)
        },
{
    let ghost pts = points@;
    let ghost rp = refl_seq(pts);
    let sub_hulls = group_hulls(points, m);
    let first = leftmost_point(points);
    let mut hull: Vec<Point> = Vec::new();
    hull.push(first);
    let ghost mut dx: int = 0x10_0000_0000;
    let ghost mut dy: int = -1;
    let mut step: usize = 0;
    proof {
        lemma_refl_seq(pts);
        lemma_wrap_start(first, pts);
        assert(hull@ =~= seq![first]);
    }
    while step < m
        invariant
            pts == points@,
            rp == refl_seq(pts),
            forall|j: int| 0 <= j < pts.len() ==> #[trigger] rp[j] == refl(pts[j]),
            hulls_from(sub_hulls@, pts),
            hulls_enclose(sub_hulls@, pts, pts.len() as int),
            is_leftmost(first, pts),
            hull@.len() == step + 1,
            step <= m,
            mirrored_wrap(hull@, first, pts),
            all_in_front(refl(hull@[hull@.len() - 1]), dx, dy, rp),
        decreases m - step,
    {
        proof {
            reveal(mirrored_wrap);
        }
        assert(hull@[0] == first);
        let current = hull[hull.len() - 1];
        let mut best: Option<Point> = None;
        let num = sub_hulls.len();
        for g in 0..num
            invariant
                num == sub_hulls@.len(),
                pts == points@,
                rp == refl_seq(pts),
                forall|j: int| 0 <= j < pts.len() ==> #[trigger] rp[j] == refl(pts[j]),
                hulls_from(sub_hulls@, pts),
                all_in_front(refl(current), dx, dy, rp),
                best matches Some(b) ==> b != current && pts.contains(b) && beats_hulls(current, b, sub_hulls@, g as int),
                best is None ==> forall|g2: int, k: int| 0 <= g2 < g && 0 <= k < (#[trigger] sub_hulls@[g2])@.len()
                    ==> #[trigger] sub_hulls@[g2]@[k] == current,
        {
            let sub_hull = &sub_hulls[g];
            if sub_hull.len() > 0 {
                proof {
                    assert(drawn_from(sub_hull@, pts));
                    lemma_refl_seq(sub_hull@);
                    assert forall|k: int| 0 <= k < sub_hull@.len() implies in_front(refl(current), dx, dy, #[trigger] refl_seq(sub_hull@)[k]) by {
                        let i = choose|i: int| 0 <= i < pts.len() && pts[i] == sub_hull@[k];
                        assert(in_front(refl(current), dx, dy, rp[i]));
                    }
                }
                let candidate = find_tangent(sub_hull, current, Ghost(dx), Ghost(dy));
                proof {
                    let j = choose|j: int| 0 <= j < sub_hull@.len() && sub_hull@[j] == candidate;
                    assert(pts.contains(sub_hull@[j]));
                }
                let ghost old_best = best;
                match best {
                    Some(b) => {
                        match current.orientation(&b, &candidate) {
                            Orientation::CounterClockwise => {
                                best = Some(candidate);
                            }
                            Orientation::Collinear => {
                                // take the farther one
                                if current.dist_sq(&candidate) > current.dist_sq(&b) {
                                    best = Some(candidate);
                                }
                            }
                            Orientation::Clockwise => {}
                        }
                    }
                    None => {
                        if current != candidate {
                            best = Some(candidate);
                        }
                    }
                }
                proof {
                    lemma_merge_step(current, dx, dy, old_best, candidate, best, sub_hulls@, g as int, pts);
                }
            } else {
                proof {
                    assert(sub_hull@.len() >= 1);
                }
            }
        }
        match best {
            Some(p) => {
                proof {
                    lemma_lift_wraps(current, dx, dy, p, sub_hulls@, pts);
                }
                if p == first {
                    // wrapped around
                    proof {
                        lemma_wrap_close(first, current, hull@, pts);
                    }
                    return Some(hull);
                }
                let ghost before = hull@;
                proof {
                    lemma_wrap_extend(first, current, p, dx, dy, before, pts);
                    dx = refl(p).x - refl(current).x;
                    dy = refl(p).y - refl(current).y;
                }
                hull.push(p);
                proof {
                    assert(hull@ == before.push(p));
                }
            }
            None => {
                proof {
                    lemma_lift_same(current, sub_hulls@, pts);
                    let kf = choose|k: int| 0 <= k < pts.len() && pts[k] == first;
                    assert(pts[kf] == current);
                    assert(hull@.len() == 1) by {
                        if hull@.len() > 1 {
                            assert(hull@[hull@.len() - 1] != hull@[0]);
                        }
                    }
                    assert(pts.len() > 0 && pts[0] == first);
                    lemma_same_collinear(pts);
                }
                return Some(hull);
            }
        }
        step = step + 1;
    }
    // the wrap did not close in m steps: the hull has more than m vertices
    proof {
        reveal(mirrored_wrap);
        lemma_distinct_len(hull@, pts);
        lemma_refl_seq(hull@);
        let rh = refl_seq(hull@);
        assert forall|g: Seq<Point>| is_convex_hull(g, pts) implies g.len() > m by {
            assert forall|k: int| 0 <= k < hull@.len() implies g.contains(#[trigger] hull@[k]) by {
                if k == 0 {
                    lemma_start_in_every_hull(first, g, pts);
                } else {
                    let k0 = k - 1;
                    assert(wraps(rh[k0], rh[k0 + 1], rp));
                    assert(rh[k0] == refl(hull@[k0]) && rh[k0 + 1] == refl(hull@[k]));
                    assert(hull@[k0] != hull@[k]);
                    assert(pts.contains(hull@[k]));
                    lemma_wrap_vertex_in_every_hull(hull@[k0], hull@[k], g, pts);
                }
            }
            lemma_distinct_len(hull@, g);
        }
        // two distinct points of the wrap: the points are not all one point
        assert(hull@[0] != hull@[1]);
        assert(pts.contains(hull@[0]) && pts.contains(hull@[1]));
        let j0 = choose|j: int| 0 <= j < pts.len() && pts[j] == hull@[0];
        let j1 = choose|j: int| 0 <= j < pts.len() && pts[j] == hull@[1];
        assert(pts[j0] != pts[0] || pts[j1] != pts[0]);
        assert(exists|j: int| 0 <= j < pts.len() && #[trigger] pts[j] != pts[0]) by {
            if pts[j0] != pts[0] {
                assert(pts[j0] != pts[0]);
            } else {
                assert(pts[j1] != pts[0]);
            }
        }
        if collinear_set(pts) && m >= 2 {
            // three wrap vertices turn strictly, so the points are not on one line
            lemma_refl_collinear(pts);
            let z: int = 0;
            assert(cross(refl(first), rh[1], rh[2]) > 0);
            assert(rh[0] == refl(first));
            assert(rp.contains(rh[0]) && rp.contains(rh[1]) && rp.contains(rh[2]));
            let i0 = choose|i: int| 0 <= i < rp.len() && rp[i] == rh[0];
            let i1 = choose|i: int| 0 <= i < rp.len() && rp[i] == rh[1];
            let i2 = choose|i: int| 0 <= i < rp.len() && rp[i] == rh[2];
            assert(cross(rp[i0], rp[i1], rp[i2]) > 0);
        }
    }
    None
}

/// Merging the tangent point of one more group hull into the best candidate.
proof fn lemma_merge_step(c: Point, dx: int, dy: int, old_best: Option<Point>, cand: Point, best: Option<Point>, subs: Seq<Vec<Point>>, g: int, pts: Seq<Point>)
    requires
        0 <= g < subs.len(),
        hulls_from(subs, pts),
        all_in_front(refl(c), dx, dy, refl_seq(pts)),
        pts.contains(cand),
        subs[g]@.contains(cand),
        cand != c ==> forall|k: int| 0 <= k < subs[g]@.len() ==> cross(c, cand, #[trigger] subs[g]@[k]) <= 0
            && (cross(c, cand, subs[g]@[k]) == 0 ==> dist_sq(c, subs[g]@[k]) <= dist_sq(c, cand)),
        cand == c ==> forall|k: int| 0 <= k < subs[g]@.len() ==> #[trigger] subs[g]@[k] == c,
        old_best matches Some(b) ==> b != c && pts.contains(b) && beats_hulls(c, b, subs, g),
        old_best is None ==> forall|g2: int, k: int| 0 <= g2 < g && 0 <= k < (#[trigger] subs[g2])@.len() ==> #[trigger] subs[g2]@[k] == c,
        best == (match old_best {
            Some(b) => if cross(c, b, cand) > 0 || (cross(c, b, cand) == 0 && dist_sq(c, cand) > dist_sq(c, b)) {
                Some(cand)
            } else {
                old_best
            },
            None => if c != cand { Some(cand) } else { None },
        }),
    ensures
        best matches Some(b) ==> b != c && pts.contains(b) && beats_hulls(c, b, subs, g + 1),
        best is None ==> forall|g2: int, k: int| 0 <= g2 < g + 1 && 0 <= k < (#[trigger] subs[g2])@.len() ==> #[trigger] subs[g2]@[k] == c,
{
    lemma_refl_seq(pts);
    let rp = refl_seq(pts);
    let kc = choose|k: int| 0 <= k < pts.len() && pts[k] == cand;
    assert(in_front(refl(c), dx, dy, rp[kc]));
    lemma_vector_facts(c, cand, cand);
    lemma_vector_facts(c, cand, c);
    lemma_refl(c, cand, cand);
    match old_best {
        Some(b) => {
            let kb = choose|k: int| 0 <= k < pts.len() && pts[k] == b;
            assert(in_front(refl(c), dx, dy, rp[kb]));
            lemma_vector_facts(c, b, cand);
            lemma_vector_facts(c, cand, b);
            lemma_refl(c, b, cand);
            lemma_refl(c, b, b);
            let nb = best.unwrap();
            assert forall|g2: int, k: int| 0 <= g2 < g + 1 && 0 <= k < (#[trigger] subs[g2])@.len() implies
                cross(c, nb, #[trigger] subs[g2]@[k]) <= 0
                && (cross(c, nb, subs[g2]@[k]) == 0 ==> dist_sq(c, subs[g2]@[k]) <= dist_sq(c, nb)) by {
                let w = subs[g2]@[k];
                assert(drawn_from(subs[g2]@, pts));
                let kw = choose|i: int| 0 <= i < pts.len() && pts[i] == w;
                assert(in_front(refl(c), dx, dy, rp[kw]));
                lemma_vector_facts(c, nb, w);
                lemma_vector_facts(c, w, nb);
                lemma_vector_facts(c, b, w);
                lemma_vector_facts(c, cand, w);
                lemma_refl(c, nb, w);
                lemma_refl(c, b, w);
                lemma_refl(c, cand, w);
                lemma_refl(c, w, w);
                if cross(c, b, cand) > 0 || (cross(c, b, cand) == 0 && dist_sq(c, cand) > dist_sq(c, b)) {
                    assert(nb == cand);
                    if g2 < g {
                        if cross(c, b, cand) > 0 {
                            lemma_cw_replace(refl(c), dx, dy, refl(b), refl(cand), refl(w));
                        } else {
                            lemma_far_replace(refl(c), dx, dy, refl(b), refl(cand), refl(w));
                        }
                    }
                } else {
                    // the candidate of this group is no better than b
                    assert(nb == b);
                    if g2 == g {
                        if cand == c {
                            assert(w == c);
                        } else if w != c {
                            lemma_fan_at(refl(c), dx, dy, refl(b), refl(cand), refl(w));
                        }
                    }
                }
            }
        }
        None => {
            if c != cand {
                assert forall|g2: int, k: int| 0 <= g2 < g + 1 && 0 <= k < (#[trigger] subs[g2])@.len() implies
                    cross(c, cand, #[trigger] subs[g2]@[k]) <= 0
                    && (cross(c, cand, subs[g2]@[k]) == 0 ==> dist_sq(c, subs[g2]@[k]) <= dist_sq(c, cand)) by {
                    let w = subs[g2]@[k];
                    if g2 < g {
                        assert(w == c);
                        lemma_vector_facts(c, cand, w);
                    }
                }
            }
        }
    }
}

/// Pushing the next vertex of the wrap keeps the vertices distinct and turning
/// counter-clockwise around the start.
proof fn lemma_wrap_push(first: Point, c: Point, p: Point, dx: int, dy: int, h: Seq<Point>, pts: Seq<Point>, sx: int, sy: int)
    requires
        h.len() >= 1,
        h[0] == first,
        c == h[h.len() - 1],
        p != c,
        p != first,
        pts.contains(p),
        pts.contains(first),
        drawn_from(h, pts),
        distinct(h),
        all_in_front(c, dx, dy, pts),
        forall|j: int| 0 <= j < pts.len() ==> in_front(first, sx, sy, #[trigger] pts[j]),
        wraps(c, p, pts),
        forall|a: int, b: int| 1 <= a < b < h.len() ==> cross(first, #[trigger] h[a], #[trigger] h[b]) > 0,
    ensures
        distinct(h.push(p)),
        drawn_from(h.push(p), pts),
        forall|a: int, b: int| 1 <= a < b < h.len() + 1 ==> cross(first, #[trigger] h.push(p)[a], #[trigger] h.push(p)[b]) > 0,
{
    let g = h.push(p);
    let kp = choose|k: int| 0 <= k < pts.len() && pts[k] == p;
    let kf = choose|k: int| 0 <= k < pts.len() && pts[k] == first;
    assert(in_front(first, sx, sy, pts[kp]));
    assert(in_front(c, dx, dy, pts[kp]));
    assert(in_front(c, dx, dy, pts[kf]));
    if h.len() >= 2 {
        assert(c != first) by {
            assert(h[h.len() - 1] != h[0]);
        }
        let kc = choose|k: int| 0 <= k < pts.len() && pts[k] == c;
        assert(in_front(first, sx, sy, pts[kc]));
        assert(cross(c, p, pts[kf]) >= 0);
        lemma_turn(first, c, p, dx, dy, sx, sy);
        assert forall|a: int| 1 <= a < h.len() implies cross(first, #[trigger] h[a], p) > 0 by {
            if a < h.len() - 1 {
                let ka = choose|k: int| 0 <= k < pts.len() && pts[k] == h[a];
                assert(in_front(first, sx, sy, pts[ka]));
                assert(h[a] != first) by {
                    assert(h[a] != h[0]);
                }
                lemma_fan_at(first, sx, sy, h[a], c, p);
            }
        }
    }
    assert forall|a: int, b: int| 1 <= a < b < g.len() implies cross(first, #[trigger] g[a], #[trigger] g[b]) > 0 by {
        if b < h.len() {
            assert(g[a] == h[a] && g[b] == h[b]);
        } else {
            assert(g[a] == h[a]);
        }
    }
    assert forall|a: int, b: int| 0 <= a < b < g.len() implies #[trigger] g[a] != #[trigger] g[b] by {
        if b < h.len() {
            assert(g[a] == h[a] && g[b] == h[b]);
        } else if a == 0 {
        } else {
            assert(cross(first, g[a], p) > 0);
            lemma_vector_facts(first, p, p);
        }
    }
    assert forall|i: int| 0 <= i < g.len() implies pts.contains(#[trigger] g[i]) by {
        if i < h.len() {
            assert(g[i] == h[i]);
        }
    }
}

/// Compute the convex hull with Chan's algorithm.
///
/// Tries candidate hull sizes 2, 4, 8, ..., capped at the number of points,
/// until the wrap closes; it always does by then. Returns the hull vertices
/// in clockwise order from the leftmost (then lowest) point. With fewer than
/// three points the input is returned unchanged.
pub fn chans_algorithm(points: &[Point]) -> (hull: Vec<Point>)
    ensures
        points@.len() < 3 ==> hull@ == points@,
        // the outline of the points: the vertices of their hull, or of what they reduce to
        points@.len() >= 3 ==> outlines(hull@, points@),
        points@.len() >= 3 ==> {
            &&& hull@.len() >= 1
            &&& drawn_from(hull@, points@)
            &&& distinct(hull@)
            &&& is_leftmost(hull@[0], points@)
            // three or more vertices exactly when the points are not all on one line,
            // and then a convex hull traversed clockwise
            &&& hull@.len() >= 3 <==> !collinear_set(points@)
            &&& hull@.len() >= 3 ==> is_cw_hull(hull@, points@)
            // otherwise one point that all points equal, or the segment that holds them
            &&& hull@.len() == 1 ==> forall|j: int| 0 <= j < points@.len() ==> #[trigger] points@[j] == hull@[0]
            &&& hull@.len() == 2 ==> spans(hull@[0], hull@[1], points@)
        },
{
    if points.len() < 3 {
        return copy_points(points);
    }
    let n = points.len();
    let mut h: usize = 2;
    loop
        invariant
            n == points@.len(),
            n >= 3,
            2 <= h <= n,
        decreases n - h,
    {
        let m = if h < n { h } else { n };
        let result = chans_with_h(points, m);
        if let Some(hull) = result {
            return hull;
        }
        if h >= n {
            // every larger candidate size is cut down to n again; a round with
            // room for every point always closes the wrap, so this safety net
            // is never reached
            let hull = graham_scan(points);
            return hull;
        }
        h = if h > n / 2 { n } else { h * 2 };
    }
}

} // verus!
