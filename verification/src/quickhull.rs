//! Quickhull.
//!
//! Divide and conquer: the leftmost and rightmost points split the set into the
//! points below and above the line through them; each side is handled by
//! finding its point farthest from the line and recursing on the points
//! outside the triangle it spans. Expected O(n log n), worst case O(n^2).

use vstd::prelude::*;
use crate::point::{Point, Orientation, cross};
use crate::jarvis::is_leftmost;
use crate::hull::{
    drawn_from, outlines, distinct, supports, copy_points, corner, corner_witness, in_triangle, lemma_cross_symmetries,
    left_lower, ccw_chain, lemma_turns_corners, lemma_same_collinear,
    lemma_weights_sum, lemma_corner_positive, lemma_corner_not_in_triangle, collinear_set, spans, on_segment,
    lemma_on_line_collinear, lemma_collinear_multiple,
};
use crate::geometry::{cr, dt, lemma_cross_identity, lemma_lagrange, lemma_zero_vector};
use vstd::arithmetic::mul::{
    lemma_mul_is_associative, lemma_mul_is_commutative, lemma_mul_is_distributive_sub, lemma_mul_unary_negation,
};

verus! {

/// `p` is a point of `pts`, and no point of `pts` is to its right, or as far
/// right and higher.
pub open spec fn is_rightmost(p: Point, pts: Seq<Point>) -> bool {
    &&& pts.contains(p)
    &&& forall|i: int| 0 <= i < pts.len() ==> left_lower(#[trigger] pts[i], p)
}

/// `p` is a point of `pts` with the least x-coordinate that is the lowest or
/// the highest of the points with that x-coordinate: an end of the left side.
pub open spec fn is_left_end(p: Point, pts: Seq<Point>) -> bool {
    &&& pts.contains(p)
    &&& forall|i: int| 0 <= i < pts.len() ==> p.x <= #[trigger] pts[i].x
    &&& {
        ||| forall|i: int| 0 <= i < pts.len() && #[trigger] pts[i].x == p.x ==> p.y <= pts[i].y
        ||| forall|i: int| 0 <= i < pts.len() && #[trigger] pts[i].x == p.x ==> pts[i].y <= p.y
    }
}

/// `pts[i]` is the first point, in the order of `pts`, that ends the left side.
pub open spec fn first_left_end(pts: Seq<Point>, i: int) -> bool {
    &&& 0 <= i < pts.len()
    &&& is_left_end(pts[i], pts)
    &&& forall|j: int| 0 <= j < i ==> !is_left_end(#[trigger] pts[j], pts)
}

/// Every point of `s` lies strictly on the right of the directed line a -> b.
pub open spec fn all_right_of(a: Point, b: Point, s: Seq<Point>) -> bool {
    forall|k: int| 0 <= k < s.len() ==> cross(a, b, #[trigger] s[k]) < 0
}

proof fn lemma_shift_parts(ex: int, ey: int, qx: int, qy: int, x: int, y: int)
    ensures
        (ex * qy - ey * qx) * y == (ex * y - ey * x) * qy - (qx * y - qy * x) * ey,
        (ex * qy - ey * qx) * x == (ex * y - ey * x) * qx - (qx * y - qy * x) * ex,
{
    lemma_cross_identity(1, 0, ex, ey, qx, qy, x, y);
    lemma_cross_identity(0, -1, ex, ey, qx, qy, x, y);
    assert(cr(1, 0, x, y) == y && cr(1, 0, ex, ey) == ey && cr(1, 0, qx, qy) == qy);
    assert(cr(0, -1, x, y) == x && cr(0, -1, ex, ey) == ex && cr(0, -1, qx, qy) == qx);
    let l = ex * y - ey * x;
    lemma_mul_is_commutative(x, ey);
    lemma_mul_is_commutative(y, ex);
    assert(cr(x, y, ex, ey) == -l);
    lemma_mul_unary_negation(l, qy);
    lemma_mul_unary_negation(l, qx);
}

proof fn lemma_distribute(l: int, g: int, a: int, b: int, qx: int, qy: int, ex: int, ey: int)
    ensures
        l * (a * qy - b * qx) - g * (a * ey - b * ex) == a * (l * qy - g * ey) - b * (l * qx - g * ex),
{
    lemma_mul_is_distributive_sub(l, a * qy, b * qx);
    lemma_mul_is_distributive_sub(g, a * ey, b * ex);
    lemma_mul_is_distributive_sub(a, l * qy, g * ey);
    lemma_mul_is_distributive_sub(b, l * qx, g * ex);
    lemma_swap3(l, a, qy);
    lemma_swap3(l, b, qx);
    lemma_swap3(g, a, ey);
    lemma_swap3(g, b, ex);
}

proof fn lemma_swap3(x: int, y: int, z: int)
    ensures
        x * (y * z) == y * (x * z),
{
    lemma_mul_is_associative(x, y, z);
    lemma_mul_is_associative(y, x, z);
    lemma_mul_is_commutative(x, y);
}

proof fn lemma_affine_parts(a: int, b: int, ux: int, uy: int, x: int, y: int)
    ensures
        a * (y - uy) - b * (x - ux) == a * y - b * x + (b * ux - a * uy),
{
    assert(a * (y - uy) - b * (x - ux) == a * y - b * x + (b * ux - a * uy)) by (nonlinear_arith);
}

/// Moving a point across the plane changes the cross product of an edge in
/// proportion: with P taken as origin, l(x) = cr(E, x) and g(x) = cross(P, Q, x),
/// l(Q) f(q) = (l(Q) - l(q)) f(P) + l(q) f(Q) - g(q) cr(v - u, E)
/// for f(x) = cross(u, v, x).
proof fn lemma_shift_identity(ex: int, ey: int, qx: int, qy: int, x: int, y: int, ux: int, uy: int, vx: int, vy: int)
    ensures
        (ex * qy - ey * qx) * ((vx - ux) * (y - uy) - (vy - uy) * (x - ux))
            == ((ex * qy - ey * qx) - (ex * y - ey * x)) * ((vx - ux) * (0 - uy) - (vy - uy) * (0 - ux))
            + (ex * y - ey * x) * ((vx - ux) * (qy - uy) - (vy - uy) * (qx - ux))
            - (qx * y - qy * x) * ((vx - ux) * ey - (vy - uy) * ex),
{
    let a = vx - ux;
    let b = vy - uy;
    let c0 = b * ux - a * uy;
    let l = ex * y - ey * x;
    let lq = ex * qy - ey * qx;
    let g = qx * y - qy * x;
    let k = a * ey - b * ex;
    lemma_shift_parts(ex, ey, qx, qy, x, y);
    lemma_affine_parts(a, b, ux, uy, x, y);
    lemma_affine_parts(a, b, ux, uy, 0, 0);
    lemma_affine_parts(a, b, ux, uy, qx, qy);
    lemma_distribute(l, g, a, b, qx, qy, ex, ey);
    lemma_distribute(lq, 0, a, b, x, y, 0, 0);
    let fa = a * y - b * x;
    let fb = a * qy - b * qx;
    assert(lq * fa == l * fb - g * k);
    assert(lq * (fa + c0) == (lq - l) * c0 + l * (fb + c0) - g * k) by (nonlinear_arith)
        requires
            lq * fa == l * fb - g * k,
    ;
}

/// The position of `x` along the direction normal to (ex, ey), measured from
/// `p`: the cross product of (ex, ey) with x - p.
pub open spec fn level(ex: int, ey: int, p: Point, x: Point) -> int {
    cr(ex, ey, x.x - p.x, x.y - p.y)
}

/// `t` lies between 0 and `end`, both included.
pub open spec fn between(t: int, end: int) -> bool {
    (0 <= t <= end) || (end <= t <= 0)
}

/// The shift identity for points: `l` levels along (ex, ey) from `p`.
proof fn lemma_shift_points(p: Point, q: Point, ex: int, ey: int, u: Point, v: Point, z: Point)
    ensures
        level(ex, ey, p, q) * cross(u, v, z) == (level(ex, ey, p, q) - level(ex, ey, p, z)) * cross(u, v, p)
            + level(ex, ey, p, z) * cross(u, v, q) - cross(p, q, z) * cr(v.x - u.x, v.y - u.y, ex, ey),
{
    let qx = q.x - p.x;
    let qy = q.y - p.y;
    let x = z.x - p.x;
    let y = z.y - p.y;
    let ux = u.x - p.x;
    let uy = u.y - p.y;
    let vx = v.x - p.x;
    let vy = v.y - p.y;
    lemma_shift_identity(ex, ey, qx, qy, x, y, ux, uy, vx, vy);
    assert(vx - ux == v.x - u.x);
    assert(vy - uy == v.y - u.y);
    assert(y - uy == z.y - u.y);
    assert(x - ux == z.x - u.x);
    assert(0 - uy == p.y - u.y);
    assert(0 - ux == p.x - u.x);
    assert(qy - uy == q.y - u.y);
    assert(qx - ux == q.x - u.x);
    assert(qx * y - qy * x == cross(p, q, z));
}

/// A chain edge u -> v that has both ends p and q of its chain on its left
/// also has on its left every point z on the other side of the chord p -> q,
/// when the chain is spread out between p and q along a direction (ex, ey)
/// and z lies within that spread: u is p or lies on the right of the chord.
proof fn lemma_beyond_chain(p: Point, q: Point, ex: int, ey: int, u: Point, v: Point, z: Point)
    requires
        level(ex, ey, p, q) != 0,
        cross(u, v, p) >= 0,
        cross(u, v, q) >= 0,
        u == p || (cross(p, q, u) < 0 && between(level(ex, ey, p, u), level(ex, ey, p, q))),
        between(level(ex, ey, p, v), level(ex, ey, p, q)),
        cross(p, q, z) >= 0,
        between(level(ex, ey, p, z), level(ex, ey, p, q)),
    ensures
        cross(u, v, z) >= 0,
{
    let big = level(ex, ey, p, q);
    let lz = level(ex, ey, p, z);
    let lu = level(ex, ey, p, u);
    let fp = cross(u, v, p);
    let fq = cross(u, v, q);
    let fz = cross(u, v, z);
    let k = cr(v.x - u.x, v.y - u.y, ex, ey);
    lemma_shift_points(p, q, ex, ey, u, v, z);
    lemma_shift_points(p, q, ex, ey, u, v, u);
    assert(cross(u, v, u) == 0) by (nonlinear_arith);
    let gz = cross(p, q, z);
    let gu = cross(p, q, u);
    // along the chain the level moves away from p: k has the sign opposite to big
    if u == p {
        assert(level(ex, ey, p, v) == -k) by (nonlinear_arith)
            requires
                u == p,
                k == (v.x - u.x) * ey - (v.y - u.y) * ex,
        ;
    } else {
        assert(big * 0 == (big - lu) * fp + lu * fq - gu * k);
    }
    assert(big * fz >= 0 || big * fz <= 0);
    if big > 0 {
        assert(k <= 0) by (nonlinear_arith)
            requires
                u == p ==> level(ex, ey, p, v) == -k,
                u == p ==> 0 <= level(ex, ey, p, v),
                u != p ==> 0 == (big - lu) * fp + lu * fq - gu * k,
                u != p ==> gu < 0 && 0 <= lu <= big,
                fp >= 0,
                fq >= 0,
        ;
        assert(fz >= 0) by (nonlinear_arith)
            requires
                big * fz == (big - lz) * fp + lz * fq - gz * k,
                big > 0,
                0 <= lz <= big,
                fp >= 0,
                fq >= 0,
                gz >= 0,
                k <= 0,
        ;
    } else {
        assert(k >= 0) by (nonlinear_arith)
            requires
                u == p ==> level(ex, ey, p, v) == -k,
                u == p ==> level(ex, ey, p, v) <= 0,
                u != p ==> 0 == (big - lu) * fp + lu * fq - gu * k,
                u != p ==> gu < 0 && big <= lu <= 0,
                fp >= 0,
                fq >= 0,
        ;
        assert(fz >= 0) by (nonlinear_arith)
            requires
                big * fz == (big - lz) * fp + lz * fq - gz * k,
                big < 0,
                big <= lz <= 0,
                fp >= 0,
                fq >= 0,
                gz >= 0,
                k >= 0,
        ;
    }
}

/// Every edge of the polyline `ext` has `z` on its left or on its line.
pub open spec fn edges_support(ext: Seq<Point>, z: Point) -> bool {
    forall|i: int| 0 <= i < ext.len() - 1 ==> #[trigger] cross(ext[i], ext[i + 1], z) >= 0
}

/// Joining two polylines at a shared point keeps the edges of both.
proof fn lemma_join_edges(e1: Seq<Point>, e2: Seq<Point>, z: Point)
    requires
        e1.len() >= 1,
        e2.len() >= 1,
        e1[e1.len() - 1] == e2[0],
        edges_support(e1, z),
        edges_support(e2, z),
    ensures
        edges_support(e1 + e2.subrange(1, e2.len() as int), z),
{
    let full = e1 + e2.subrange(1, e2.len() as int);
    let n1 = e1.len() as int;
    assert forall|i: int| 0 <= i < full.len() - 1 implies #[trigger] cross(full[i], full[i + 1], z) >= 0 by {
        if i + 1 < n1 {
            assert(full[i] == e1[i] && full[i + 1] == e1[i + 1]);
            assert(cross(e1[i], e1[i + 1], z) >= 0);
        } else {
            let k = i - n1 + 1;
            assert(full[i] == e2[k] && full[i + 1] == e2[k + 1]);
            assert(cross(e2[k], e2[k + 1], z) >= 0);
        }
    }
}

/// Every edge of a chain from p to q, whose inner points lie on the right of
/// the chord p -> q and are spread between p and q along (ex, ey), has on its
/// left each point z on the left of the chord within that spread, when it has
/// p and q there.
proof fn lemma_sub_chain(p: Point, q: Point, ex: int, ey: int, ext: Seq<Point>, z: Point)
    requires
        ext.len() >= 2,
        ext[0] == p,
        ext[ext.len() - 1] == q,
        level(ex, ey, p, q) != 0,
        edges_support(ext, p),
        edges_support(ext, q),
        forall|i: int| 0 < i < ext.len() - 1 ==> cross(p, q, #[trigger] ext[i]) < 0
            && between(level(ex, ey, p, ext[i]), level(ex, ey, p, q)),
        cross(p, q, z) >= 0,
        between(level(ex, ey, p, z), level(ex, ey, p, q)),
    ensures
        edges_support(ext, z),
{
    assert forall|i: int| 0 <= i < ext.len() - 1 implies #[trigger] cross(ext[i], ext[i + 1], z) >= 0 by {
        let u = ext[i];
        let v = ext[i + 1];
        assert(cross(ext[i], ext[i + 1], p) >= 0);
        assert(cross(ext[i], ext[i + 1], q) >= 0);
        if i + 1 < ext.len() - 1 {
            let j = i + 1;
            assert(cross(p, q, ext[j]) < 0);
        }
        lemma_beyond_chain(p, q, ex, ey, u, v, z);
    }
}

/// The level along b - a measured from c differs from the one measured from
/// a by a constant.
proof fn lemma_level_shift(a: Point, b: Point, c: Point, x: Point)
    ensures
        level(b.x - a.x, b.y - a.y, a, x) == cross(a, b, x),
        level(b.x - a.x, b.y - a.y, c, x) == cross(a, b, x) - cross(a, b, c),
{
    assert(level(b.x - a.x, b.y - a.y, c, x) == cross(a, b, x) - cross(a, b, c)) by (nonlinear_arith);
}

/// `z` lies between the line a -> b and the parallel line through `c`.
pub open spec fn in_zone(a: Point, b: Point, c: Point, z: Point) -> bool {
    cross(a, b, c) <= cross(a, b, z) <= 0
}

/// The chain from a to the farthest point c has on its left every point of
/// the zone on the left of a -> c.
proof fn lemma_zone_first(a: Point, b: Point, c: Point, left: Seq<Point>, s1: Seq<Point>, s: Seq<Point>, z: Point)
    requires
        cross(a, b, c) < 0,
        drawn_from(left, s1),
        drawn_from(s1, s),
        all_right_of(a, c, s1),
        forall|j: int| 0 <= j < s.len() ==> #[trigger] in_zone(a, b, c, s[j]),
        edges_support(seq![a] + left + seq![c], a),
        edges_support(seq![a] + left + seq![c], c),
        in_zone(a, b, c, z),
        cross(a, c, z) >= 0,
    ensures
        edges_support(seq![a] + left + seq![c], z),
{
    let ext = seq![a] + left + seq![c];
    let ex = b.x - a.x;
    let ey = b.y - a.y;
    lemma_level_shift(a, b, a, c);
    lemma_level_shift(a, b, a, z);
    assert forall|i: int| 0 < i < ext.len() - 1 implies cross(a, c, #[trigger] ext[i]) < 0
        && between(level(ex, ey, a, ext[i]), level(ex, ey, a, c)) by {
        let x = ext[i];
        assert(x == left[i - 1]);
        assert(s1.contains(left[i - 1]));
        let m = choose|m: int| 0 <= m < s1.len() && s1[m] == x;
        assert(cross(a, c, s1[m]) < 0);
        assert(s.contains(s1[m]));
        let j = choose|j: int| 0 <= j < s.len() && s[j] == x;
        assert(in_zone(a, b, c, s[j]));
        lemma_level_shift(a, b, a, x);
    }
    lemma_sub_chain(a, c, ex, ey, ext, z);
}

/// The chain from the farthest point c to b has on its left every point of
/// the zone on the left of c -> b.
proof fn lemma_zone_second(a: Point, b: Point, c: Point, right: Seq<Point>, s2: Seq<Point>, s: Seq<Point>, z: Point)
    requires
        cross(a, b, c) < 0,
        drawn_from(right, s2),
        drawn_from(s2, s),
        all_right_of(c, b, s2),
        forall|j: int| 0 <= j < s.len() ==> #[trigger] in_zone(a, b, c, s[j]),
        edges_support(seq![c] + right + seq![b], c),
        edges_support(seq![c] + right + seq![b], b),
        in_zone(a, b, c, z),
        cross(c, b, z) >= 0,
    ensures
        edges_support(seq![c] + right + seq![b], z),
{
    let ext = seq![c] + right + seq![b];
    let ex = b.x - a.x;
    let ey = b.y - a.y;
    lemma_level_shift(a, b, c, b);
    lemma_level_shift(a, b, c, z);
    assert(cross(a, b, b) == 0) by (nonlinear_arith);
    assert forall|i: int| 0 < i < ext.len() - 1 implies cross(c, b, #[trigger] ext[i]) < 0
        && between(level(ex, ey, c, ext[i]), level(ex, ey, c, b)) by {
        let x = ext[i];
        assert(x == right[i - 1]);
        assert(s2.contains(right[i - 1]));
        let m = choose|m: int| 0 <= m < s2.len() && s2[m] == x;
        assert(cross(c, b, s2[m]) < 0);
        assert(s.contains(s2[m]));
        let j = choose|j: int| 0 <= j < s.len() && s[j] == x;
        assert(in_zone(a, b, c, s[j]));
        lemma_level_shift(a, b, c, x);
    }
    lemma_sub_chain(c, b, ex, ey, ext, z);
}

/// One step of the recursion: the chains found on the right of a -> c and
/// of c -> b, joined at the farthest point c, have every point on their left.
proof fn lemma_split_support(s: Seq<Point>, a: Point, b: Point, c: Point, s1: Seq<Point>, s2: Seq<Point>, left: Seq<Point>, right: Seq<Point>)
    requires
        all_right_of(a, b, s),
        s.contains(c),
        forall|j: int| 0 <= j < s.len() ==> cross(a, b, c) <= cross(a, b, #[trigger] s[j]),
        drawn_from(left, s1),
        drawn_from(right, s2),
        drawn_from(s1, s),
        drawn_from(s2, s),
        all_right_of(a, c, s1),
        all_right_of(c, b, s2),
        forall|j: int| 0 <= j < s.len() && s[j] != c && cross(a, c, s[j]) < 0 ==> s1.contains(#[trigger] s[j]),
        forall|j: int| 0 <= j < s.len() && s[j] != c && cross(a, c, s[j]) >= 0 && cross(c, b, s[j]) < 0
            ==> s2.contains(#[trigger] s[j]),
        forall|j: int| 0 <= j < s1.len() ==> edges_support(seq![a] + left + seq![c], #[trigger] s1[j]),
        edges_support(seq![a] + left + seq![c], a),
        edges_support(seq![a] + left + seq![c], c),
        forall|j: int| 0 <= j < s2.len() ==> edges_support(seq![c] + right + seq![b], #[trigger] s2[j]),
        edges_support(seq![c] + right + seq![b], c),
        edges_support(seq![c] + right + seq![b], b),
    ensures
        forall|j: int| 0 <= j < s.len() ==> edges_support(seq![a] + (left + seq![c] + right) + seq![b], #[trigger] s[j]),
        edges_support(seq![a] + (left + seq![c] + right) + seq![b], a),
        edges_support(seq![a] + (left + seq![c] + right) + seq![b], b),
{
    let ext1 = seq![a] + left + seq![c];
    let ext2 = seq![c] + right + seq![b];
    let full = seq![a] + (left + seq![c] + right) + seq![b];
    assert(full =~= ext1 + ext2.subrange(1, ext2.len() as int));
    let kc = choose|k: int| 0 <= k < s.len() && s[k] == c;
    assert(cross(a, b, s[kc]) < 0);
    assert forall|j: int| 0 <= j < s.len() implies #[trigger] in_zone(a, b, c, s[j]) by {
        assert(cross(a, b, s[j]) < 0);
    }
    assert(cross(a, b, a) == 0 && cross(a, b, b) == 0) by (nonlinear_arith);
    lemma_cross_symmetries(a, c, b);
    lemma_cross_symmetries(c, b, a);
    // a and b lie on the far side of the other chain
    lemma_zone_first(a, b, c, left, s1, s, b);
    lemma_zone_second(a, b, c, right, s2, s, a);
    lemma_join_edges(ext1, ext2, a);
    lemma_join_edges(ext1, ext2, b);
    assert forall|j: int| 0 <= j < s.len() implies edges_support(full, #[trigger] s[j]) by {
        let z = s[j];
        assert(in_zone(a, b, c, z));
        if z == c {
        } else {
            if cross(a, c, z) < 0 {
                let m = choose|m: int| 0 <= m < s1.len() && s1[m] == z;
                assert(edges_support(ext1, s1[m]));
            } else {
                lemma_zone_first(a, b, c, left, s1, s, z);
            }
            if cross(c, b, z) < 0 {
                if cross(a, c, z) >= 0 {
                    let m = choose|m: int| 0 <= m < s2.len() && s2[m] == z;
                    assert(edges_support(ext2, s2[m]));
                } else {
                    // right of both a -> c and c -> b would put z beyond c
                    lemma_weights_sum(a, c, b, z);
                    lemma_cross_symmetries(a, b, z);
                    assert(false);
                }
            } else {
                lemma_zone_second(a, b, c, right, s2, s, z);
            }
        }
        lemma_join_edges(ext1, ext2, z);
    }
}

/// How far `p` lies on the right of the line a -> b: the distance to the line
/// scaled by the length of a -> b (twice the area of the triangle a, b, p).
fn right_offset(p: &Point, a: &Point, b: &Point) -> (d: i128)
    ensures
        d == -cross(*a, *b, *p),
{
    let c = a.cross(b, p);
    proof {
        crate::point::lemma_cross_bounds(*a, *b, *p);
    }
    -c
}

/// How far `p` lies along the direction from a to b, scaled by |b - a|.
fn along_offset(p: &Point, a: &Point, b: &Point) -> (t: i128)
    ensures
        t == along(*a, *b, *p),
{
    let bx = b.x as i128 - a.x as i128;
    let by = b.y as i128 - a.y as i128;
    let px = p.x as i128 - a.x as i128;
    let py = p.y as i128 - a.y as i128;
    proof {
        crate::point::lemma_mul_bound(bx as int, px as int);
        crate::point::lemma_mul_bound(by as int, py as int);
    }
    bx * px + by * py
}

/// Hull points on the right of a -> b among `points`, in order from `a` to `b`.
fn find_hull(points: &Vec<Point>, a: Point, b: Point, Ghost(all): Ghost<Seq<Point>>) -> (chain: Vec<Point>)
    requires
        all_right_of(a, b, points@),
        drawn_from(points@, all),
        all.contains(a),
        all.contains(b),
    ensures
        // every corner of the whole point set among these points is kept
        forall|j: int| 0 <= j < points@.len() && corner(points@[j], all) ==> chain@.contains(#[trigger] points@[j]),
        points@.len() > 0 ==> chain@.len() > 0,
        drawn_from(chain@, points@),
        distinct(chain@),
        // a, the chain and b form a polyline with every point on the left of each edge
        forall|j: int| 0 <= j < points@.len() ==> edges_support(seq![a] + chain@ + seq![b], #[trigger] points@[j]),
        edges_support(seq![a] + chain@ + seq![b], a),
        edges_support(seq![a] + chain@ + seq![b], b),
        // and turning strictly left at every point of the chain
        turns_left(seq![a] + chain@ + seq![b]),
    decreases points@.len(),
{
    if points.len() == 0 {
        proof {
            let ext = seq![a] + Seq::<Point>::empty() + seq![b];
            assert(turns_left(ext));
            assert(cross(a, b, a) == 0 && cross(a, b, b) == 0) by (nonlinear_arith);
            assert(ext =~= seq![a, b]);
            assert(edges_support(ext, a)) by {
                assert forall|i: int| 0 <= i < ext.len() - 1 implies #[trigger] cross(ext[i], ext[i + 1], a) >= 0 by {
                    assert(i == 0);
                }
            }
            assert(edges_support(ext, b)) by {
                assert forall|i: int| 0 <= i < ext.len() - 1 implies #[trigger] cross(ext[i], ext[i + 1], b) >= 0 by {
                    assert(i == 0);
                }
            }
        }
        return Vec::new();
    }
    let n = points.len();
    // the farthest point from the line; on a tie, the one farthest towards b,
    // which is a corner
    let mut far: usize = 0;
    let mut best = right_offset(&points[0], &a, &b);
    let mut best_along = along_offset(&points[0], &a, &b);
    for i in 1..n
        invariant
            n == points@.len(),
            far < n,
            best == -cross(a, b, points@[far as int]),
            best_along == along(a, b, points@[far as int]),
            forall|j: int| 0 <= j < i ==> -cross(a, b, #[trigger] points@[j]) <= best,
            forall|j: int| 0 <= j < i && -cross(a, b, points@[j]) == best ==> along(a, b, #[trigger] points@[j]) <= best_along,
    {
        let d = right_offset(&points[i], &a, &b);
        let t = along_offset(&points[i], &a, &b);
        if d > best || (d == best && t > best_along) {
            far = i;
            best = d;
            best_along = t;
        }
    }
    let c = points[far];
    let mut right_of_ac: Vec<Point> = Vec::new();
    let mut right_of_cb: Vec<Point> = Vec::new();
    for i in 0..n
        invariant
            n == points@.len(),
            c == points@[far as int],
            far < n,
            right_of_ac@.len() + right_of_cb@.len() <= i,
            i > far ==> right_of_ac@.len() + right_of_cb@.len() < i,
            drawn_from(right_of_ac@, points@),
            drawn_from(right_of_cb@, points@),
            all_right_of(a, c, right_of_ac@),
            all_right_of(c, b, right_of_cb@),
            forall|k: int| 0 <= k < right_of_cb@.len() ==> cross(a, c, #[trigger] right_of_cb@[k]) >= 0,
            forall|k: int| 0 <= k < right_of_ac@.len() ==> #[trigger] right_of_ac@[k] != c,
            forall|k: int| 0 <= k < right_of_cb@.len() ==> #[trigger] right_of_cb@[k] != c,
            forall|j: int| 0 <= j < i && points@[j] != c && cross(a, c, points@[j]) < 0
                ==> right_of_ac@.contains(#[trigger] points@[j]),
            forall|j: int| 0 <= j < i && points@[j] != c && cross(a, c, points@[j]) >= 0 && cross(c, b, points@[j]) < 0
                ==> right_of_cb@.contains(#[trigger] points@[j]),
    {
        let p = points[i];
        let ghost ac0 = right_of_ac@;
        let ghost cb0 = right_of_cb@;
        if p != c {
            match a.orientation(&c, &p) {
                Orientation::Clockwise => {
                    right_of_ac.push(p);
                    proof {
                        assert(points@.contains(points@[i as int]));
                    }
                }
                _ => {
                    match c.orientation(&b, &p) {
                        Orientation::Clockwise => {
                            right_of_cb.push(p);
                            proof {
                                assert(points@.contains(points@[i as int]));
                            }
                        }
                        _ => {}
                    }
                }
            }
        }
        proof {
            assert forall|j: int| 0 <= j < i + 1 && points@[j] != c && cross(a, c, points@[j]) < 0
                implies right_of_ac@.contains(#[trigger] points@[j]) by {
                if j < i {
                    assert(ac0.contains(points@[j]));
                    let m = choose|m: int| 0 <= m < ac0.len() && ac0[m] == points@[j];
                    assert(right_of_ac@[m] == ac0[m]);
                } else {
                    assert(right_of_ac@[right_of_ac@.len() - 1] == p);
                }
            }
            assert forall|j: int| 0 <= j < i + 1 && points@[j] != c && cross(a, c, points@[j]) >= 0 && cross(c, b, points@[j]) < 0
                implies right_of_cb@.contains(#[trigger] points@[j]) by {
                if j < i {
                    assert(cb0.contains(points@[j]));
                    let m = choose|m: int| 0 <= m < cb0.len() && cb0[m] == points@[j];
                    assert(right_of_cb@[m] == cb0[m]);
                } else {
                    assert(right_of_cb@[right_of_cb@.len() - 1] == p);
                }
            }
        }
    }
    proof {
        assert(all.contains(points@[far as int]));
        assert forall|k: int| 0 <= k < right_of_ac@.len() implies all.contains(#[trigger] right_of_ac@[k]) by {
            let m = choose|m: int| 0 <= m < n && points@[m] == right_of_ac@[k];
            assert(all.contains(points@[m]));
        }
        assert forall|k: int| 0 <= k < right_of_cb@.len() implies all.contains(#[trigger] right_of_cb@[k]) by {
            let m = choose|m: int| 0 <= m < n && points@[m] == right_of_cb@[k];
            assert(all.contains(points@[m]));
        }
    }
    let left = find_hull(&right_of_ac, a, c, Ghost(all));
    let right = find_hull(&right_of_cb, c, b, Ghost(all));
    let mut result = left;
    let ghost l = result@;
    result.push(c);
    let ghost lc = result@;
    let mut k: usize = 0;
    while k < right.len()
        invariant
            lc == l.push(c),
            result@ == lc + right@.subrange(0, k as int),
            k <= right@.len(),
        decreases right@.len() - k,
    {
        result.push(right[k]);
        k = k + 1;
        proof {
            assert(result@ =~= lc + right@.subrange(0, k as int));
        }
    }
    proof {
        assert(right@.subrange(0, right@.len() as int) =~= right@);
        assert(result@ =~= l + seq![c] + right@);
        assert(points@.contains(points@[far as int]));
        assert forall|i: int| 0 <= i < result@.len() implies points@.contains(#[trigger] result@[i]) by {
            if i < l.len() {
                let q = result@[i];
                assert(right_of_ac@.contains(q));
                let m = choose|m: int| 0 <= m < right_of_ac@.len() && right_of_ac@[m] == q;
                assert(points@.contains(right_of_ac@[m]));
            } else if i > l.len() {
                let q = result@[i];
                assert(q == right@[i - l.len() - 1]);
                assert(right_of_cb@.contains(q));
                let m = choose|m: int| 0 <= m < right_of_cb@.len() && right_of_cb@[m] == q;
                assert(points@.contains(right_of_cb@[m]));
            }
        }
        // points of the first part lie right of a -> c, the others do not
        assert forall|i: int| 0 <= i < l.len() implies cross(a, c, #[trigger] result@[i]) < 0 by {
            let m = choose|m: int| 0 <= m < right_of_ac@.len() && right_of_ac@[m] == l[i];
        }
        assert forall|i: int| 0 <= i < right@.len() implies cross(a, c, #[trigger] right@[i]) >= 0 && right@[i] != c by {
            let m = choose|m: int| 0 <= m < right_of_cb@.len() && right_of_cb@[m] == right@[i];
        }
        assert(cross(a, c, c) == 0) by (nonlinear_arith);
        assert forall|j: int| 0 <= j < n implies cross(a, b, c) <= cross(a, b, #[trigger] points@[j]) by {
            assert(-cross(a, b, points@[j]) <= best);
        }
        lemma_split_support(points@, a, b, c, right_of_ac@, right_of_cb@, l, right@);
        lemma_split_corners(points@, all, a, b, c, right_of_ac@, right_of_cb@, l, right@);
        assert forall|j: int| 0 <= j < n && cross(a, b, points@[j]) == cross(a, b, c)
            implies along(a, b, #[trigger] points@[j]) <= along(a, b, c) by {}
        let e1 = seq![a] + l + seq![c];
        let e2 = seq![c] + right@ + seq![b];
        let fl = seq![a] + (l + seq![c] + right@) + seq![b];
        assert(fl =~= e1 + e2.subrange(1, e2.len() as int));
        assert(cross(e1[l.len() as int], c, e2[1]) >= 0) by {
            assert(fl[l.len() as int] == e1[l.len() as int] && fl[l.len() as int + 1] == c);
            if right@.len() > 0 {
                assert(e2[1] == right@[0]);
                assert(right_of_cb@.contains(right@[0]));
                let m = choose|m: int| 0 <= m < right_of_cb@.len() && right_of_cb@[m] == right@[0];
                let j = choose|j: int| 0 <= j < n && points@[j] == right_of_cb@[m];
                assert(edges_support(fl, points@[j]));
                assert(cross(fl[l.len() as int], fl[l.len() as int + 1], points@[j]) >= 0);
            } else {
                assert(e2[1] == b);
                assert(cross(fl[l.len() as int], fl[l.len() as int + 1], b) >= 0);
            }
        }
        lemma_far_turn(points@, a, b, c, right_of_ac@, right_of_cb@, l, right@);
        assert(e1[e1.len() - 2] == e1[l.len() as int]);
        lemma_join_turns(e1, e2);
        assert(seq![a] + result@ + seq![b] =~= e1 + e2.subrange(1, e2.len() as int));
        assert(seq![a] + result@ + seq![b] =~= seq![a] + (l + seq![c] + right@) + seq![b]);
        assert forall|i: int, j: int| 0 <= i < j < result@.len() implies #[trigger] result@[i] != #[trigger] result@[j] by {
            if j < l.len() {
                assert(result@[i] == l[i] && result@[j] == l[j]);
            } else if i < l.len() {
                assert(cross(a, c, result@[i]) < 0);
                if j > l.len() {
                    assert(result@[j] == right@[j - l.len() - 1]);
                }
            } else if i == l.len() {
                assert(result@[j] == right@[j - l.len() - 1]);
            } else {
                assert(result@[i] == right@[i - l.len() - 1]);
                assert(result@[j] == right@[j - l.len() - 1]);
            }
        }
    }
    result
}

/// The leftmost (then lowest) and the rightmost (then highest) point.
fn extremes(points: &[Point]) -> (r: (usize, usize))
    requires
        points@.len() > 0,
    ensures
        r.0 < points@.len(),
        r.1 < points@.len(),
        is_leftmost(points@[r.0 as int], points@),
        is_rightmost(points@[r.1 as int], points@),
{
    let n = points.len();
    let mut lo: usize = 0;
    let mut hi: usize = 0;
    for i in 0..n
        invariant
            n == points@.len(),
            lo < n,
            hi < n,
            forall|j: int| 0 <= j < i ==> left_lower(points@[lo as int], #[trigger] points@[j]),
            forall|j: int| 0 <= j < i ==> left_lower(#[trigger] points@[j], points@[hi as int]),
    {
        let p = points[i];
        if p.x < points[lo].x || (p.x == points[lo].x && p.y < points[lo].y) {
            lo = i;
        }
        if p.x > points[hi].x || (p.x == points[hi].x && p.y > points[hi].y) {
            hi = i;
        }
    }
    proof {
        assert(points@.contains(points@[lo as int]));
        assert(points@.contains(points@[hi as int]));
    }
    (lo, hi)
}

fn append_points(dst: &mut Vec<Point>, src: &Vec<Point>)
    ensures
        final(dst)@ == old(dst)@ + src@,
{
    let ghost start = dst@;
    let mut k: usize = 0;
    while k < src.len()
        invariant
            dst@ == start + src@.subrange(0, k as int),
            k <= src@.len(),
        decreases src@.len() - k,
    {
        dst.push(src[k]);
        k = k + 1;
        proof {
            assert(dst@ =~= start + src@.subrange(0, k as int));
        }
    }
    proof {
        assert(src@.subrange(0, src@.len() as int) =~= src@);
    }
}

/// Split the points other than `a` and `b` by the side of the line a -> b they
/// lie on; points on the line are dropped.
fn split_by_line(points: &[Point], a: Point, b: Point) -> (r: (Vec<Point>, Vec<Point>))
    ensures
        drawn_from(r.0@, points@),
        drawn_from(r.1@, points@),
        forall|k: int| 0 <= k < r.0@.len() ==> cross(a, b, #[trigger] r.0@[k]) > 0,
        all_right_of(a, b, r.1@),
        forall|j: int| 0 <= j < points@.len() && points@[j] != a && points@[j] != b && cross(a, b, points@[j]) > 0
            ==> r.0@.contains(#[trigger] points@[j]),
        forall|j: int| 0 <= j < points@.len() && points@[j] != a && points@[j] != b && cross(a, b, points@[j]) < 0
            ==> r.1@.contains(#[trigger] points@[j]),
{
    let n = points.len();
    let mut left: Vec<Point> = Vec::new();
    let mut right: Vec<Point> = Vec::new();
    for i in 0..n
        invariant
            n == points@.len(),
            drawn_from(left@, points@),
            drawn_from(right@, points@),
            forall|k: int| 0 <= k < left@.len() ==> cross(a, b, #[trigger] left@[k]) > 0,
            all_right_of(a, b, right@),
            forall|j: int| 0 <= j < i && points@[j] != a && points@[j] != b && cross(a, b, points@[j]) > 0
                ==> left@.contains(#[trigger] points@[j]),
            forall|j: int| 0 <= j < i && points@[j] != a && points@[j] != b && cross(a, b, points@[j]) < 0
                ==> right@.contains(#[trigger] points@[j]),
    {
        let ghost l0 = left@;
        let ghost r0 = right@;
        let p = points[i];
        if p != a && p != b {
            match a.orientation(&b, &p) {
                Orientation::CounterClockwise => {
                    left.push(p);
                    proof {
                        assert(points@.contains(points@[i as int]));
                    }
                }
                Orientation::Clockwise => {
                    right.push(p);
                    proof {
                        assert(points@.contains(points@[i as int]));
                    }
                }
                Orientation::Collinear => {}
            }
        }
        proof {
            assert forall|j: int| 0 <= j < i + 1 && points@[j] != a && points@[j] != b && cross(a, b, points@[j]) > 0
                implies left@.contains(#[trigger] points@[j]) by {
                if j < i {
                    let m = choose|m: int| 0 <= m < l0.len() && l0[m] == points@[j];
                    assert(left@[m] == l0[m]);
                } else {
                    assert(left@[left@.len() - 1] == p);
                }
            }
            assert forall|j: int| 0 <= j < i + 1 && points@[j] != a && points@[j] != b && cross(a, b, points@[j]) < 0
                implies right@.contains(#[trigger] points@[j]) by {
                if j < i {
                    let m = choose|m: int| 0 <= m < r0.len() && r0[m] == points@[j];
                    assert(right@[m] == r0[m]);
                } else {
                    assert(right@[right@.len() - 1] == p);
                }
            }
        }
    }
    (left, right)
}

/// The first point, in input order, that ends the left side: of the points
/// with the least x-coordinate, the lowest or the highest. `lo` is the
/// leftmost (then lowest) point.
fn left_side_start(points: &[Point], lo: usize) -> (r: usize)
    requires
        lo < points@.len(),
        is_leftmost(points@[lo as int], points@),
    ensures
        first_left_end(points@, r as int),
{
    let n = points.len();
    let x0 = points[lo].x;
    let mut top: usize = lo;
    for i in 0..n
        invariant
            n == points@.len(),
            lo < n,
            top < n,
            x0 == points@[lo as int].x,
            points@[top as int].x == x0,
            forall|j: int| 0 <= j < i && #[trigger] points@[j].x == x0 ==> points@[j].y <= points@[top as int].y,
    {
        if points[i].x == x0 && points[i].y > points[top].y {
            top = i;
        }
    }
    let y_lo = points[lo].y;
    let y_hi = points[top].y;
    let ghost pts = points@;
    proof {
        assert forall|j: int| 0 <= j < pts.len() implies
            (is_left_end(#[trigger] pts[j], pts) <==> (pts[j].x == x0 && (pts[j].y == y_lo || pts[j].y == y_hi))) by {
            let p = pts[j];
            assert(pts.contains(p));
            assert(left_lower(pts[lo as int], p));
            assert(pts[top as int].x == x0);
            if pts[j].x == x0 && (pts[j].y == y_lo || pts[j].y == y_hi) {
                assert forall|i: int| 0 <= i < pts.len() implies p.x <= #[trigger] pts[i].x by {
                    assert(left_lower(pts[lo as int], pts[i]));
                }
                if p.y == y_lo {
                    assert forall|i: int| 0 <= i < pts.len() && #[trigger] pts[i].x == p.x implies p.y <= pts[i].y by {
                        assert(left_lower(pts[lo as int], pts[i]));
                    }
                } else {
                    assert forall|i: int| 0 <= i < pts.len() && #[trigger] pts[i].x == p.x implies pts[i].y <= p.y by {
                    }
                }
            }
            if is_left_end(p, pts) {
                assert(p.x <= pts[lo as int].x);
                assert(p.x <= pts[top as int].x);
            }
        }
    }
    let mut i: usize = 0;
    while i < n
        invariant
            n == points@.len(),
            pts == points@,
            i <= lo < n,
            x0 == points@[lo as int].x,
            y_lo == points@[lo as int].y,
            forall|j: int| 0 <= j < pts.len() ==>
                (is_left_end(#[trigger] pts[j], pts) <==> (pts[j].x == x0 && (pts[j].y == y_lo || pts[j].y == y_hi))),
            forall|j: int| 0 <= j < i ==> !is_left_end(#[trigger] pts[j], pts),
        decreases n - i,
    {
        let p = points[i];
        if p.x == x0 && (p.y == y_lo || p.y == y_hi) {
            proof {
                assert(is_left_end(pts[i as int], pts));
            }
            return i;
        }
        proof {
            assert(!is_left_end(pts[i as int], pts));
            assert(i != lo);
        }
        i = i + 1;
    }
    lo
}

/// Compute the convex hull with Quickhull.
///
/// Returns the hull vertices in counter-clockwise order, starting from the
/// first point, in input order, with the least x-coordinate that ends the left
/// side (the lowest or the highest of the points that far left). With fewer
/// than three points the input is returned unchanged; when all points are one
/// point, that point is returned once, and when all points lie on one line,
/// the two ends of it (the lower one first on a vertical line).
pub fn quickhull(points: &[Point]) -> (hull: Vec<Point>)
    ensures
        points@.len() < 3 ==> hull@ == points@,
        // the outline of the points: their corners, or what they reduce to
        points@.len() >= 3 ==> outlines(hull@, points@),
        // every corner of the points is a vertex of the result
        forall|j: int| 0 <= j < points@.len() && corner(points@[j], points@) ==> hull@.contains(#[trigger] points@[j]),
        points@.len() >= 3 ==> {
            &&& hull@.len() >= 1
            &&& drawn_from(hull@, points@)
            &&& distinct(hull@)
            // the start: on a vertical line the lowest point, and otherwise the
            // first point, in input order, that ends the left side
            &&& is_left_end(hull@[0], points@)
            &&& (forall|j: int| 0 <= j < points@.len() ==> #[trigger] points@[j].x == points@[0].x)
                ==> is_leftmost(hull@[0], points@)
            &&& !(forall|j: int| 0 <= j < points@.len() ==> #[trigger] points@[j].x == points@[0].x)
                ==> exists|i: int| #[trigger] first_left_end(points@, i) && hull@[0] == points@[i]
            // every point lies on the left of, or on, every edge, the closing one included
            &&& forall|k: int| 0 <= k < hull@.len() - 1 ==> #[trigger] supports(hull@[k], hull@[k + 1], points@)
            &&& supports(hull@[hull@.len() - 1], hull@[0], points@)
            // three or more vertices exactly when the points are not all on one line
            &&& hull@.len() >= 3 <==> !collinear_set(points@)
            &&& hull@.len() >= 3 ==> {
                // strict counter-clockwise turns at every vertex, so only corners
                &&& ccw_chain(hull@)
                &&& cross(hull@[hull@.len() - 2], hull@[hull@.len() - 1], hull@[0]) > 0
                &&& cross(hull@[hull@.len() - 1], hull@[0], hull@[1]) > 0
                &&& forall|k: int| 0 <= k < hull@.len() ==> corner(#[trigger] hull@[k], points@)
                // the lower chain runs below the line from the leftmost to the rightmost
                // point, the upper chain above it
                &&& exists|k: int| 0 < k < hull@.len() && {
                    &&& is_rightmost(#[trigger] hull@[k], points@)
                    &&& forall|m: int| 0 < m < k ==> cross(hull@[0], hull@[k], #[trigger] hull@[m]) < 0
                    &&& forall|m: int| k < m < hull@.len() ==> cross(hull@[0], hull@[k], #[trigger] hull@[m]) > 0
                }
            }
            // otherwise one point that all points equal, or the segment that holds them
            &&& hull@.len() == 1 ==> forall|j: int| 0 <= j < points@.len() ==> #[trigger] points@[j] == hull@[0]
            &&& hull@.len() == 2 ==> spans(hull@[0], hull@[1], points@)
        },
{
    if points.len() < 3 {
        return copy_points(points);
    }
    let (min_x, max_x) = extremes(points);
    let a = points[min_x];
    let b = points[max_x];
    let ghost pts = points@;
    proof {
        assert forall|j: int| 0 <= j < pts.len() implies a.x <= #[trigger] pts[j].x <= b.x by {
            assert(left_lower(a, pts[j]) && left_lower(pts[j], b));
        }
    }
    if a == b {
        // all points are one point
        let mut result: Vec<Point> = Vec::new();
        result.push(a);
        proof {
            assert forall|j: int| 0 <= j < pts.len() implies #[trigger] pts[j] == a by {
                assert(left_lower(a, pts[j]) && left_lower(pts[j], b));
            }
            assert(pts[0] == a);
            assert(is_left_end(a, pts));
            lemma_same_collinear(pts);
            lemma_cross_symmetries(a, a, a);
            assert forall|j: int| 0 <= j < pts.len() implies cross(result@[0], result@[0], #[trigger] pts[j]) >= 0 by {
                lemma_cross_symmetries(a, a, pts[j]);
            }
            assert forall|j: int| 0 <= j < pts.len() && corner(pts[j], pts) implies result@.contains(#[trigger] pts[j]) by {
                assert(result@[0] == pts[j]);
            }
        }
        return result;
    }
    if a.x == b.x {
        // all points lie on one vertical line, from a up to b
        let mut result: Vec<Point> = Vec::new();
        result.push(a);
        result.push(b);
        proof {
            assert forall|j: int| 0 <= j < pts.len() implies #[trigger] pts[j].x == a.x && a.y <= pts[j].y <= b.y by {
                assert(left_lower(a, pts[j]) && left_lower(pts[j], b));
            }
            assert forall|j: int| 0 <= j < pts.len() implies cross(a, b, #[trigger] pts[j]) == 0
                && cross(b, a, pts[j]) == 0 by {
                let z = pts[j];
                assert(cross(a, b, z) == 0 && cross(b, a, z) == 0) by (nonlinear_arith)
                    requires
                        b.x == a.x,
                        z.x == a.x,
                ;
            }
            assert(result@[0] == a && result@[1] == b);
            assert(pts[0].x == a.x);
            assert forall|i: int| 0 <= i < pts.len() && #[trigger] pts[i].x == a.x implies a.y <= pts[i].y by {
                assert(left_lower(a, pts[i]));
            }
            assert(is_left_end(a, pts));
            assert(supports(result@[0], result@[1], pts));
            assert(supports(result@[1], result@[0], pts));
            assert forall|i: int, j: int, k: int| 0 <= i < pts.len() && 0 <= j < pts.len() && 0 <= k < pts.len()
                implies #[trigger] cross(pts[i], pts[j], pts[k]) == 0 by {
                let (p, q, r) = (pts[i], pts[j], pts[k]);
                assert(p.x == q.x && q.x == r.x);
                assert(cross(p, q, r) == 0) by (nonlinear_arith)
                    requires
                        p.x == q.x,
                        q.x == r.x,
                ;
            }
            assert forall|j: int| 0 <= j < pts.len() implies #[trigger] on_segment(a, b, pts[j]) by {
                let z = pts[j];
                assert(dt(b.x - a.x, b.y - a.y, z.x - a.x, z.y - a.y) >= 0) by (nonlinear_arith)
                    requires
                        b.x == a.x,
                        z.x == a.x,
                        a.y <= z.y <= b.y,
                ;
                assert(dt(a.x - b.x, a.y - b.y, z.x - b.x, z.y - b.y) >= 0) by (nonlinear_arith)
                    requires
                        b.x == a.x,
                        z.x == a.x,
                        a.y <= z.y <= b.y,
                ;
            }
            // on one line no point is a corner
            assert forall|j: int| 0 <= j < pts.len() && corner(pts[j], pts) implies result@.contains(#[trigger] pts[j]) by {
                let z = pts[j];
                let (p, n) = choose|p: Point, n: Point| #[trigger] corner_witness(p, z, n, pts);
                let kp = choose|k: int| 0 <= k < pts.len() && pts[k] == p;
                let kn = choose|k: int| 0 <= k < pts.len() && pts[k] == n;
                assert(cross(pts[kp], pts[j], pts[kn]) == 0);
            }
        }
        return result;
    }
    // start from the first point that ends the left side
    let min_x = left_side_start(points, min_x);
    let a = points[min_x];
    proof {
        assert(pts.contains(a));
        assert forall|j: int| 0 <= j < pts.len() implies a.x <= #[trigger] pts[j].x <= b.x by {
            assert(left_lower(pts[j], b));
        }
    }
    let (left, right) = split_by_line(points, a, b);
    proof {
        assert forall|k: int| 0 <= k < left@.len() implies cross(b, a, #[trigger] left@[k]) < 0 by {
            assert(cross(a, b, left@[k]) == -cross(b, a, left@[k])) by (nonlinear_arith);
        }
        assert(pts.contains(pts[min_x as int]));
        assert(pts.contains(pts[max_x as int]));
    }
    let lower = find_hull(&right, a, b, Ghost(pts));
    let upper = find_hull(&left, b, a, Ghost(pts));
    let mut result: Vec<Point> = Vec::new();
    result.push(a);
    append_points(&mut result, &lower);
    result.push(b);
    append_points(&mut result, &upper);
    proof {
        assert(result@ =~= seq![a] + lower@ + seq![b] + upper@);
        lemma_join(pts, a, b, lower@, upper@, left@, right@, result@, min_x as int, max_x as int);
        lemma_closed_support(pts, a, b, left@, right@, lower@, upper@, min_x as int, max_x as int);
        lemma_keeps_corners(pts, a, b, left@, right@, lower@, upper@, min_x as int, max_x as int);
        lemma_line_case(pts, a, b, left@, right@, lower@, upper@, min_x as int, max_x as int);
        if result@.len() == 2 {
            assert(lower@.len() == 0 && upper@.len() == 0);
            assert(result@ =~= seq![a, b]);
        } else {
            lemma_polygon_turns(pts, a, b, left@, right@, lower@, upper@);
            lemma_turns_corners(result@, pts);
            let k = lower@.len() as int + 1;
            assert(is_rightmost(result@[k], pts));
        }
        assert(first_left_end(pts, min_x as int));
    }
    result
}

proof fn lemma_join(pts: Seq<Point>, a: Point, b: Point, lower: Seq<Point>, upper: Seq<Point>, left: Seq<Point>, right: Seq<Point>, result: Seq<Point>, min_x: int, max_x: int)
    requires
        pts.len() >= 3,
        0 <= min_x < pts.len(),
        0 <= max_x < pts.len(),
        is_left_end(pts[min_x], pts),
        is_rightmost(pts[max_x], pts),
        pts[min_x].x < pts[max_x].x,
        a == pts[min_x],
        b == pts[max_x],
        drawn_from(left, pts),
        drawn_from(right, pts),
        forall|k: int| 0 <= k < left.len() ==> cross(a, b, #[trigger] left[k]) > 0,
        all_right_of(a, b, right),
        drawn_from(lower, right),
        distinct(lower),
        drawn_from(upper, left),
        distinct(upper),
        result == seq![a] + lower + seq![b] + upper,
    ensures
        drawn_from(result, pts),
        !(forall|j: int| 0 <= j < pts.len() ==> #[trigger] pts[j].x == pts[0].x),
        distinct(result),
        is_left_end(result[0], pts),
        is_rightmost(result[lower.len() as int + 1], pts),
        forall|m: int| 0 < m < lower.len() + 1 ==> cross(result[0], result[lower.len() as int + 1], #[trigger] result[m]) < 0,
        forall|m: int| lower.len() + 1 < m < result.len() ==> cross(result[0], result[lower.len() as int + 1], #[trigger] result[m]) > 0,
{
    let nl: int = lower.len() as int;
    assert(pts.contains(pts[min_x]));
    assert(pts.contains(pts[max_x]));
    assert forall|i: int| 0 <= i < result.len() implies pts.contains(#[trigger] result[i]) by {
        if 1 <= i <= nl {
            let q = lower[i - 1];
            assert(result[i] == q);
            assert(right.contains(q));
            let m = choose|m: int| 0 <= m < right.len() && right[m] == q;
            assert(pts.contains(right[m]));
        } else if i > nl + 1 {
            let q = upper[i - nl - 2];
            assert(result[i] == q);
            assert(left.contains(q));
            let m = choose|m: int| 0 <= m < left.len() && left[m] == q;
            assert(pts.contains(left[m]));
        }
    }
    assert(cross(a, b, a) == 0 && cross(a, b, b) == 0) by (nonlinear_arith);
    assert forall|i: int| 0 <= i < nl implies cross(a, b, #[trigger] lower[i]) < 0 by {
        let m = choose|m: int| 0 <= m < right.len() && right[m] == lower[i];
    }
    assert forall|i: int| 0 <= i < upper.len() implies cross(a, b, #[trigger] upper[i]) > 0 by {
        let m = choose|m: int| 0 <= m < left.len() && left[m] == upper[i];
    }
    assert(a.x < b.x);
    assert(!(forall|j: int| 0 <= j < pts.len() ==> #[trigger] pts[j].x == pts[0].x)) by {
        assert(pts[min_x].x == pts[0].x ==> pts[max_x].x != pts[0].x);
    }
    assert forall|i: int, j: int| 0 <= i < j < result.len() implies #[trigger] result[i] != #[trigger] result[j] by {
        if i == 0 {
            if 1 <= j <= nl {
                assert(result[j] == lower[j - 1]);
            } else if j > nl + 1 {
                assert(result[j] == upper[j - nl - 2]);
            }
        } else if i <= nl {
            assert(result[i] == lower[i - 1]);
            if j <= nl {
                assert(result[j] == lower[j - 1]);
            } else if j > nl + 1 {
                assert(result[j] == upper[j - nl - 2]);
            }
        } else if i == nl + 1 {
            assert(result[j] == upper[j - nl - 2]);
        } else {
            assert(result[i] == upper[i - nl - 2]);
            assert(result[j] == upper[j - nl - 2]);
        }
    }
    assert(result[nl + 1] == b);
    assert forall|m: int| 0 < m < nl + 1 implies cross(result[0], result[nl + 1], #[trigger] result[m]) < 0 by {
        assert(result[m] == lower[m - 1]);
    }
    assert forall|m: int| nl + 1 < m < result.len() implies cross(result[0], result[nl + 1], #[trigger] result[m]) > 0 by {
        assert(result[m] == upper[m - nl - 2]);
    }
}

/// The lower chain from a to b and the upper chain from b back to a close a
/// polygon that has every point on the left of, or on, each of its edges.
proof fn lemma_closed_support(pts: Seq<Point>, a: Point, b: Point, left: Seq<Point>, right: Seq<Point>, lower: Seq<Point>, upper: Seq<Point>, min_x: int, max_x: int)
    requires
        0 <= min_x < pts.len(),
        0 <= max_x < pts.len(),
        is_left_end(pts[min_x], pts),
        is_rightmost(pts[max_x], pts),
        pts[min_x].x < pts[max_x].x,
        a == pts[min_x],
        b == pts[max_x],
        drawn_from(left, pts),
        drawn_from(right, pts),
        all_right_of(b, a, left),
        all_right_of(a, b, right),
        forall|j: int| 0 <= j < pts.len() && pts[j] != a && pts[j] != b && cross(a, b, pts[j]) > 0
            ==> left.contains(#[trigger] pts[j]),
        forall|j: int| 0 <= j < pts.len() && pts[j] != a && pts[j] != b && cross(a, b, pts[j]) < 0
            ==> right.contains(#[trigger] pts[j]),
        drawn_from(lower, right),
        drawn_from(upper, left),
        forall|j: int| 0 <= j < right.len() ==> edges_support(seq![a] + lower + seq![b], #[trigger] right[j]),
        edges_support(seq![a] + lower + seq![b], a),
        edges_support(seq![a] + lower + seq![b], b),
        forall|j: int| 0 <= j < left.len() ==> edges_support(seq![b] + upper + seq![a], #[trigger] left[j]),
        edges_support(seq![b] + upper + seq![a], b),
        edges_support(seq![b] + upper + seq![a], a),
    ensures
        forall|k: int| 0 <= k < (seq![a] + lower + seq![b] + upper).len() - 1
            ==> #[trigger] supports((seq![a] + lower + seq![b] + upper)[k], (seq![a] + lower + seq![b] + upper)[k + 1], pts),
        supports((seq![a] + lower + seq![b] + upper)[(seq![a] + lower + seq![b] + upper).len() - 1], a, pts),
{
    let lo = seq![a] + lower + seq![b];
    let up = seq![b] + upper + seq![a];
    let result = seq![a] + lower + seq![b] + upper;
    let cyc = lo + up.subrange(1, up.len() as int);
    assert(cyc =~= result.push(a));
    assert(a.x < b.x);
    lemma_cross_symmetries(a, b, a);
    lemma_cross_symmetries(b, a, b);
    // the level along (0, 1) is minus the x-coordinate
    assert(level(0, 1, a, b) == a.x - b.x);
    assert(level(0, 1, b, a) == b.x - a.x);
    assert forall|i: int| 0 < i < lo.len() - 1 implies cross(a, b, #[trigger] lo[i]) < 0
        && between(level(0, 1, a, lo[i]), level(0, 1, a, b)) by {
        let x = lo[i];
        assert(x == lower[i - 1]);
        assert(right.contains(lower[i - 1]));
        let m = choose|m: int| 0 <= m < right.len() && right[m] == x;
        assert(cross(a, b, right[m]) < 0);
        assert(pts.contains(right[m]));
        let j = choose|j: int| 0 <= j < pts.len() && pts[j] == x;
        assert(pts[min_x].x <= pts[j].x <= pts[max_x].x);
        assert(level(0, 1, a, x) == a.x - x.x);
    }
    assert forall|i: int| 0 < i < up.len() - 1 implies cross(b, a, #[trigger] up[i]) < 0
        && between(level(0, 1, b, up[i]), level(0, 1, b, a)) by {
        let x = up[i];
        assert(x == upper[i - 1]);
        assert(left.contains(upper[i - 1]));
        let m = choose|m: int| 0 <= m < left.len() && left[m] == x;
        assert(cross(b, a, left[m]) < 0);
        assert(pts.contains(left[m]));
        let j = choose|j: int| 0 <= j < pts.len() && pts[j] == x;
        assert(pts[min_x].x <= pts[j].x <= pts[max_x].x);
        assert(level(0, 1, b, x) == b.x - x.x);
    }
    assert forall|j: int| 0 <= j < pts.len() implies edges_support(cyc, #[trigger] pts[j]) by {
        let z = pts[j];
        assert(pts[min_x].x <= z.x <= pts[max_x].x);
        assert(level(0, 1, a, z) == a.x - z.x);
        assert(level(0, 1, b, z) == b.x - z.x);
        lemma_cross_symmetries(a, b, z);
        if z == a || z == b {
        } else if cross(a, b, z) < 0 {
            let m = choose|m: int| 0 <= m < right.len() && right[m] == z;
            assert(edges_support(lo, right[m]));
            lemma_sub_chain(b, a, 0, 1, up, z);
        } else if cross(a, b, z) > 0 {
            let m = choose|m: int| 0 <= m < left.len() && left[m] == z;
            assert(edges_support(up, left[m]));
            lemma_sub_chain(a, b, 0, 1, lo, z);
        } else {
            lemma_sub_chain(a, b, 0, 1, lo, z);
            lemma_sub_chain(b, a, 0, 1, up, z);
        }
        lemma_join_edges(lo, up, z);
    }
    assert forall|k: int| 0 <= k < result.len() - 1 implies #[trigger] supports(result[k], result[k + 1], pts) by {
        assert forall|j: int| 0 <= j < pts.len() implies cross(result[k], result[k + 1], #[trigger] pts[j]) >= 0 by {
            assert(edges_support(cyc, pts[j]));
            assert(cross(cyc[k], cyc[k + 1], pts[j]) >= 0);
        }
    }
    let last = result.len() - 1;
    assert forall|j: int| 0 <= j < pts.len() implies cross(result[last], a, #[trigger] pts[j]) >= 0 by {
        assert(edges_support(cyc, pts[j]));
        assert(cross(cyc[last], cyc[last + 1], pts[j]) >= 0);
    }
}

/// A corner of the points does not lie on the segment between two other
/// points of them.
proof fn lemma_corner_off_segment(p: Point, v: Point, nx: Point, a: Point, b: Point, pts: Seq<Point>)
    requires
        corner_witness(p, v, nx, pts),
        pts.contains(a),
        pts.contains(b),
        a != v,
        b != v,
        a.x < b.x,
    ensures
        !(cross(a, b, v) == 0 && a.x <= v.x <= b.x),
{
    if cross(a, b, v) == 0 && a.x <= v.x <= b.x {
        lemma_corner_positive(p, v, nx, pts, a);
        lemma_corner_positive(p, v, nx, pts, b);
        lemma_shift_points(a, b, 0, 1, p, v, v);
        lemma_shift_points(a, b, 0, 1, v, nx, v);
        lemma_cross_symmetries(p, v, v);
        lemma_cross_symmetries(v, nx, v);
        assert(level(0, 1, a, b) == a.x - b.x);
        assert(level(0, 1, a, v) == a.x - v.x);
        let k1 = cr(v.x - p.x, v.y - p.y, 0, 1);
        let k2 = cr(nx.x - v.x, nx.y - v.y, 0, 1);
        let fa = cross(p, v, a) + cross(v, nx, a);
        let fb = cross(p, v, b) + cross(v, nx, b);
        let wa = v.x - b.x;
        let wb = a.x - v.x;
        assert((a.x - b.x) * 0 == 0 && 0 * k1 == 0 && 0 * k2 == 0) by (nonlinear_arith);
        assert(wa == (a.x - b.x) - (a.x - v.x));
        assert(0 == wa * cross(p, v, a) + wb * cross(p, v, b));
        assert(0 == wa * cross(v, nx, a) + wb * cross(v, nx, b));
        assert(wa * fa == wa * cross(p, v, a) + wa * cross(v, nx, a)) by (nonlinear_arith)
            requires
                fa == cross(p, v, a) + cross(v, nx, a),
        ;
        assert(wb * fb == wb * cross(p, v, b) + wb * cross(v, nx, b)) by (nonlinear_arith)
            requires
                fb == cross(p, v, b) + cross(v, nx, b),
        ;
        assert(wa * fa <= 0) by (nonlinear_arith)
            requires
                wa <= 0,
                fa > 0,
        ;
        assert(wb * fb <= 0) by (nonlinear_arith)
            requires
                wb <= 0,
                fb > 0,
        ;
        assert(wa * fa == 0 && wb * fb == 0);
        assert(wa == 0) by (nonlinear_arith)
            requires
                wa * fa == 0,
                fa > 0,
        ;
        assert(wb == 0) by (nonlinear_arith)
            requires
                wb * fb == 0,
                fb > 0,
        ;
    }
}

/// One step of the recursion keeps every corner of the whole point set that
/// lies on the right of a -> b: it is c, or in one of the two parts.
proof fn lemma_split_corners(s: Seq<Point>, all: Seq<Point>, a: Point, b: Point, c: Point, s1: Seq<Point>, s2: Seq<Point>, left: Seq<Point>, right: Seq<Point>)
    requires
        all_right_of(a, b, s),
        s.contains(c),
        drawn_from(s, all),
        all.contains(a),
        all.contains(b),
        forall|j: int| 0 <= j < s.len() && s[j] != c && cross(a, c, s[j]) < 0 ==> s1.contains(#[trigger] s[j]),
        forall|j: int| 0 <= j < s.len() && s[j] != c && cross(a, c, s[j]) >= 0 && cross(c, b, s[j]) < 0
            ==> s2.contains(#[trigger] s[j]),
        forall|j: int| 0 <= j < s1.len() && corner(s1[j], all) ==> left.contains(#[trigger] s1[j]),
        forall|j: int| 0 <= j < s2.len() && corner(s2[j], all) ==> right.contains(#[trigger] s2[j]),
    ensures
        forall|j: int| 0 <= j < s.len() && corner(s[j], all) ==> (left + seq![c] + right).contains(#[trigger] s[j]),
{
    let res = left + seq![c] + right;
    let kc = choose|k: int| 0 <= k < s.len() && s[k] == c;
    assert(cross(a, b, s[kc]) < 0);
    assert(all.contains(s[kc]));
    lemma_cross_symmetries(a, c, b);
    lemma_cross_symmetries(a, b, a);
    lemma_cross_symmetries(b, a, b);
    assert forall|j: int| 0 <= j < s.len() && corner(s[j], all) implies res.contains(#[trigger] s[j]) by {
        let z = s[j];
        if z == c {
            assert(res[left.len() as int] == c);
        } else if cross(a, c, z) < 0 {
            let m = choose|m: int| 0 <= m < s1.len() && s1[m] == z;
            assert(left.contains(s1[m]));
            let i = choose|i: int| 0 <= i < left.len() && left[i] == z;
            assert(res[i] == z);
        } else if cross(c, b, z) < 0 {
            let m = choose|m: int| 0 <= m < s2.len() && s2[m] == z;
            assert(right.contains(s2[m]));
            let i = choose|i: int| 0 <= i < right.len() && right[i] == z;
            assert(res[left.len() + 1 + i] == z);
        } else {
            // z lies in the triangle a, c, b of three other points
            let (p, n) = choose|p: Point, n: Point| #[trigger] corner_witness(p, z, n, all);
            assert(cross(a, b, z) < 0);
            lemma_cross_symmetries(a, b, z);
            lemma_corner_not_in_triangle(p, z, n, a, c, b, all);
            assert(in_triangle(a, c, b, z));
        }
    }
}

/// Quickhull keeps every corner of the points: it is one of the two extreme
/// points, or lies strictly on one side of the line through them.
proof fn lemma_keeps_corners(pts: Seq<Point>, a: Point, b: Point, left: Seq<Point>, right: Seq<Point>, lower: Seq<Point>, upper: Seq<Point>, min_x: int, max_x: int)
    requires
        0 <= min_x < pts.len(),
        0 <= max_x < pts.len(),
        is_left_end(pts[min_x], pts),
        is_rightmost(pts[max_x], pts),
        pts[min_x].x < pts[max_x].x,
        a == pts[min_x],
        b == pts[max_x],
        forall|j: int| 0 <= j < pts.len() && pts[j] != a && pts[j] != b && cross(a, b, pts[j]) > 0
            ==> left.contains(#[trigger] pts[j]),
        forall|j: int| 0 <= j < pts.len() && pts[j] != a && pts[j] != b && cross(a, b, pts[j]) < 0
            ==> right.contains(#[trigger] pts[j]),
        forall|j: int| 0 <= j < right.len() && corner(right[j], pts) ==> lower.contains(#[trigger] right[j]),
        forall|j: int| 0 <= j < left.len() && corner(left[j], pts) ==> upper.contains(#[trigger] left[j]),
    ensures
        forall|j: int| 0 <= j < pts.len() && corner(pts[j], pts)
            ==> (seq![a] + lower + seq![b] + upper).contains(#[trigger] pts[j]),
{
    let res = seq![a] + lower + seq![b] + upper;
    let nl = lower.len() as int;
    assert(a.x < b.x);
    assert(pts.contains(pts[min_x]));
    assert(pts.contains(pts[max_x]));
    assert forall|j: int| 0 <= j < pts.len() && corner(pts[j], pts) implies res.contains(#[trigger] pts[j]) by {
        let z = pts[j];
        if z == a {
            assert(res[0] == a);
        } else if z == b {
            assert(res[nl + 1] == b);
        } else if cross(a, b, z) < 0 {
            let m = choose|m: int| 0 <= m < right.len() && right[m] == z;
            assert(lower.contains(right[m]));
            let i = choose|i: int| 0 <= i < lower.len() && lower[i] == z;
            assert(res[1 + i] == z);
        } else if cross(a, b, z) > 0 {
            let m = choose|m: int| 0 <= m < left.len() && left[m] == z;
            assert(upper.contains(left[m]));
            let i = choose|i: int| 0 <= i < upper.len() && upper[i] == z;
            assert(res[nl + 2 + i] == z);
        } else {
            let (p, n) = choose|p: Point, n: Point| #[trigger] corner_witness(p, z, n, pts);
            assert(pts[min_x].x <= z.x <= pts[max_x].x);
            lemma_corner_off_segment(p, z, n, a, b, pts);
        }
    }
}

/// A point on the line through a and b whose x-coordinate lies between
/// theirs lies on the segment from a to b.
proof fn lemma_between_on_segment(a: Point, b: Point, x: Point)
    requires
        a.x < b.x,
        a.x <= x.x <= b.x,
        cross(a, b, x) == 0,
    ensures
        on_segment(a, b, x),
{
    let w = b.x - a.x;
    let h = b.y - a.y;
    let dx = x.x - a.x;
    let dy = x.y - a.y;
    assert(w * dy == h * dx);
    let t1 = dt(w, h, dx, dy);
    let t2 = dt(a.x - b.x, a.y - b.y, x.x - b.x, x.y - b.y);
    assert(w * t1 == dx * (w * w + h * h)) by (nonlinear_arith)
        requires
            t1 == w * dx + h * dy,
            w * dy == h * dx,
    ;
    assert(t2 == w * (w - dx) + h * (h - dy)) by (nonlinear_arith)
        requires
            t2 == (a.x - b.x) * (x.x - b.x) + (a.y - b.y) * (x.y - b.y),
            w == b.x - a.x,
            h == b.y - a.y,
            dx == x.x - a.x,
            dy == x.y - a.y,
    ;
    assert(w * t2 == (w - dx) * (w * w + h * h)) by (nonlinear_arith)
        requires
            t2 == w * (w - dx) + h * (h - dy),
            w * dy == h * dx,
    ;
    assert(t1 >= 0) by (nonlinear_arith)
        requires
            w * t1 == dx * (w * w + h * h),
            w > 0,
            dx >= 0,
    ;
    assert(t2 >= 0) by (nonlinear_arith)
        requires
            w * t2 == (w - dx) * (w * w + h * h),
            w > 0,
            w - dx >= 0,
    ;
}

/// Quickhull's polygon has three or more vertices exactly when the points do
/// not all lie on one line; otherwise it is the segment from a to b.
proof fn lemma_line_case(pts: Seq<Point>, a: Point, b: Point, left: Seq<Point>, right: Seq<Point>, lower: Seq<Point>, upper: Seq<Point>, min_x: int, max_x: int)
    requires
        pts.len() >= 3,
        0 <= min_x < pts.len(),
        0 <= max_x < pts.len(),
        is_left_end(pts[min_x], pts),
        is_rightmost(pts[max_x], pts),
        pts[min_x].x < pts[max_x].x,
        a == pts[min_x],
        b == pts[max_x],
        drawn_from(left, pts),
        drawn_from(right, pts),
        forall|k: int| 0 <= k < left.len() ==> cross(a, b, #[trigger] left[k]) > 0,
        all_right_of(a, b, right),
        forall|j: int| 0 <= j < pts.len() && pts[j] != a && pts[j] != b && cross(a, b, pts[j]) > 0
            ==> left.contains(#[trigger] pts[j]),
        forall|j: int| 0 <= j < pts.len() && pts[j] != a && pts[j] != b && cross(a, b, pts[j]) < 0
            ==> right.contains(#[trigger] pts[j]),
        drawn_from(lower, right),
        drawn_from(upper, left),
        right.len() > 0 ==> lower.len() > 0,
        left.len() > 0 ==> upper.len() > 0,
    ensures
        (seq![a] + lower + seq![b] + upper).len() >= 3 <==> !collinear_set(pts),
        collinear_set(pts) ==> seq![a] + lower + seq![b] + upper == seq![a, b] && spans(a, b, pts),
{
    let res = seq![a] + lower + seq![b] + upper;
    assert(a.x < b.x);
    lemma_cross_symmetries(a, b, a);
    lemma_cross_symmetries(b, a, b);
    if collinear_set(pts) {
        assert(right.len() == 0) by {
            if right.len() > 0 {
                let k = choose|k: int| 0 <= k < pts.len() && pts[k] == right[0];
                assert(cross(pts[min_x], pts[max_x], pts[k]) == 0);
            }
        }
        assert(left.len() == 0) by {
            if left.len() > 0 {
                let k = choose|k: int| 0 <= k < pts.len() && pts[k] == left[0];
                assert(cross(pts[min_x], pts[max_x], pts[k]) == 0);
            }
        }
        assert(lower.len() == 0) by {
            if lower.len() > 0 {
                assert(right.contains(lower[0]));
            }
        }
        assert(upper.len() == 0) by {
            if upper.len() > 0 {
                assert(left.contains(upper[0]));
            }
        }
        assert(res =~= seq![a, b]);
        assert forall|j: int| 0 <= j < pts.len() implies #[trigger] on_segment(a, b, pts[j]) by {
            assert(cross(pts[min_x], pts[max_x], pts[j]) == 0);
            assert(pts[min_x].x <= pts[j].x <= pts[max_x].x);
            lemma_between_on_segment(a, b, pts[j]);
        }
    } else {
        // some point lies off the line through a and b, so a part is not empty
        if forall|j: int| 0 <= j < pts.len() ==> #[trigger] cross(a, b, pts[j]) == 0 {
            lemma_on_line_collinear(a, b, pts);
        }
        let j = choose|j: int| 0 <= j < pts.len() && #[trigger] cross(a, b, pts[j]) != 0;
        assert(pts[j] != a && pts[j] != b);
        if cross(a, b, pts[j]) > 0 {
            assert(left.contains(pts[j]));
        } else {
            assert(right.contains(pts[j]));
        }
    }
    if res.len() >= 3 {
        // a vertex other than a and b lies off the line through them
        if lower.len() > 0 {
            assert(right.contains(lower[0]));
            let k = choose|k: int| 0 <= k < right.len() && right[k] == lower[0];
            assert(cross(a, b, right[k]) < 0);
            let i = choose|i: int| 0 <= i < pts.len() && pts[i] == right[k];
            assert(cross(pts[min_x], pts[max_x], pts[i]) != 0);
        } else {
            assert(upper.len() > 0);
            assert(left.contains(upper[0]));
            let k = choose|k: int| 0 <= k < left.len() && left[k] == upper[0];
            assert(cross(a, b, left[k]) > 0);
            let i = choose|i: int| 0 <= i < pts.len() && pts[i] == left[k];
            assert(cross(pts[min_x], pts[max_x], pts[i]) != 0);
        }
    }
}

/// Every inner point of the polyline `ext` is a strict left turn.
pub open spec fn turns_left(ext: Seq<Point>) -> bool {
    forall|i: int| 0 < i < ext.len() - 1 ==> #[trigger] cross(ext[i - 1], ext[i], ext[i + 1]) > 0
}

/// Joining two polylines at a shared point that turns left there keeps every
/// turn left.
proof fn lemma_join_turns(e1: Seq<Point>, e2: Seq<Point>)
    requires
        e1.len() >= 2,
        e2.len() >= 2,
        e1[e1.len() - 1] == e2[0],
        turns_left(e1),
        turns_left(e2),
        cross(e1[e1.len() - 2], e2[0], e2[1]) > 0,
    ensures
        turns_left(e1 + e2.subrange(1, e2.len() as int)),
{
    let full = e1 + e2.subrange(1, e2.len() as int);
    let n1 = e1.len() as int;
    assert forall|i: int| 0 < i < full.len() - 1 implies #[trigger] cross(full[i - 1], full[i], full[i + 1]) > 0 by {
        if i + 1 < n1 {
            assert(full[i - 1] == e1[i - 1] && full[i] == e1[i] && full[i + 1] == e1[i + 1]);
            assert(cross(e1[i - 1], e1[i], e1[i + 1]) > 0);
        } else if i + 1 == n1 {
            assert(full[i - 1] == e1[n1 - 2] && full[i] == e2[0] && full[i + 1] == e2[1]);
        } else {
            let k = i - n1 + 1;
            assert(full[i - 1] == e2[k - 1] && full[i] == e2[k] && full[i + 1] == e2[k + 1]);
            assert(cross(e2[k - 1], e2[k], e2[k + 1]) > 0);
        }
    }
}

/// Points u and v on one line through o, written from o: with
/// e = |u - o|^2 and al = (u - o) . (v - o), every linear form cr(k, .) has
/// e * cr(k, v - o) == al * cr(k, u - o).
proof fn lemma_line_scale(o: Point, u: Point, v: Point, kx: int, ky: int)
    requires
        cross(o, u, v) == 0,
    ensures
        dt(u.x - o.x, u.y - o.y, u.x - o.x, u.y - o.y) * cr(kx, ky, v.x - o.x, v.y - o.y)
            == dt(u.x - o.x, u.y - o.y, v.x - o.x, v.y - o.y) * cr(kx, ky, u.x - o.x, u.y - o.y),
{
    lemma_collinear_multiple(o, u, v);
    let e = dt(u.x - o.x, u.y - o.y, u.x - o.x, u.y - o.y);
    let al = dt(u.x - o.x, u.y - o.y, v.x - o.x, v.y - o.y);
    lemma_scale_form(e, al, kx, ky, u.x - o.x, u.y - o.y, v.x - o.x, v.y - o.y);
}

proof fn lemma_scale_form(e: int, al: int, kx: int, ky: int, ux: int, uy: int, vx: int, vy: int)
    requires
        e * vx == al * ux,
        e * vy == al * uy,
    ensures
        e * cr(kx, ky, vx, vy) == al * cr(kx, ky, ux, uy),
{
    assert(e * (kx * vy - ky * vx) == kx * (e * vy) - ky * (e * vx)) by (nonlinear_arith);
    assert(kx * (al * uy) - ky * (al * ux) == al * (kx * uy - ky * ux)) by (nonlinear_arith);
}

/// How far `x` lies along the direction from a to b, scaled by |b - a|.
pub open spec fn along(a: Point, b: Point, x: Point) -> int {
    dt(b.x - a.x, b.y - a.y, x.x - a.x, x.y - a.y)
}

proof fn lemma_along_shift(a: Point, b: Point, c: Point, x: Point)
    ensures
        cr(b.y - a.y, a.x - b.x, x.x - c.x, x.y - c.y) == along(a, b, x) - along(a, b, c),
{
    assert(cr(b.y - a.y, a.x - b.x, x.x - c.x, x.y - c.y) == along(a, b, x) - along(a, b, c)) by (nonlinear_arith);
}

/// The farthest point c, the one farthest along a -> b among those as far
/// from the line, turns strictly left between the two chains joined at it.
proof fn lemma_far_turn(s: Seq<Point>, a: Point, b: Point, c: Point, s1: Seq<Point>, s2: Seq<Point>, left: Seq<Point>, right: Seq<Point>)
    requires
        all_right_of(a, b, s),
        s.contains(c),
        forall|j: int| 0 <= j < s.len() ==> cross(a, b, c) <= cross(a, b, #[trigger] s[j]),
        forall|j: int| 0 <= j < s.len() && cross(a, b, s[j]) == cross(a, b, c) ==> along(a, b, #[trigger] s[j]) <= along(a, b, c),
        drawn_from(left, s1),
        drawn_from(right, s2),
        drawn_from(s1, s),
        drawn_from(s2, s),
        all_right_of(a, c, s1),
        all_right_of(c, b, s2),
        forall|k: int| 0 <= k < s2.len() ==> cross(a, c, #[trigger] s2[k]) >= 0,
        cross((seq![a] + left + seq![c])[left.len() as int], c, (seq![c] + right + seq![b])[1]) >= 0,
    ensures
        cross((seq![a] + left + seq![c])[left.len() as int], c, (seq![c] + right + seq![b])[1]) > 0,
{
    let u = (seq![a] + left + seq![c])[left.len() as int];
    let v = (seq![c] + right + seq![b])[1];
    let kc = choose|k: int| 0 <= k < s.len() && s[k] == c;
    assert(cross(a, b, s[kc]) < 0);
    lemma_cross_symmetries(a, b, c);
    lemma_cross_symmetries(a, c, c);
    lemma_cross_symmetries(u, c, v);
    // on s, right of a -> c and right of c -> b add up to the depth beyond c
    assert forall|x: Point| #![trigger cross(a, c, x)] true implies cross(a, c, x) + cross(c, b, x) == cross(a, b, x) - cross(a, b, c) by {
        lemma_weights_sum(a, c, b, x);
        lemma_cross_symmetries(a, b, x);
        lemma_cross_symmetries(a, c, b);
    }
    let u_inner = left.len() > 0;
    let v_inner = right.len() > 0;
    if u_inner {
        assert(u == left[left.len() - 1]);
        assert(s1.contains(left[left.len() - 1]));
    } else {
        assert(u == a);
    }
    if v_inner {
        assert(v == right[0]);
        assert(s2.contains(right[0]));
    } else {
        assert(v == b);
    }
    if cross(u, c, v) == 0 {
        if !u_inner && !v_inner {
            lemma_cross_symmetries(a, c, b);
        } else if !u_inner {
            let k = choose|k: int| 0 <= k < s2.len() && s2[k] == v;
            assert(cross(c, b, s2[k]) < 0);
            let j = choose|j: int| 0 <= j < s.len() && s[j] == v;
            assert(cross(a, b, c) <= cross(a, b, s[j]));
            assert(cross(a, c, v) + cross(c, b, v) == cross(a, b, v) - cross(a, b, c));
        } else if !v_inner {
            let k = choose|k: int| 0 <= k < s1.len() && s1[k] == u;
            assert(cross(a, c, s1[k]) < 0);
            let j = choose|j: int| 0 <= j < s.len() && s[j] == u;
            assert(cross(a, b, c) <= cross(a, b, s[j]));
            lemma_cross_symmetries(c, b, u);
            assert(cross(a, c, u) + cross(c, b, u) == cross(a, b, u) - cross(a, b, c));
        } else {
            let k1 = choose|k: int| 0 <= k < s1.len() && s1[k] == u;
            assert(cross(a, c, s1[k1]) < 0);
            let k2 = choose|k: int| 0 <= k < s2.len() && s2[k] == v;
            assert(cross(c, b, s2[k2]) < 0);
            assert(cross(a, c, s2[k2]) >= 0);
            let ju = choose|j: int| 0 <= j < s.len() && s[j] == u;
            let jv = choose|j: int| 0 <= j < s.len() && s[j] == v;
            assert(cross(a, b, c) <= cross(a, b, s[ju]));
            assert(cross(a, b, c) <= cross(a, b, s[jv]));
            assert(cross(a, c, v) + cross(c, b, v) == cross(a, b, v) - cross(a, b, c));
            assert(cross(a, c, u) + cross(c, b, u) == cross(a, b, u) - cross(a, b, c));
            assert(cross(c, u, v) == 0);
            let e = dt(u.x - c.x, u.y - c.y, u.x - c.x, u.y - c.y);
            let al = dt(u.x - c.x, u.y - c.y, v.x - c.x, v.y - c.y);
            assert(u != c);
            assert(e > 0) by (nonlinear_arith)
                requires
                    e == (u.x - c.x) * (u.x - c.x) + (u.y - c.y) * (u.y - c.y),
                    u.x != c.x || u.y != c.y,
            ;
            // across a -> c: u and v lie on opposite sides of c
            lemma_level_shift(a, c, c, u);
            lemma_level_shift(a, c, c, v);
            lemma_line_scale(c, u, v, c.x - a.x, c.y - a.y);
            let fu = cross(a, c, u);
            let fv = cross(a, c, v);
            assert(fu < 0 && fv > 0);
            assert(al < 0) by (nonlinear_arith)
                requires
                    e * fv == al * fu,
                    e > 0,
                    fv > 0,
                    fu < 0,
            ;
            // both are as far from a -> b as c
            lemma_level_shift(a, b, c, u);
            lemma_level_shift(a, b, c, v);
            lemma_line_scale(c, u, v, b.x - a.x, b.y - a.y);
            let du = cross(a, b, u) - cross(a, b, c);
            let dv = cross(a, b, v) - cross(a, b, c);
            assert(du == 0 && dv == 0) by (nonlinear_arith)
                requires
                    e * dv == al * du,
                    e > 0,
                    al < 0,
                    du >= 0,
                    dv >= 0,
            ;
            // and neither lies farther along a -> b than c
            assert(along(a, b, s[ju]) <= along(a, b, c));
            assert(along(a, b, s[jv]) <= along(a, b, c));
            lemma_along_shift(a, b, c, u);
            lemma_along_shift(a, b, c, v);
            lemma_line_scale(c, u, v, b.y - a.y, a.x - b.x);
            let tu = along(a, b, u) - along(a, b, c);
            let tv = along(a, b, v) - along(a, b, c);
            assert(tu == 0) by (nonlinear_arith)
                requires
                    e * tv == al * tu,
                    e > 0,
                    al < 0,
                    tu <= 0,
                    tv <= 0,
            ;
            assert(b.x - a.x != 0 || b.y - a.y != 0);
            assert(dt(b.x - a.x, b.y - a.y, u.x - c.x, u.y - c.y) == 0) by (nonlinear_arith)
                requires
                    cr(b.y - a.y, a.x - b.x, u.x - c.x, u.y - c.y) == 0,
            ;
            lemma_zero_vector(b.x - a.x, b.y - a.y, u.x - c.x, u.y - c.y);
        }
    }
}

/// At an end a of the left side, between a point q on the left of a -> b (or
/// b itself) and a point r on its right (or b), the turn is strict.
proof fn lemma_turn_at_start(pts: Seq<Point>, a: Point, b: Point, q: Point, r: Point)
    requires
        is_left_end(a, pts),
        pts.contains(q),
        pts.contains(r),
        q == b || cross(a, b, q) > 0,
        r == b || cross(a, b, r) < 0,
        !(q == b && r == b),
        cross(q, a, r) >= 0,
    ensures
        cross(q, a, r) > 0,
{
    lemma_cross_symmetries(q, a, r);
    lemma_cross_symmetries(a, b, q);
    lemma_cross_symmetries(a, b, r);
    lemma_cross_symmetries(a, b, a);
    if cross(q, a, r) == 0 && q != b && r != b {
        let jq = choose|j: int| 0 <= j < pts.len() && pts[j] == q;
        let jr = choose|j: int| 0 <= j < pts.len() && pts[j] == r;
        assert(a.x <= pts[jq].x && a.x <= pts[jr].x);
        assert(cross(a, q, r) == 0);
        assert(q != a);
        let e = dt(q.x - a.x, q.y - a.y, q.x - a.x, q.y - a.y);
        let al = dt(q.x - a.x, q.y - a.y, r.x - a.x, r.y - a.y);
        assert(e > 0) by (nonlinear_arith)
            requires
                e == (q.x - a.x) * (q.x - a.x) + (q.y - a.y) * (q.y - a.y),
                q.x != a.x || q.y != a.y,
        ;
        lemma_level_shift(a, b, a, q);
        lemma_level_shift(a, b, a, r);
        lemma_line_scale(a, q, r, b.x - a.x, b.y - a.y);
        assert(al < 0) by (nonlinear_arith)
            requires
                e * cross(a, b, r) == al * cross(a, b, q),
                e > 0,
                cross(a, b, r) < 0,
                cross(a, b, q) > 0,
        ;
        lemma_line_scale(a, q, r, 0, -1);
        assert(q.x == a.x && r.x == a.x) by (nonlinear_arith)
            requires
                e * cr(0, -1, r.x - a.x, r.y - a.y) == al * cr(0, -1, q.x - a.x, q.y - a.y),
                e > 0,
                al < 0,
                q.x >= a.x,
                r.x >= a.x,
        ;
        lemma_line_scale(a, q, r, 1, 0);
        assert(pts[jq].x == a.x && pts[jr].x == a.x);
        if forall|i: int| 0 <= i < pts.len() && #[trigger] pts[i].x == a.x ==> a.y <= pts[i].y {
            // a is the lowest of the leftmost points
            assert(q.y == a.y) by (nonlinear_arith)
                requires
                    e * cr(1, 0, r.x - a.x, r.y - a.y) == al * cr(1, 0, q.x - a.x, q.y - a.y),
                    e > 0,
                    al < 0,
                    q.y >= a.y,
                    r.y >= a.y,
            ;
        } else {
            // a is the highest of them
            assert(q.y == a.y) by (nonlinear_arith)
                requires
                    e * cr(1, 0, r.x - a.x, r.y - a.y) == al * cr(1, 0, q.x - a.x, q.y - a.y),
                    e > 0,
                    al < 0,
                    q.y <= a.y,
                    r.y <= a.y,
            ;
        }
    }
}

/// At the rightmost (then highest) point b, between a point q on the right of
/// a -> b (or a itself) and a point r on its left (or a), the turn is strict.
proof fn lemma_turn_at_end(pts: Seq<Point>, a: Point, b: Point, q: Point, r: Point)
    requires
        is_rightmost(b, pts),
        pts.contains(q),
        pts.contains(r),
        q == a || cross(a, b, q) < 0,
        r == a || cross(a, b, r) > 0,
        !(q == a && r == a),
        cross(q, b, r) >= 0,
    ensures
        cross(q, b, r) > 0,
{
    lemma_cross_symmetries(q, b, r);
    lemma_cross_symmetries(a, b, q);
    lemma_cross_symmetries(a, b, r);
    lemma_cross_symmetries(q, a, b);
    lemma_cross_symmetries(a, b, b);
    if cross(q, b, r) == 0 && q != a && r != a {
        let jq = choose|j: int| 0 <= j < pts.len() && pts[j] == q;
        let jr = choose|j: int| 0 <= j < pts.len() && pts[j] == r;
        assert(left_lower(pts[jq], b) && left_lower(pts[jr], b));
        assert(cross(b, q, r) == 0);
        assert(q != b);
        let e = dt(q.x - b.x, q.y - b.y, q.x - b.x, q.y - b.y);
        let al = dt(q.x - b.x, q.y - b.y, r.x - b.x, r.y - b.y);
        assert(e > 0) by (nonlinear_arith)
            requires
                e == (q.x - b.x) * (q.x - b.x) + (q.y - b.y) * (q.y - b.y),
                q.x != b.x || q.y != b.y,
        ;
        lemma_level_shift(a, b, b, q);
        lemma_level_shift(a, b, b, r);
        lemma_line_scale(b, q, r, b.x - a.x, b.y - a.y);
        assert(al < 0) by (nonlinear_arith)
            requires
                e * (cross(a, b, r) - cross(a, b, b)) == al * (cross(a, b, q) - cross(a, b, b)),
                cross(a, b, b) == 0,
                e > 0,
                cross(a, b, r) > 0,
                cross(a, b, q) < 0,
        ;
        lemma_line_scale(b, q, r, 0, -1);
        assert(q.x == b.x && r.x == b.x) by (nonlinear_arith)
            requires
                e * cr(0, -1, r.x - b.x, r.y - b.y) == al * cr(0, -1, q.x - b.x, q.y - b.y),
                e > 0,
                al < 0,
                q.x <= b.x,
                r.x <= b.x,
        ;
        lemma_line_scale(b, q, r, 1, 0);
        assert(q.y == b.y) by (nonlinear_arith)
            requires
                e * cr(1, 0, r.x - b.x, r.y - b.y) == al * cr(1, 0, q.x - b.x, q.y - b.y),
                e > 0,
                al < 0,
                q.y <= b.y,
                r.y <= b.y,
        ;
    }
}

/// The closed polygon a, lower chain, b, upper chain turns strictly left at
/// every vertex.
proof fn lemma_polygon_turns(pts: Seq<Point>, a: Point, b: Point, left: Seq<Point>, right: Seq<Point>, lower: Seq<Point>, upper: Seq<Point>)
    requires
        is_left_end(a, pts),
        is_rightmost(b, pts),
        drawn_from(left, pts),
        drawn_from(right, pts),
        forall|k: int| 0 <= k < left.len() ==> cross(a, b, #[trigger] left[k]) > 0,
        all_right_of(a, b, right),
        drawn_from(lower, right),
        drawn_from(upper, left),
        turns_left(seq![a] + lower + seq![b]),
        turns_left(seq![b] + upper + seq![a]),
        lower.len() + upper.len() > 0,
        forall|k: int| 0 <= k < (seq![a] + lower + seq![b] + upper).len() - 1
            ==> #[trigger] supports((seq![a] + lower + seq![b] + upper)[k], (seq![a] + lower + seq![b] + upper)[k + 1], pts),
        supports((seq![a] + lower + seq![b] + upper)[(seq![a] + lower + seq![b] + upper).len() - 1], a, pts),
    ensures
        ccw_chain(seq![a] + lower + seq![b] + upper),
        cross((seq![a] + lower + seq![b] + upper)[(seq![a] + lower + seq![b] + upper).len() - 2],
            (seq![a] + lower + seq![b] + upper)[(seq![a] + lower + seq![b] + upper).len() - 1], a) > 0,
        cross((seq![a] + lower + seq![b] + upper)[(seq![a] + lower + seq![b] + upper).len() - 1], a,
            (seq![a] + lower + seq![b] + upper)[1]) > 0,
{
    let lo = seq![a] + lower + seq![b];
    let up = seq![b] + upper + seq![a];
    let res = seq![a] + lower + seq![b] + upper;
    let cyc = lo + up.subrange(1, up.len() as int);
    assert(cyc =~= res.push(a));
    let n = res.len() as int;
    let nl = lower.len() as int;
    // every point of the polygon is a point of pts, on a known side of a -> b
    assert forall|i: int| 1 <= i <= nl implies cross(a, b, #[trigger] res[i]) < 0 && pts.contains(res[i]) by {
        assert(res[i] == lower[i - 1]);
        assert(right.contains(lower[i - 1]));
        let m = choose|m: int| 0 <= m < right.len() && right[m] == lower[i - 1];
        assert(cross(a, b, right[m]) < 0);
        assert(pts.contains(right[m]));
    }
    assert forall|i: int| nl + 2 <= i < n implies cross(a, b, #[trigger] res[i]) > 0 && pts.contains(res[i]) by {
        assert(res[i] == upper[i - nl - 2]);
        assert(left.contains(upper[i - nl - 2]));
        let m = choose|m: int| 0 <= m < left.len() && left[m] == upper[i - nl - 2];
        assert(cross(a, b, left[m]) > 0);
        assert(pts.contains(left[m]));
    }
    assert(res[0] == a && res[nl + 1] == b);
    // the turn at b
    let q = lo[lo.len() - 2];
    let r = up[1];
    assert(q == res[nl]);
    assert(r == if upper.len() > 0 { res[nl + 2] } else { a });
    assert(cross(q, b, r) >= 0) by {
        assert(supports(res[nl], res[nl + 1], pts));
        let j = choose|j: int| 0 <= j < pts.len() && pts[j] == r;
        assert(cross(res[nl], res[nl + 1], pts[j]) >= 0);
    }
    lemma_cross_symmetries(a, b, a);
    lemma_cross_symmetries(a, b, b);
    if nl > 0 {
        assert(cross(a, b, res[nl]) < 0);
    }
    if upper.len() > 0 {
        assert(cross(a, b, res[nl + 2]) > 0);
    }
    lemma_turn_at_end(pts, a, b, q, r);
    lemma_join_turns(lo, up);
    // the turn at a
    let q2 = res[n - 1];
    let r2 = res[1];
    assert(cross(q2, a, r2) >= 0) by {
        let j = choose|j: int| 0 <= j < pts.len() && pts[j] == r2;
        assert(cross(res[n - 1], a, pts[j]) >= 0);
    }
    if upper.len() > 0 {
        assert(cross(a, b, res[n - 1]) > 0);
    } else {
        assert(q2 == b);
    }
    if nl > 0 {
        assert(cross(a, b, res[1]) < 0);
    } else {
        assert(r2 == b);
    }
    lemma_turn_at_start(pts, a, b, q2, r2);
    assert forall|i: int| 0 <= i && i + 2 < n implies #[trigger] cross(res[i], res[i + 1], res[i + 2]) > 0 by {
        let k = i + 1;
        assert(cross(cyc[k - 1], cyc[k], cyc[k + 1]) > 0);
    }
    let k = n - 1;
    assert(cross(cyc[k - 1], cyc[k], cyc[k + 1]) > 0);
}

} // verus!
