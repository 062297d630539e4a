//! Properties that relate the results of the hull algorithms.

use vstd::prelude::*;
use crate::point::{Point, cross};
use crate::hull::{
    is_convex_hull, distinct, corner, is_cw_hull, refl, refl_seq, lemma_refl, lemma_refl_seq,
    lemma_refl_corner, lemma_corner_unrefl, lemma_vertex_of_every_hull, lemma_distinct_len, lemma_hull_vertex_corner,
    lemma_corner_in_every_hull, spans, lemma_end_is_end, lemma_spans_reversed, outlines, collinear_set, lists_corners, drawn_from,
};

verus! {

/// Two convex hulls of the same points have the same vertices: each vertex of
/// one is a vertex of the other, and they have equally many.
pub proof fn lemma_hulls_agree(pts: Seq<Point>, h1: Seq<Point>, h2: Seq<Point>)
    requires
        is_convex_hull(h1, pts),
        is_convex_hull(h2, pts),
    ensures
        forall|k: int| 0 <= k < h1.len() ==> h2.contains(#[trigger] h1[k]),
        forall|k: int| 0 <= k < h2.len() ==> h1.contains(#[trigger] h2[k]),
        h1.len() == h2.len(),
{
    assert forall|k: int| 0 <= k < h1.len() implies h2.contains(#[trigger] h1[k]) by {
        lemma_vertex_of_every_hull(h1, h2, pts, k);
    }
    assert forall|k: int| 0 <= k < h2.len() implies h1.contains(#[trigger] h2[k]) by {
        lemma_vertex_of_every_hull(h2, h1, pts, k);
    }
    // each is a sequence of distinct points drawn from the other
    lemma_distinct_len(h1, h2);
    lemma_distinct_len(h2, h1);
}

/// The vertices of a convex hull are exactly the corners of the points.
pub proof fn lemma_hull_vertices_are_corners(pts: Seq<Point>, h: Seq<Point>, v: Point)
    requires
        is_convex_hull(h, pts),
    ensures
        h.contains(v) <==> corner(v, pts),
{
    if h.contains(v) {
        let k = choose|k: int| 0 <= k < h.len() && h[k] == v;
        lemma_hull_vertex_corner(h, pts, k);
    }
    if corner(v, pts) {
        lemma_corner_in_every_hull(v, h, pts);
    }
}

/// A sequence of distinct points that holds every corner of the points holds
/// every vertex of any convex hull of them, and so is no shorter.
pub proof fn lemma_keeps_hull_vertices(pts: Seq<Point>, h: Seq<Point>, q: Seq<Point>)
    requires
        is_convex_hull(h, pts),
        distinct(q),
        forall|j: int| 0 <= j < pts.len() && corner(pts[j], pts) ==> q.contains(#[trigger] pts[j]),
    ensures
        forall|k: int| 0 <= k < h.len() ==> q.contains(#[trigger] h[k]),
        q.len() >= h.len(),
{
    assert forall|k: int| 0 <= k < h.len() implies q.contains(#[trigger] h[k]) by {
        lemma_hull_vertex_corner(h, pts, k);
        let j = choose|j: int| 0 <= j < pts.len() && pts[j] == h[k];
        assert(corner(pts[j], pts));
    }
    lemma_distinct_len(h, q);
}

/// A sequence of distinct corners of the points that holds every corner has
/// the same vertices as any convex hull of them, and equally many.
pub proof fn lemma_corner_polygon(pts: Seq<Point>, h: Seq<Point>, q: Seq<Point>)
    requires
        is_convex_hull(h, pts),
        distinct(q),
        forall|k: int| 0 <= k < q.len() ==> corner(#[trigger] q[k], pts),
        forall|j: int| 0 <= j < pts.len() && corner(pts[j], pts) ==> q.contains(#[trigger] pts[j]),
    ensures
        forall|k: int| 0 <= k < h.len() ==> q.contains(#[trigger] h[k]),
        forall|k: int| 0 <= k < q.len() ==> h.contains(#[trigger] q[k]),
        q.len() == h.len(),
{
    lemma_keeps_hull_vertices(pts, h, q);
    assert forall|k: int| 0 <= k < q.len() implies h.contains(#[trigger] q[k]) by {
        lemma_corner_in_every_hull(q[k], h, pts);
    }
    lemma_distinct_len(q, h);
}

/// A convex hull traversed clockwise has the same vertices as any convex hull
/// of the same points traversed counter-clockwise, and equally many.
pub proof fn lemma_cw_hull_agrees(pts: Seq<Point>, h: Seq<Point>, g: Seq<Point>)
    requires
        is_cw_hull(h, pts),
        is_convex_hull(g, pts),
    ensures
        forall|k: int| 0 <= k < h.len() ==> g.contains(#[trigger] h[k]),
        forall|k: int| 0 <= k < g.len() ==> h.contains(#[trigger] g[k]),
        h.len() == g.len(),
{
    let rh = refl_seq(h);
    let rp = refl_seq(pts);
    lemma_refl_seq(h);
    lemma_refl_seq(pts);
    assert forall|k: int| 0 <= k < h.len() implies g.contains(#[trigger] h[k]) by {
        assert(rh[k] == refl(h[k]));
        lemma_hull_vertex_corner(rh, rp, k);
        lemma_corner_unrefl(h[k], pts);
        lemma_corner_in_every_hull(h[k], g, pts);
    }
    assert forall|k: int| 0 <= k < g.len() implies h.contains(#[trigger] g[k]) by {
        lemma_hull_vertex_corner(g, pts, k);
        lemma_refl_corner(g[k], pts);
        lemma_corner_in_every_hull(refl(g[k]), rh, rp);
        lemma_refl(g[k], g[k], g[k]);
    }
    lemma_distinct_len(h, g);
    lemma_distinct_len(g, h);
}

proof fn lemma_same_prefix(pts: Seq<Point>, h1: Seq<Point>, h2: Seq<Point>, i: int)
    requires
        is_convex_hull(h1, pts),
        is_convex_hull(h2, pts),
        h1[0] == h2[0],
        h1.len() == h2.len(),
        forall|k: int| 0 <= k < h1.len() ==> h2.contains(#[trigger] h1[k]),
        forall|k: int| 0 <= k < h2.len() ==> h1.contains(#[trigger] h2[k]),
        0 <= i < h1.len(),
    ensures
        forall|j: int| 0 <= j <= i ==> h1[j] == h2[j],
    decreases i,
{
    if i > 0 {
        lemma_same_prefix(pts, h1, h2, i - 1);
        let o = h1[0];
        // h1[i] sits in h2 at some k, and h2[i] in h1 at some k2; neither is earlier than i
        let k = choose|k: int| 0 <= k < h2.len() && h2[k] == h1[i];
        let k2 = choose|k: int| 0 <= k < h1.len() && h1[k] == h2[i];
        if k != i {
            assert(k > i) by {
                if k < i {
                    assert(h1[k] == h2[k]);
                    assert(h1[k] != h1[i]);
                }
            }
            assert(k2 > i) by {
                if k2 < i {
                    assert(h1[k2] == h2[k2]);
                    assert(h2[k2] != h2[i]);
                }
                if k2 == i {
                    assert(h2[k] != h2[i]);
                }
            }
            // around o, h1 puts h1[i] before h2[i], and h2 puts them the other way
            assert(cross(o, h1[i], h1[k2]) > 0);
            assert(cross(o, h2[i], h2[k]) > 0);
            assert(cross(o, h2[i], h1[i]) == -cross(o, h1[i], h2[i])) by (nonlinear_arith);
        }
    }
}

/// Two convex hulls of the same points that start at the same vertex are the
/// same sequence.
pub proof fn lemma_hull_unique(pts: Seq<Point>, h1: Seq<Point>, h2: Seq<Point>)
    requires
        is_convex_hull(h1, pts),
        is_convex_hull(h2, pts),
        h1[0] == h2[0],
    ensures
        h1 == h2,
{
    lemma_hulls_agree(pts, h1, h2);
    lemma_same_prefix(pts, h1, h2, h1.len() - 1);
    assert(h1 =~= h2);
}

/// Two segments whose ends are points of `pts` and that each hold every point
/// have the same two ends.
pub proof fn lemma_segment_ends_agree(a: Point, b: Point, c: Point, d: Point, pts: Seq<Point>)
    requires
        spans(a, b, pts),
        spans(c, d, pts),
        pts.contains(a),
        pts.contains(b),
        pts.contains(c),
        pts.contains(d),
    ensures
        (a == c && b == d) || (a == d && b == c),
{
    lemma_end_is_end(a, b, c, d, pts);
    lemma_spans_reversed(a, b, pts);
    lemma_end_is_end(b, a, c, d, pts);
}

/// Moving the points so that `a` goes to the origin, as `Point::sub` does,
/// keeps their cross product: with u = b - a and v = c - a,
/// cross(origin, u, v) == cross(a, b, c).
pub proof fn lemma_sub_keeps_cross(a: Point, b: Point, c: Point, u: Point, v: Point)
    requires
        u.x == b.x - a.x,
        u.y == b.y - a.y,
        v.x == c.x - a.x,
        v.y == c.y - a.y,
    ensures
        cross(Point { x: 0, y: 0 }, u, v) == cross(a, b, c),
{
}

/// Two results that outline the same points hold the same points, equally many.
/// This is how the results of Graham's scan, the Jarvis march, Quickhull and
/// Chan's algorithm relate on the same input: with fewer than three points each
/// gives the points back unchanged, and otherwise each outlines them, so they
/// list the same hull vertices, possibly from another start and in the other
/// direction.
pub proof fn lemma_outlines_agree(pts: Seq<Point>, h: Seq<Point>, g: Seq<Point>)
    requires
        pts.len() < 3 ==> h == pts,
        pts.len() >= 3 ==> outlines(h, pts),
        pts.len() < 3 ==> g == pts,
        pts.len() >= 3 ==> outlines(g, pts),
    ensures
        forall|k: int| 0 <= k < h.len() ==> g.contains(#[trigger] h[k]),
        forall|k: int| 0 <= k < g.len() ==> h.contains(#[trigger] g[k]),
        h.len() == g.len(),
{
    if pts.len() < 3 {
        assert forall|k: int| 0 <= k < h.len() implies g.contains(#[trigger] h[k]) by {
            assert(g[k] == h[k]);
        }
        assert forall|k: int| 0 <= k < g.len() implies h.contains(#[trigger] g[k]) by {
            assert(h[k] == g[k]);
        }
    } else if collinear_set(pts) {
        lemma_collinear_outlines_agree(pts, h, g);
    } else {
        lemma_outline_corners(pts, h);
        lemma_outline_corners(pts, g);
        lemma_corner_lists_agree(pts, h, g);
        lemma_corner_lists_agree(pts, g, h);
    }
}

proof fn lemma_collinear_outlines_agree(pts: Seq<Point>, h: Seq<Point>, g: Seq<Point>)
    requires
        outlines(h, pts),
        outlines(g, pts),
        collinear_set(pts),
    ensures
        forall|k: int| 0 <= k < h.len() ==> g.contains(#[trigger] h[k]),
        forall|k: int| 0 <= k < g.len() ==> h.contains(#[trigger] g[k]),
        h.len() == g.len(),
{
    assert(pts.contains(h[0]) && pts.contains(g[0]));
    if h.len() == 1 || g.len() == 1 {
        // one point that every point equals; a second distinct one cannot be drawn
        let (a, b) = if h.len() == 1 { (h, g) } else { (g, h) };
        assert forall|k: int| 0 <= k < b.len() implies #[trigger] b[k] == a[0] by {
            assert(pts.contains(b[k]));
        }
        if b.len() == 2 {
            assert(b[0] == a[0] && b[1] == a[0]);
        }
        assert(b.len() == 1);
        assert(h[0] == g[0]);
        assert(h.contains(g[0]) && g.contains(h[0]));
    } else {
        assert(h.len() == 2 && g.len() == 2);
        assert(pts.contains(h[1]) && pts.contains(g[1]));
        lemma_segment_ends_agree(h[0], h[1], g[0], g[1], pts);
        assert(g.contains(h[0]) && g.contains(h[1]) && h.contains(g[0]) && h.contains(g[1]));
    }
}

/// The points of an outline of points not on one line are exactly their corners.
proof fn lemma_outline_corners(pts: Seq<Point>, h: Seq<Point>)
    requires
        outlines(h, pts),
        !collinear_set(pts),
    ensures
        lists_corners(h, pts),
{
    if is_convex_hull(h, pts) {
        assert forall|k: int| 0 <= k < h.len() implies corner(#[trigger] h[k], pts) by {
            lemma_hull_vertex_corner(h, pts, k);
        }
        assert forall|j: int| 0 <= j < pts.len() && corner(pts[j], pts) implies h.contains(#[trigger] pts[j]) by {
            lemma_corner_in_every_hull(pts[j], h, pts);
        }
    } else if is_cw_hull(h, pts) {
        // the mirror image is a counter-clockwise hull of the mirrored points
        let rh = refl_seq(h);
        let rp = refl_seq(pts);
        lemma_refl_seq(h);
        lemma_refl_seq(pts);
        assert forall|k: int| 0 <= k < h.len() implies corner(#[trigger] h[k], pts) by {
            assert(rh[k] == refl(h[k]));
            lemma_hull_vertex_corner(rh, rp, k);
            lemma_corner_unrefl(h[k], pts);
        }
        assert forall|j: int| 0 <= j < pts.len() && corner(pts[j], pts) implies h.contains(#[trigger] pts[j]) by {
            let v = pts[j];
            lemma_refl_corner(v, pts);
            lemma_corner_in_every_hull(refl(v), rh, rp);
            lemma_refl(v, v, v);
        }
    }
}

/// A sequence of distinct corners that another list of the corners holds is
/// no longer than it.
proof fn lemma_corner_lists_agree(pts: Seq<Point>, h: Seq<Point>, g: Seq<Point>)
    requires
        drawn_from(h, pts),
        distinct(h),
        lists_corners(h, pts),
        lists_corners(g, pts),
    ensures
        forall|k: int| 0 <= k < h.len() ==> g.contains(#[trigger] h[k]),
        h.len() <= g.len(),
{
    assert forall|k: int| 0 <= k < h.len() implies g.contains(#[trigger] h[k]) by {
        assert(corner(h[k], pts));
        let j = choose|j: int| 0 <= j < pts.len() && pts[j] == h[k];
        assert(corner(pts[j], pts));
    }
    lemma_distinct_len(h, g);
}

} // verus!
