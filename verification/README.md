# convex_hull_rs

Convex hulls of finite sets of points with integer coordinates, verified with
Verus: Graham scan, Jarvis march (gift wrapping), Quickhull and Chan's
algorithm. Every geometric decision goes through an exact orientation test
computed in 128-bit integers.

## What is proved

- `graham_scan` and `jarvis_march` return, for points that do not all lie on
  one line, a convex hull in the sense of `is_convex_hull`: distinct input
  points, counter-clockwise with strict turns, and every input point on the
  left of or on every edge. `chans_algorithm` returns the same hull traversed
  clockwise (`is_cw_hull`). On points of one line each returns the two ends of
  the segment that holds them, and the single point when all points are equal.
- `quickhull` returns, for points not on one line, a counter-clockwise polygon
  of distinct input points with strict turns, every input point on the left
  of or on each edge, whose vertices are exactly the corners of the points.
- A round of Chan's algorithm gives up (`None`) only when every convex hull of
  the points has more vertices than the candidate size.
- All four algorithms return an outline of the points (`outlines`), and
  `lemma_outlines_agree` shows that any two such results hold the same points,
  equally many.
- `quickhull` starts from the first point, in input order, that ends the left
  side of the points (the lowest or highest of those with the least x).
- `laws.rs` relates the results: two convex hulls of the same points have the
  same vertices, and are the same sequence when they start at the same vertex;
  a clockwise hull has the vertices of a counter-clockwise one; the vertices
  of a convex hull are exactly the corners; a polygon of corners that holds
  every corner has the hull's vertices; segments that hold every point have
  the same ends.

## Layout

- `src/point.rs`: points, cross product, orientation.
- `src/geometry.rs`: identities of integer vectors.
- `src/hull.rs`: what a convex hull is, and facts shared by the algorithms.
- `src/graham.rs`, `src/jarvis.rs`, `src/quickhull.rs`, `src/chan.rs`: the
  algorithms.
- `src/laws.rs`: properties that relate the results.
- `app/lib.rs`: floating-point helpers (distance, polar angle, printing).
- `tests/`: tests of the library.
