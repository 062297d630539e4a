//! Facts of plane geometry over integer vectors, used by the hull proofs.
//!
//! Vectors are pairs of mathematical integers. `cr` is the cross product and
//! `dt` the dot product.

use vstd::prelude::*;

verus! {

/// Cross product of the vectors (ux, uy) and (vx, vy).
pub open spec fn cr(ux: int, uy: int, vx: int, vy: int) -> int {
    ux * vy - uy * vx
}

/// Dot product of the vectors (ux, uy) and (vx, vy).
pub open spec fn dt(ux: int, uy: int, vx: int, vy: int) -> int {
    ux * vx + uy * vy
}

pub proof fn lemma_mul_sub_sub(a: int, b: int, c: int, d: int)
    ensures
        (a - b) * (c - d) == a * c - a * d - b * c + b * d,
{
    assert((a - b) * (c - d) == a * c - a * d - b * c + b * d) by (nonlinear_arith);
}

proof fn lemma_mul_add_add(a: int, b: int, c: int, d: int)
    ensures
        (a + b) * (c + d) == a * c + a * d + b * c + b * d,
{
    assert((a + b) * (c + d) == a * c + a * d + b * c + b * d) by (nonlinear_arith);
}

proof fn lemma_mul_sub_add(a: int, b: int, c: int, d: int)
    ensures
        (a - b) * (c + d) == a * c + a * d - b * c - b * d,
{
    assert((a - b) * (c + d) == a * c + a * d - b * c - b * d) by (nonlinear_arith);
}

proof fn lemma_mul4(a: int, b: int, c: int, d: int)
    ensures
        (a * b) * (c * d) == a * (b * (c * d)),
        (a * b) * (c * d) == (a * c) * (b * d),
        (a * b) * (c * d) == (a * d) * (b * c),
        (a * b) * (c * d) == (c * d) * (a * b),
        (a * b) * (c * d) == (b * a) * (c * d),
        (a * b) * (c * d) == (a * b) * (d * c),
{
    vstd::arithmetic::mul::lemma_mul_is_associative(a, b, c * d);
    assert((a * b) * (c * d) == (a * c) * (b * d)) by (nonlinear_arith);
    assert((a * b) * (c * d) == (a * d) * (b * c)) by (nonlinear_arith);
    assert((a * b) * (c * d) == (b * a) * (c * d)) by (nonlinear_arith);
    assert((a * b) * (c * d) == (c * d) * (a * b)) by (nonlinear_arith);
    assert((a * b) * (c * d) == (a * b) * (d * c)) by (nonlinear_arith);
}

/// The three cross products of three vectors, weighted by their cross products
/// with a fourth vector, sum to zero.
pub proof fn lemma_cross_identity(ex: int, ey: int, ux: int, uy: int, vx: int, vy: int, wx: int, wy: int)
    ensures
        cr(ux, uy, vx, vy) * cr(ex, ey, wx, wy) + cr(vx, vy, wx, wy) * cr(ex, ey, ux, uy)
            + cr(wx, wy, ux, uy) * cr(ex, ey, vx, vy) == 0,
{
    lemma_mul_sub_sub(ux * vy, uy * vx, ex * wy, ey * wx);
    lemma_mul_sub_sub(vx * wy, vy * wx, ex * uy, ey * ux);
    lemma_mul_sub_sub(wx * uy, wy * ux, ex * vy, ey * vx);
    // monomials of the first product
    lemma_mul4(ux, vy, ex, wy);
    lemma_mul4(ux, vy, ey, wx);
    lemma_mul4(uy, vx, ex, wy);
    lemma_mul4(uy, vx, ey, wx);
    // second product
    lemma_mul4(vx, wy, ex, uy);
    lemma_mul4(vx, wy, ey, ux);
    lemma_mul4(vy, wx, ex, uy);
    lemma_mul4(vy, wx, ey, ux);
    // third product
    lemma_mul4(wx, uy, ex, vy);
    lemma_mul4(wx, uy, ey, vx);
    lemma_mul4(wy, ux, ex, vy);
    lemma_mul4(wy, ux, ey, vx);
    assert((ux * vy) * (ex * wy) == (wy * ux) * (ex * vy)) by (nonlinear_arith);
    assert((ux * vy) * (ey * wx) == (vy * wx) * (ey * ux)) by (nonlinear_arith);
    assert((uy * vx) * (ex * wy) == (vx * wy) * (ex * uy)) by (nonlinear_arith);
    assert((uy * vx) * (ey * wx) == (wx * uy) * (ey * vx)) by (nonlinear_arith);
    assert((vx * wy) * (ey * ux) == (wy * ux) * (ey * vx)) by (nonlinear_arith);
    assert((vy * wx) * (ex * uy) == (wx * uy) * (ex * vy)) by (nonlinear_arith);
}

/// A vector decomposed along another one and its normal.
pub proof fn lemma_decompose(ex: int, ey: int, ux: int, uy: int, vx: int, vy: int)
    ensures
        cr(ex, ey, vx, vy) * dt(ux, uy, ux, uy) == dt(ux, uy, vx, vy) * cr(ex, ey, ux, uy)
            + cr(ux, uy, vx, vy) * dt(ex, ey, ux, uy),
{
    lemma_mul_sub_add(ex * vy, ey * vx, ux * ux, uy * uy);
    lemma_mul_add_add(ux * vx, uy * vy, ex * uy, -(ey * ux));
    lemma_mul_add_add(ux * vy, -(uy * vx), ex * ux, ey * uy);
    assert((ex * vy) * (ux * ux) == (ux * vy) * (ex * ux)) by (nonlinear_arith);
    assert((ex * vy) * (uy * uy) == (uy * vy) * (ex * uy)) by (nonlinear_arith);
    assert((ey * vx) * (ux * ux) == (ux * vx) * (ey * ux)) by (nonlinear_arith);
    assert((ey * vx) * (uy * uy) == (uy * vx) * (ey * uy)) by (nonlinear_arith);
    assert((ux * vx) * (ex * uy) == (uy * vx) * (ex * ux)) by (nonlinear_arith);
    assert((uy * vy) * (ey * ux) == (ux * vy) * (ey * uy)) by (nonlinear_arith);
    assert((ux * vx) * -(ey * ux) == -((ux * vx) * (ey * ux))) by (nonlinear_arith);
    assert((uy * vy) * -(ey * ux) == -((uy * vy) * (ey * ux))) by (nonlinear_arith);
    assert(-(uy * vx) * (ex * ux) == -((uy * vx) * (ex * ux))) by (nonlinear_arith);
    assert(-(uy * vx) * (ey * uy) == -((uy * vx) * (ey * uy))) by (nonlinear_arith);
}

/// Lagrange's identity in the plane.
pub proof fn lemma_lagrange(ux: int, uy: int, vx: int, vy: int)
    ensures
        dt(ux, uy, vx, vy) * dt(ux, uy, vx, vy) + cr(ux, uy, vx, vy) * cr(ux, uy, vx, vy)
            == dt(ux, uy, ux, uy) * dt(vx, vy, vx, vy),
{
    lemma_mul_add_add(ux * vx, uy * vy, ux * vx, uy * vy);
    lemma_mul_sub_sub(ux * vy, uy * vx, ux * vy, uy * vx);
    lemma_mul_add_add(ux * ux, uy * uy, vx * vx, vy * vy);
    assert((ux * vx) * (uy * vy) == (ux * vy) * (uy * vx)) by (nonlinear_arith);
    assert((uy * vy) * (ux * vx) == (ux * vy) * (uy * vx)) by (nonlinear_arith);
    assert((uy * vx) * (ux * vy) == (ux * vy) * (uy * vx)) by (nonlinear_arith);
    assert((ux * vx) * (ux * vx) == (ux * ux) * (vx * vx)) by (nonlinear_arith);
    assert((uy * vy) * (uy * vy) == (uy * uy) * (vy * vy)) by (nonlinear_arith);
    assert((ux * vy) * (ux * vy) == (ux * ux) * (vy * vy)) by (nonlinear_arith);
    assert((uy * vx) * (uy * vx) == (uy * uy) * (vx * vx)) by (nonlinear_arith);
}

/// Angular order is transitive among vectors of an open half-plane
/// (the vectors with positive cross product against `e`).
pub proof fn lemma_open_fan(ex: int, ey: int, ux: int, uy: int, vx: int, vy: int, wx: int, wy: int)
    requires
        cr(ex, ey, ux, uy) > 0,
        cr(ex, ey, vx, vy) > 0,
        cr(ex, ey, wx, wy) > 0,
    ensures
        cr(ux, uy, vx, vy) > 0 && cr(vx, vy, wx, wy) >= 0 ==> cr(ux, uy, wx, wy) > 0,
        cr(ux, uy, vx, vy) >= 0 && cr(vx, vy, wx, wy) > 0 ==> cr(ux, uy, wx, wy) > 0,
        cr(ux, uy, vx, vy) == 0 && cr(vx, vy, wx, wy) == 0 ==> cr(ux, uy, wx, wy) == 0,
        cr(ux, uy, vx, vy) == 0 ==> dt(ux, uy, vx, vy) > 0,
{
    lemma_cross_identity(ex, ey, ux, uy, vx, vy, wx, wy);
    let a = cr(ux, uy, vx, vy);
    let b = cr(vx, vy, wx, wy);
    let c = cr(wx, wy, ux, uy);
    let eu = cr(ex, ey, ux, uy);
    let ev = cr(ex, ey, vx, vy);
    let ew = cr(ex, ey, wx, wy);
    assert(cr(ux, uy, wx, wy) == -c);
    assert(a > 0 && b >= 0 ==> c < 0) by (nonlinear_arith)
        requires
            a * ew + b * eu + c * ev == 0,
            eu > 0,
            ev > 0,
            ew > 0,
    ;
    assert(a >= 0 && b > 0 ==> c < 0) by (nonlinear_arith)
        requires
            a * ew + b * eu + c * ev == 0,
            eu > 0,
            ev > 0,
            ew > 0,
    ;
    assert(a == 0 && b == 0 ==> c == 0) by (nonlinear_arith)
        requires
            a * ew + b * eu + c * ev == 0,
            ev > 0,
    ;
    lemma_decompose(ex, ey, ux, uy, vx, vy);
    let uu = dt(ux, uy, ux, uy);
    let uv = dt(ux, uy, vx, vy);
    let eud = dt(ex, ey, ux, uy);
    assert(uu > 0) by (nonlinear_arith)
        requires
            eu > 0,
            eu == ex * uy - ey * ux,
            uu == ux * ux + uy * uy,
    ;
    assert(a == 0 ==> uv > 0) by (nonlinear_arith)
        requires
            ev * uu == uv * eu + a * eud,
            eu > 0,
            ev > 0,
            uu > 0,
    ;
}

/// The vector v lies in the half-open half-plane on the left of d, with the
/// boundary ray pointing along d (side = 1) or against d (side = -1) included.
pub open spec fn in_half_plane(dx: int, dy: int, side: int, vx: int, vy: int) -> bool {
    cr(dx, dy, vx, vy) > 0 || (cr(dx, dy, vx, vy) == 0 && side * dt(dx, dy, vx, vy) > 0)
}

proof fn lemma_tilt(dx: int, dy: int, side: int, k: int, vx: int, vy: int)
    requires
        side == 1 || side == -1,
        in_half_plane(dx, dy, side, vx, vy),
        k > dt(dx, dy, vx, vy),
        k > -dt(dx, dy, vx, vy),
    ensures
        cr(k * dx + side * dy, k * dy - side * dx, vx, vy) > 0,
{
    let c = cr(dx, dy, vx, vy);
    let t = dt(dx, dy, vx, vy);
    assert((k * dx + side * dy) * vy == (k * dx) * vy + (side * dy) * vy) by (nonlinear_arith);
    assert((k * dy - side * dx) * vx == (k * dy) * vx - (side * dx) * vx) by (nonlinear_arith);
    assert((k * dx) * vy == k * (dx * vy)) by (nonlinear_arith);
    assert((k * dy) * vx == k * (dy * vx)) by (nonlinear_arith);
    assert((side * dy) * vy == side * (dy * vy)) by (nonlinear_arith);
    assert((side * dx) * vx == side * (dx * vx)) by (nonlinear_arith);
    assert(k * (dx * vy) - k * (dy * vx) == k * c) by (nonlinear_arith)
        requires
            c == dx * vy - dy * vx,
    ;
    assert(side * (dy * vy) + side * (dx * vx) == side * t) by (nonlinear_arith)
        requires
            t == dx * vx + dy * vy,
    ;
    assert(k * c + side * t > 0) by (nonlinear_arith)
        requires
            c > 0 || (c == 0 && side * t > 0),
            side == 1 || side == -1,
            k > t,
            k > -t,
    ;
}

/// Angular order is transitive among the vectors of a half-open half-plane.
pub proof fn lemma_half_fan(dx: int, dy: int, side: int, ux: int, uy: int, vx: int, vy: int, wx: int, wy: int)
    requires
        side == 1 || side == -1,
        in_half_plane(dx, dy, side, ux, uy),
        in_half_plane(dx, dy, side, vx, vy),
        in_half_plane(dx, dy, side, wx, wy),
    ensures
        cr(ux, uy, vx, vy) > 0 && cr(vx, vy, wx, wy) >= 0 ==> cr(ux, uy, wx, wy) > 0,
        cr(ux, uy, vx, vy) >= 0 && cr(vx, vy, wx, wy) > 0 ==> cr(ux, uy, wx, wy) > 0,
        cr(ux, uy, vx, vy) == 0 && cr(vx, vy, wx, wy) == 0 ==> cr(ux, uy, wx, wy) == 0,
        cr(ux, uy, vx, vy) == 0 ==> dt(ux, uy, vx, vy) > 0,
{
    let a = dt(dx, dy, ux, uy);
    let b = dt(dx, dy, vx, vy);
    let c = dt(dx, dy, wx, wy);
    let k = (if a >= 0 { a } else { -a }) + (if b >= 0 { b } else { -b }) + (if c >= 0 { c } else { -c }) + 1;
    lemma_tilt(dx, dy, side, k, ux, uy);
    lemma_tilt(dx, dy, side, k, vx, vy);
    lemma_tilt(dx, dy, side, k, wx, wy);
    lemma_open_fan(k * dx + side * dy, k * dy - side * dx, ux, uy, vx, vy, wx, wy);
}

/// A vector with no component along (bx, by) nor across it is zero, when
/// (bx, by) is not.
pub proof fn lemma_zero_vector(bx: int, by: int, wx: int, wy: int)
    requires
        bx != 0 || by != 0,
        cr(bx, by, wx, wy) == 0,
        dt(bx, by, wx, wy) == 0,
    ensures
        wx == 0 && wy == 0,
{
    lemma_lagrange(bx, by, wx, wy);
    assert(dt(bx, by, bx, by) > 0) by (nonlinear_arith)
        requires
            bx != 0 || by != 0,
    ;
    assert(dt(wx, wy, wx, wy) == 0) by (nonlinear_arith)
        requires
            0 * 0 + 0 * 0 == dt(bx, by, bx, by) * dt(wx, wy, wx, wy),
            dt(bx, by, bx, by) > 0,
    ;
    assert(wx == 0 && wy == 0) by (nonlinear_arith)
        requires
            wx * wx + wy * wy == 0,
    ;
}

} // verus!
