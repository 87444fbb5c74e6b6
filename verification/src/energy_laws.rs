use vstd::prelude::*;
use crate::arith::{lemma_product_bound, lemma_trunc_div_rest, magnitude, trunc_div};
use crate::ball::{Ball, contact_line, impulse};
use crate::ball_laws::{lemma_contact_line, lemma_impulse_bound};
use crate::constants::BALL_MASS;

verus! {

/// The sum of the squares of the speeds of two balls: their kinetic energy,
/// up to the factor of half the mass that all balls share.
pub open spec fn pair_energy(a: Ball, b: Ball) -> int {
    a.vel.length_sqr() + b.vel.length_sqr()
}

/// How the energy of a pair changes when the velocity `(cx, cy)` goes over
/// from the second ball to the first.
pub proof fn lemma_energy_change(a: Ball, b: Ball, cx: int, cy: int)
    ensures
        (a.vel.x + cx) * (a.vel.x + cx) + (a.vel.y + cy) * (a.vel.y + cy) + (b.vel.x - cx) * (
        b.vel.x - cx) + (b.vel.y - cy) * (b.vel.y - cy) - pair_energy(a, b) == 2 * (cx * cx + cy
            * cy - cx * (b.vel.x - a.vel.x) - cy * (b.vel.y - a.vel.y)),
{
    let ax = a.vel.x as int;
    let ay = a.vel.y as int;
    let bx = b.vel.x as int;
    let by = b.vel.y as int;
    assert((ax + cx) * (ax + cx) + (bx - cx) * (bx - cx) - ax * ax - bx * bx == 2 * (cx * cx - cx
        * (bx - ax))) by (nonlinear_arith);
    assert((ay + cy) * (ay + cy) + (by - cy) * (by - cy) - ay * ay - by * by == 2 * (cy * cy - cy
        * (by - ay))) by (nonlinear_arith);
}

/// The part of the change of energy that comes from one axis, in terms of
/// what the rounding of the impulse along that axis left over. Here `x` is
/// the rounded impulse times the divisor `b`, `a` the dividend, `r` what was
/// left over, and `u` the difference of the velocities along the axis.
pub proof fn lemma_energy_axis(x: int, a: int, r: int, b: int, u: int)
    requires
        x == a - r,
    ensures
        x * x - b * (x * u) == (a * a - b * (a * u)) + r * (b * u - 2 * a) + r * r,
{
    assert((a - r) * (a - r) == a * a - 2 * (a * r) + r * r) by (nonlinear_arith);
    assert((a - r) * u == a * u - r * u) by (nonlinear_arith);
    assert(b * (a * u - r * u) == b * (a * u) - b * (r * u)) by (nonlinear_arith);
    assert(r * (b * u - 2 * a) == b * (r * u) - 2 * (a * r)) by (nonlinear_arith);
}

/// The exact impulse along a line loses no energy: the squares of its two
/// dividends make up the divisor times what the impulse takes from the
/// difference of the velocities.
pub proof fn lemma_energy_exact(ux: int, uy: int, tx: int, ty: int, w: int)
    ensures
        ({
            let n = ux * tx + uy * ty;
            let m = tx * tx + ty * ty;
            let ax = w * n * tx;
            let ay = w * n * ty;
            ax * ax + ay * ay == (w * m) * (ax * ux) + (w * m) * (ay * uy)
        }),
{
    let n = ux * tx + uy * ty;
    let m = tx * tx + ty * ty;
    let p = w * n;
    let ax = p * tx;
    let ay = p * ty;
    assert(ax * ax == (p * p) * (tx * tx)) by (nonlinear_arith)
        requires
            ax == p * tx,
    ;
    assert(ay * ay == (p * p) * (ty * ty)) by (nonlinear_arith)
        requires
            ay == p * ty,
    ;
    assert((p * p) * (tx * tx) + (p * p) * (ty * ty) == (p * p) * m) by (nonlinear_arith)
        requires
            m == tx * tx + ty * ty,
    ;
    assert(ax * ux + ay * uy == p * n) by (nonlinear_arith)
        requires
            ax == p * tx,
            ay == p * ty,
            n == ux * tx + uy * ty,
    ;
    assert((w * m) * (p * n) == (p * p) * m) by (nonlinear_arith)
        requires
            p == w * n,
    ;
    assert((w * m) * (ax * ux) + (w * m) * (ay * uy) == (w * m) * (ax * ux + ay * uy))
        by (nonlinear_arith);
}

/// What the rounding of the impulse along one axis is weighed with in the
/// change of energy is no larger than the divisor times the two components
/// of the difference of the velocities together.
pub proof fn lemma_energy_weight(u: int, v: int, t: int, s: int, w: int)
    requires
        w > 0,
    ensures
        ({
            let n = u * t + v * s;
            let m = t * t + s * s;
            let g = (w * m) * u - 2 * (w * n * t);
            -((w * m) * (magnitude(u) + magnitude(v))) <= g <= (w * m) * (magnitude(u)
                + magnitude(v))
        }),
{
    let n = u * t + v * s;
    let m = t * t + s * s;
    let g = (w * m) * u - 2 * (w * n * t);
    let p = s * s - t * t;
    let q = 2 * (t * s);
    assert(t * t >= 0 && s * s >= 0) by (nonlinear_arith);
    assert(-m <= q <= m) by (nonlinear_arith)
        requires
            q == 2 * (t * s),
            m == t * t + s * s,
    {
        assert((t - s) * (t - s) >= 0);
        assert((t + s) * (t + s) >= 0);
        assert((t - s) * (t - s) == t * t - 2 * (t * s) + s * s);
        assert((t + s) * (t + s) == t * t + 2 * (t * s) + s * s);
    }
    assert(m * u - 2 * (n * t) == u * p - v * q) by (nonlinear_arith)
        requires
            n == u * t + v * s,
            m == t * t + s * s,
            p == s * s - t * t,
            q == 2 * (t * s),
    ;
    lemma_product_bound(u, magnitude(u), p, m);
    lemma_product_bound(v, magnitude(v), q, m);
    let k = magnitude(u) + magnitude(v);
    let h = m * u - 2 * (n * t);
    assert(magnitude(u) * m + magnitude(v) * m == m * k) by (nonlinear_arith)
        requires
            k == magnitude(u) + magnitude(v),
    ;
    assert(-(m * k) <= h <= m * k);
    assert(g == w * h) by (nonlinear_arith)
        requires
            g == (w * m) * u - 2 * (w * n * t),
            h == m * u - 2 * (n * t),
    ;
    assert((w * m) * k == w * (m * k)) by (nonlinear_arith);
    assert(-(w * (m * k)) <= w * h <= w * (m * k)) by (nonlinear_arith)
        requires
            -(m * k) <= h <= m * k,
            w > 0,
    ;
}

/// What two roundings, each smaller than the divisor `b`, can change: less
/// than the square of the divisor times twice `k + 1`.
pub proof fn lemma_energy_rest(rx: int, ry: int, gx: int, gy: int, b: int, k: int)
    requires
        b > 0,
        k >= 0,
        -b < rx < b,
        -b < ry < b,
        -(b * k) <= gx <= b * k,
        -(b * k) <= gy <= b * k,
    ensures
        -((b * b) * (2 * k + 2)) < rx * gx + ry * gy + rx * rx + ry * ry < (b * b) * (2 * k + 2),
{
    assert(b * k >= 0) by (nonlinear_arith)
        requires
            b > 0,
            k >= 0,
    ;
    lemma_product_bound(rx, b, gx, b * k);
    lemma_product_bound(ry, b, gy, b * k);
    assert(b * (b * k) == (b * b) * k) by (nonlinear_arith);
    assert(0 <= rx * rx < b * b) by (nonlinear_arith)
        requires
            -b < rx < b,
    ;
    assert(0 <= ry * ry < b * b) by (nonlinear_arith)
        requires
            -b < ry < b,
    ;
    assert((b * b) * (2 * k + 2) == 2 * ((b * b) * k) + 2 * (b * b)) by (nonlinear_arith);
    assert((b * b) * k >= 0) by (nonlinear_arith)
        requires
            b > 0,
            k >= 0,
    ;
}

/// A collision changes the energy of a pair by less than four times the two
/// components of the difference of their velocities together, plus four:
/// only what the rounding of the impulse to whole units of speed takes or
/// gives.
pub proof fn lemma_resolved_energy(a: Ball, b: Ball)
    requires
        a.vel_in_range(),
        b.vel_in_range(),
    ensures
        magnitude(
            pair_energy(Ball::resolved(a, b).0, Ball::resolved(a, b).1) - pair_energy(a, b),
        ) < 4 * (magnitude(b.vel.x - a.vel.x) + magnitude(b.vel.y - a.vel.y)) + 4,
{
    if a.spec_overlap(b) {
        let ix = b.pos.x - a.pos.x;
        let iy = b.pos.y - a.pos.y;
        lemma_contact_line(ix, iy);
        let (tx, ty) = contact_line(ix, iy);
        let ux = b.vel.x - a.vel.x;
        let uy = b.vel.y - a.vel.y;
        let k = magnitude(ux) + magnitude(uy);
        lemma_impulse_bound(ux, uy, tx, ty, tx);
        lemma_impulse_bound(ux, uy, tx, ty, ty);
        let cx = impulse(ux, uy, tx, ty, tx);
        let cy = impulse(ux, uy, tx, ty, ty);
        let w = 2 * BALL_MASS;
        let n = ux * tx + uy * ty;
        let m = tx * tx + ty * ty;
        let d = w * m;
        let ax = w * n * tx;
        let ay = w * n * ty;
        assert(m >= 1 && w == 10);
        assert(d > 0) by (nonlinear_arith)
            requires
                d == w * m,
                w == 10,
                m >= 1,
        ;
        assert(cx == trunc_div(ax, d));
        assert(cy == trunc_div(ay, d));
        lemma_trunc_div_rest(ax, d);
        lemma_trunc_div_rest(ay, d);
        let rx = ax - cx * d;
        let ry = ay - cy * d;
        let x = cx * d;
        let y = cy * d;
        lemma_energy_axis(x, ax, rx, d, ux);
        lemma_energy_axis(y, ay, ry, d, uy);
        lemma_energy_exact(ux, uy, tx, ty, w as int);
        lemma_energy_weight(ux, uy, tx, ty, w as int);
        lemma_energy_weight(uy, ux, ty, tx, w as int);
        let gx = d * ux - 2 * ax;
        let gy = d * uy - 2 * ay;
        assert(uy * ty + ux * tx == n && ty * ty + tx * tx == m);
        lemma_energy_rest(rx, ry, gx, gy, d, k);
        let z = rx * gx + ry * gy + rx * rx + ry * ry;
        // Half of the change of energy, and the same times the square of the divisor.
        let h = cx * cx + cy * cy - cx * ux - cy * uy;
        assert(x * x + y * y - d * (x * ux) - d * (y * uy) == z);
        let dd = d * d;
        assert((cx * cx) * dd == x * x && (cx * ux) * dd == d * (x * ux)) by (nonlinear_arith)
            requires
                x == cx * d,
                dd == d * d,
        ;
        assert((cy * cy) * dd == y * y && (cy * uy) * dd == d * (y * uy)) by (nonlinear_arith)
            requires
                y == cy * d,
                dd == d * d,
        ;
        assert(h * dd == (cx * cx) * dd + (cy * cy) * dd - (cx * ux) * dd - (cy * uy) * dd)
            by (nonlinear_arith)
            requires
                h == cx * cx + cy * cy - cx * ux - cy * uy,
        ;
        assert(-(2 * k + 2) < h < 2 * k + 2) by (nonlinear_arith)
            requires
                -((d * d) * (2 * k + 2)) < h * (d * d) < (d * d) * (2 * k + 2),
                d > 0,
        ;
        lemma_energy_change(a, b, cx, cy);
    }
}

} // verus!
