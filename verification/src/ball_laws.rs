use vstd::prelude::*;
use crate::arith::{
    ceil_div, is_floor_sqrt, lemma_ceil_div, lemma_floor_sqrt_exists, lemma_product_bound,
    lemma_square_monotonic, lemma_trunc_div_bound, magnitude, trunc_div,
};
use crate::ball::{Ball, contact_line, fine_length, impulse, rise, stretched};
use crate::constants::{
    BALL_DIAMETER, BALL_MASS, BALL_RADIUS, COORD_LIMIT, INITIAL_SPEED, LENGTH_PRECISION,
    TICKS_PER_SECOND, WINDOW_HEIGHT, WINDOW_WIDTH,
};

verus! {

/// After a step, a ball whose edge is beyond a wall does not move further
/// into that wall: its velocity points back into the arena or is zero.
pub proof fn lemma_updated_leaves_walls(b: Ball, delta: i64)
    ensures
        b.updated(delta).pos.x - BALL_RADIUS < 0 ==> b.updated(delta).vel.x >= 0,
        WINDOW_WIDTH < b.updated(delta).pos.x + BALL_RADIUS ==> b.updated(delta).vel.x <= 0,
        b.updated(delta).pos.y - BALL_RADIUS < 0 ==> b.updated(delta).vel.y >= 0,
        WINDOW_HEIGHT < b.updated(delta).pos.y + BALL_RADIUS ==> b.updated(delta).vel.y <= 0,
{
}

/// A step of non-negative length goes the way the speed points.
pub proof fn lemma_step_direction(v: i64, delta: i64)
    requires
        delta >= 0,
    ensures
        v >= 0 ==> trunc_div(v * delta, TICKS_PER_SECOND as int) >= 0,
        v <= 0 ==> trunc_div(v * delta, TICKS_PER_SECOND as int) <= 0,
{
    assert(v >= 0 ==> v * delta >= 0) by (nonlinear_arith)
        requires
            delta >= 0,
    ;
    assert(v <= 0 ==> v * delta <= 0) by (nonlinear_arith)
        requires
            delta >= 0,
    ;
    lemma_trunc_div_bound(v * delta, TICKS_PER_SECOND as int);
}

/// A ball whose edge is beyond a wall after a step is no further beyond it
/// after the next step, however long that step takes.
pub proof fn lemma_updated_returns(b: Ball, delta: i64, next: i64)
    requires
        next >= 0,
    ensures
        b.updated(delta).pos.x - BALL_RADIUS < 0 ==> b.updated(delta).updated(next).pos.x
            >= b.updated(delta).pos.x,
        WINDOW_WIDTH < b.updated(delta).pos.x + BALL_RADIUS ==> b.updated(delta).updated(
            next,
        ).pos.x <= b.updated(delta).pos.x,
        b.updated(delta).pos.y - BALL_RADIUS < 0 ==> b.updated(delta).updated(next).pos.y
            >= b.updated(delta).pos.y,
        WINDOW_HEIGHT < b.updated(delta).pos.y + BALL_RADIUS ==> b.updated(delta).updated(
            next,
        ).pos.y <= b.updated(delta).pos.y,
{
    let c = b.updated(delta);
    lemma_updated_leaves_walls(b, delta);
    lemma_step_direction(c.vel.x, next);
    lemma_step_direction(c.vel.y, next);
}

/// A step with the opposite speed is the opposite step.
pub proof fn lemma_step_opposite(v: i64, delta: i64)
    ensures
        trunc_div((-v) * delta, TICKS_PER_SECOND as int) == -trunc_div(
            v * delta,
            TICKS_PER_SECOND as int,
        ),
{
    assert((-v) * delta == -(v * delta)) by (nonlinear_arith);
}

/// A step of at most a second is no longer than the speed.
pub proof fn lemma_step_size(v: i64, delta: i64)
    requires
        0 <= delta <= TICKS_PER_SECOND,
    ensures
        magnitude(trunc_div(v * delta, TICKS_PER_SECOND as int)) <= magnitude(v as int),
{
    let t = TICKS_PER_SECOND as int;
    let a = magnitude(v as int);
    let m = magnitude(v * delta);
    assert(m == a * delta) by (nonlinear_arith)
        requires
            a == magnitude(v as int),
            m == magnitude(v * delta),
            delta >= 0,
    ;
    assert(m / t <= a) by (nonlinear_arith)
        requires
            m == a * delta,
            0 <= delta <= t,
            a >= 0,
            t > 0,
    ;
}

/// With steps of one length, a ball that is within the walls and crosses
/// one of them in a step is back where it was after the next step: it is
/// beyond a wall for one step at most. This holds of every step that is
/// itself within the coordinate limit.
pub proof fn lemma_updated_back_inside(b: Ball, delta: i64)
    requires
        delta >= 0,
        b.vel.x > i64::MIN,
        b.vel.y > i64::MIN,
        magnitude(trunc_div(b.vel.x * delta, TICKS_PER_SECOND as int)) <= COORD_LIMIT,
        magnitude(trunc_div(b.vel.y * delta, TICKS_PER_SECOND as int)) <= COORD_LIMIT,
        BALL_RADIUS <= b.pos.x <= WINDOW_WIDTH - BALL_RADIUS,
        BALL_RADIUS <= b.pos.y <= WINDOW_HEIGHT - BALL_RADIUS,
    ensures
        (b.updated(delta).pos.x - BALL_RADIUS < 0 || WINDOW_WIDTH < b.updated(delta).pos.x
            + BALL_RADIUS) ==> b.updated(delta).updated(delta).pos.x == b.pos.x,
        (b.updated(delta).pos.y - BALL_RADIUS < 0 || WINDOW_HEIGHT < b.updated(delta).pos.y
            + BALL_RADIUS) ==> b.updated(delta).updated(delta).pos.y == b.pos.y,
{
    lemma_step_direction(b.vel.x, delta);
    lemma_step_direction(b.vel.y, delta);
    lemma_step_opposite(b.vel.x, delta);
    lemma_step_opposite(b.vel.y, delta);
}

/// With steps of one length of at most a second, a ball within the walls
/// whose speed is within the coordinate limit is beyond a wall for one step
/// at most.
pub proof fn lemma_updated_back_inside_slow(b: Ball, delta: i64)
    requires
        0 <= delta <= TICKS_PER_SECOND,
        b.vel_in_range(),
        BALL_RADIUS <= b.pos.x <= WINDOW_WIDTH - BALL_RADIUS,
        BALL_RADIUS <= b.pos.y <= WINDOW_HEIGHT - BALL_RADIUS,
    ensures
        (b.updated(delta).pos.x - BALL_RADIUS < 0 || WINDOW_WIDTH < b.updated(delta).pos.x
            + BALL_RADIUS) ==> b.updated(delta).updated(delta).pos.x == b.pos.x,
        (b.updated(delta).pos.y - BALL_RADIUS < 0 || WINDOW_HEIGHT < b.updated(delta).pos.y
            + BALL_RADIUS) ==> b.updated(delta).updated(delta).pos.y == b.pos.y,
{
    lemma_step_size(b.vel.x, delta);
    lemma_step_size(b.vel.y, delta);
    lemma_updated_back_inside(b, delta);
}

/// Two centres that are a diameter or more apart along one axis are at least
/// a diameter apart.
pub proof fn lemma_far_apart(ix: int, iy: int)
    requires
        magnitude(ix) >= BALL_DIAMETER || magnitude(iy) >= BALL_DIAMETER,
    ensures
        ix * ix + iy * iy >= BALL_DIAMETER * BALL_DIAMETER,
{
    let d = BALL_DIAMETER as int;
    assert(ix * ix >= 0 && iy * iy >= 0) by (nonlinear_arith);
    if magnitude(ix) >= d {
        lemma_square_monotonic(d, magnitude(ix));
        assert(magnitude(ix) * magnitude(ix) == ix * ix) by (nonlinear_arith)
            requires
                magnitude(ix) == ix || magnitude(ix) == -ix,
        ;
    } else {
        lemma_square_monotonic(d, magnitude(iy));
        assert(magnitude(iy) * magnitude(iy) == iy * iy) by (nonlinear_arith)
            requires
                magnitude(iy) == iy || magnitude(iy) == -iy,
        ;
    }
}

/// The length of a line that is not a point, in parts of a unit, is at
/// least one unit, and it is shorter than a diameter if the line is.
pub proof fn lemma_fine_length(ix: int, iy: int)
    requires
        ix != 0 || iy != 0,
    ensures
        is_floor_sqrt(
            (ix * ix + iy * iy) * (LENGTH_PRECISION * LENGTH_PRECISION),
            fine_length(ix, iy),
        ),
        fine_length(ix, iy) >= LENGTH_PRECISION,
        ix * ix + iy * iy < BALL_DIAMETER * BALL_DIAMETER ==> fine_length(ix, iy) < BALL_DIAMETER
            * LENGTH_PRECISION,
{
    let k = LENGTH_PRECISION as int;
    let d = BALL_DIAMETER as int;
    let n = ix * ix + iy * iy;
    assert(ix * ix >= 0 && iy * iy >= 0) by (nonlinear_arith);
    assert(n >= 1) by (nonlinear_arith)
        requires
            n == ix * ix + iy * iy,
            ix != 0 || iy != 0,
    ;
    assert(n * (k * k) >= k * k) by (nonlinear_arith)
        requires
            n >= 1,
    ;
    lemma_floor_sqrt_exists(n * (k * k));
    let len = fine_length(ix, iy);
    if len < k {
        lemma_square_monotonic(len + 1, k);
    }
    if n < d * d && len >= d * k {
        lemma_square_monotonic(d * k, len);
        assert((d * k) * (d * k) == (d * d) * (k * k)) by (nonlinear_arith);
        assert(n * (k * k) < (d * d) * (k * k)) by (nonlinear_arith)
            requires
                n < d * d,
                k * k > 0,
        ;
    }
}

/// A stretched component keeps the sign of the component, reaches the
/// component's share of a diameter, and is at most a diameter long.
pub proof fn lemma_stretched(c: int, other: int, len: int)
    requires
        len >= 1,
        is_floor_sqrt((c * c + other * other) * (LENGTH_PRECISION * LENGTH_PRECISION), len),
    ensures
        magnitude(stretched(c, len)) * len >= magnitude(c) * (BALL_DIAMETER * LENGTH_PRECISION),
        magnitude(stretched(c, len)) <= BALL_DIAMETER,
        magnitude(stretched(c, len)) * magnitude(stretched(c, len)) == stretched(c, len)
            * stretched(c, len),
        magnitude(c) * LENGTH_PRECISION <= len,
        magnitude(c) * magnitude(c) == c * c,
        c >= 0 ==> stretched(c, len) >= 0,
        c <= 0 ==> stretched(c, len) <= 0,
{
    let d = BALL_DIAMETER as int;
    let k = LENGTH_PRECISION as int;
    let a = magnitude(c);
    assert(a * a == c * c) by (nonlinear_arith)
        requires
            a == c || a == -c,
    ;
    assert(other * other >= 0) by (nonlinear_arith);
    assert((a * k) * (a * k) == (a * a) * (k * k)) by (nonlinear_arith);
    assert((a * a) * (k * k) <= (c * c + other * other) * (k * k)) by (nonlinear_arith)
        requires
            a * a == c * c,
            other * other >= 0,
    ;
    assert(a * k >= 0) by (nonlinear_arith)
        requires
            a >= 0,
            k >= 0,
    ;
    if a * k > len {
        lemma_square_monotonic(len + 1, a * k);
    }
    assert(a * (d * k) == (a * k) * d) by (nonlinear_arith);
    assert((a * k) * d >= 0) by (nonlinear_arith)
        requires
            a * k >= 0,
            d >= 0,
    ;
    lemma_ceil_div(a * (d * k), len);
    let q = ceil_div(a * (d * k), len);
    assert(q <= d) by (nonlinear_arith)
        requires
            (q - 1) * len < (a * k) * d,
            a * k <= len,
            len >= 1,
            d >= 0,
    ;
    let t = stretched(c, len);
    assert(magnitude(t) == q);
    assert(magnitude(t) * magnitude(t) == t * t) by (nonlinear_arith)
        requires
            magnitude(t) == t || magnitude(t) == -t,
    ;
}

/// The contact line is at least a diameter long, and neither of its
/// components is longer than a diameter.
pub proof fn lemma_contact_line(ix: int, iy: int)
    ensures
        ({
            let (tx, ty) = contact_line(ix, iy);
            &&& tx * tx + ty * ty >= BALL_DIAMETER * BALL_DIAMETER
            &&& -BALL_DIAMETER <= tx <= BALL_DIAMETER
            &&& -BALL_DIAMETER <= ty <= BALL_DIAMETER
        }),
{
    let d = BALL_DIAMETER as int;
    let k = LENGTH_PRECISION as int;
    if ix == 0 && iy == 0 {
    } else {
        let n = ix * ix + iy * iy;
        lemma_fine_length(ix, iy);
        let len = fine_length(ix, iy);
        lemma_stretched(ix, iy, len);
        lemma_stretched(iy, ix, len);
        let tx = stretched(ix, len);
        let ty = stretched(iy, len);
        let ax = magnitude(ix);
        let ay = magnitude(iy);
        let sx = magnitude(tx);
        let sy = magnitude(ty);
        let r = d * k;
        assert(ax * r >= 0 && ay * r >= 0) by (nonlinear_arith)
            requires
                ax >= 0,
                ay >= 0,
                r >= 0,
        ;
        lemma_square_monotonic(ax * r, sx * len);
        lemma_square_monotonic(ay * r, sy * len);
        let ll = len * len;
        let dd = d * d;
        let rr = r * r;
        let tt = tx * tx + ty * ty;
        assert((ax * r) * (ax * r) == (ax * ax) * rr) by (nonlinear_arith)
            requires
                rr == r * r,
        ;
        assert((ay * r) * (ay * r) == (ay * ay) * rr) by (nonlinear_arith)
            requires
                rr == r * r,
        ;
        assert((sx * len) * (sx * len) == (sx * sx) * ll) by (nonlinear_arith)
            requires
                ll == len * len,
        ;
        assert((sy * len) * (sy * len) == (sy * sy) * ll) by (nonlinear_arith)
            requires
                ll == len * len,
        ;
        assert((ax * ax) * rr + (ay * ay) * rr == n * rr) by (nonlinear_arith)
            requires
                n == ax * ax + ay * ay,
        ;
        assert((sx * sx) * ll + (sy * sy) * ll == tt * ll) by (nonlinear_arith)
            requires
                tt == sx * sx + sy * sy,
        ;
        assert(n * rr == (n * (k * k)) * dd) by (nonlinear_arith)
            requires
                rr == (d * k) * (d * k),
                dd == d * d,
        ;
        assert((n * (k * k)) * dd >= ll * dd) by (nonlinear_arith)
            requires
                n * (k * k) >= ll,
                dd >= 0,
        ;
        lemma_square_monotonic(1, len);
        assert(tt >= dd) by (nonlinear_arith)
            requires
                tt * ll >= ll * dd,
                ll >= 1,
        ;
    }
}

/// A stretched component, times the length of the line, exceeds the
/// component's share of a diameter by less than that length.
pub proof fn lemma_stretched_close(c: int, other: int, len: int)
    requires
        len >= 1,
        is_floor_sqrt((c * c + other * other) * (LENGTH_PRECISION * LENGTH_PRECISION), len),
    ensures
        magnitude(stretched(c, len)) * len <= magnitude(c) * (BALL_DIAMETER * LENGTH_PRECISION)
            + len,
        magnitude(c) * (BALL_DIAMETER * LENGTH_PRECISION) <= len * BALL_DIAMETER,
        magnitude(c) * (BALL_DIAMETER * LENGTH_PRECISION) >= 0,
{
    let d = BALL_DIAMETER as int;
    let k = LENGTH_PRECISION as int;
    let a = magnitude(c);
    lemma_stretched(c, other, len);
    assert(a * (d * k) == (a * k) * d) by (nonlinear_arith);
    assert((a * k) * d <= len * d) by (nonlinear_arith)
        requires
            a * k <= len,
            d >= 0,
    ;
    assert(a * (d * k) >= 0) by (nonlinear_arith)
        requires
            a >= 0,
            d * k >= 0,
    ;
    lemma_ceil_div(a * (d * k), len);
    let q = ceil_div(a * (d * k), len);
    assert(magnitude(stretched(c, len)) == q);
    assert((q - 1) * len == q * len - len) by (nonlinear_arith);
}

/// The contact line is less than 8 length units longer than a diameter.
pub proof fn lemma_contact_line_close(ix: int, iy: int)
    ensures
        ({
            let (tx, ty) = contact_line(ix, iy);
            tx * tx + ty * ty < (BALL_DIAMETER + 8) * (BALL_DIAMETER + 8)
        }),
{
    let d = BALL_DIAMETER as int;
    let k = LENGTH_PRECISION as int;
    if ix == 0 && iy == 0 {
        let (tx, ty) = contact_line(ix, iy);
        assert(tx * tx + ty * ty < (d + 8) * (d + 8)) by (nonlinear_arith)
            requires
                tx == d,
                ty == 0,
                d == 4096,
        ;
    } else {
        let n = ix * ix + iy * iy;
        lemma_fine_length(ix, iy);
        let len = fine_length(ix, iy);
        lemma_stretched(ix, iy, len);
        lemma_stretched(iy, ix, len);
        lemma_stretched_close(ix, iy, len);
        lemma_stretched_close(iy, ix, len);
        let tx = stretched(ix, len);
        let ty = stretched(iy, len);
        let ax = magnitude(ix);
        let ay = magnitude(iy);
        let sx = magnitude(tx);
        let sy = magnitude(ty);
        let r = d * k;
        let ll = len * len;
        let tt = tx * tx + ty * ty;
        // What the two components of the share of a diameter come to.
        let px = ax * r;
        let py = ay * r;
        assert(sx * len >= 0 && sy * len >= 0) by (nonlinear_arith)
            requires
                sx >= 0,
                sy >= 0,
                len >= 1,
        ;
        lemma_square_monotonic(sx * len, px + len);
        lemma_square_monotonic(sy * len, py + len);
        assert((sx * len) * (sx * len) == (sx * sx) * ll) by (nonlinear_arith)
            requires
                ll == len * len,
        ;
        assert((sy * len) * (sy * len) == (sy * sy) * ll) by (nonlinear_arith)
            requires
                ll == len * len,
        ;
        assert((sx * sx) * ll + (sy * sy) * ll == tt * ll) by (nonlinear_arith)
            requires
                tt == sx * sx + sy * sy,
        ;
        assert((px + len) * (px + len) == px * px + 2 * (px * len) + ll) by (nonlinear_arith)
            requires
                ll == len * len,
        ;
        assert((py + len) * (py + len) == py * py + 2 * (py * len) + ll) by (nonlinear_arith)
            requires
                ll == len * len,
        ;
        assert(px * len <= (len * d) * len) by (nonlinear_arith)
            requires
                px <= len * d,
                len >= 1,
        ;
        assert(py * len <= (len * d) * len) by (nonlinear_arith)
            requires
                py <= len * d,
                len >= 1,
        ;
        assert((len * d) * len == ll * d) by (nonlinear_arith)
            requires
                ll == len * len,
        ;
        let rr = r * r;
        assert(px * px == (ax * ax) * rr) by (nonlinear_arith)
            requires
                px == ax * r,
                rr == r * r,
        ;
        assert(py * py == (ay * ay) * rr) by (nonlinear_arith)
            requires
                py == ay * r,
                rr == r * r,
        ;
        assert((ax * ax) * rr + (ay * ay) * rr == n * rr) by (nonlinear_arith)
            requires
                n == ax * ax + ay * ay,
        ;
        assert(n * rr == (n * (k * k)) * (d * d)) by (nonlinear_arith)
            requires
                rr == (d * k) * (d * k),
        ;
        assert((n * (k * k)) * (d * d) < ((len + 1) * (len + 1)) * (d * d)) by (nonlinear_arith)
            requires
                n * (k * k) < (len + 1) * (len + 1),
                d * d > 0,
        ;
        assert(((len + 1) * (len + 1)) * (d * d) == ll * (d * d) + (2 * len + 1) * (d * d))
            by (nonlinear_arith)
            requires
                ll == len * len,
        ;
        assert((2 * len + 1) * (d * d) <= ll * 49152) by (nonlinear_arith)
            requires
                d * d == 16777216,
                len >= 1024,
                ll == len * len,
        ;
        assert(d * d == 16777216);
        // Together: the square of the line, times the square of the length,
        // is below the square of the bound times the square of the length.
        assert(tt * ll < ll * 16777216 + ll * 49152 + 4 * (ll * d) + 2 * ll);
        assert(ll * 16777216 + ll * 49152 + 4 * (ll * d) + 2 * ll <= ll * ((d + 8) * (d + 8)))
            by (nonlinear_arith)
            requires
                d == 4096,
                ll >= 0,
        ;
        lemma_square_monotonic(1, len);
        assert(tt < (d + 8) * (d + 8)) by (nonlinear_arith)
            requires
                tt * ll < ll * ((d + 8) * (d + 8)),
                ll >= 1,
        ;
    }
}

/// Resolving a collision leaves two balls that overlapped less than 8
/// length units further apart than a diameter.
pub proof fn lemma_resolved_close(a: Ball, b: Ball)
    requires
        a.pos_in_range(),
        b.pos_in_range(),
        a.spec_overlap(b),
    ensures
        Ball::resolved(a, b).0.pos.distance_sqr(Ball::resolved(a, b).1.pos) < (BALL_DIAMETER + 8)
            * (BALL_DIAMETER + 8),
{
    let ix = b.pos.x - a.pos.x;
    let iy = b.pos.y - a.pos.y;
    if magnitude(ix) >= BALL_DIAMETER || magnitude(iy) >= BALL_DIAMETER {
        lemma_far_apart(ix, iy);
    }
    lemma_contact_line(ix, iy);
    lemma_contact_line_close(ix, iy);
    let (tx, ty) = contact_line(ix, iy);
    lemma_trunc_div_bound(tx - ix, 2);
    lemma_trunc_div_bound(ty - iy, 2);
    let r = Ball::resolved(a, b);
    assert(r.1.pos.x - r.0.pos.x == tx);
    assert(r.1.pos.y - r.0.pos.y == ty);
}

/// Resolving a collision leaves the two balls at least a diameter apart,
/// whether they overlapped or not.
pub proof fn lemma_resolved_apart(a: Ball, b: Ball)
    requires
        a.pos_in_range(),
        b.pos_in_range(),
    ensures
        !Ball::resolved(a, b).0.spec_overlap(Ball::resolved(a, b).1),
        Ball::resolved(a, b).0.pos.distance_sqr(Ball::resolved(a, b).1.pos) >= BALL_DIAMETER
            * BALL_DIAMETER,
{
    if a.spec_overlap(b) {
        let ix = b.pos.x - a.pos.x;
        let iy = b.pos.y - a.pos.y;
        if magnitude(ix) >= BALL_DIAMETER || magnitude(iy) >= BALL_DIAMETER {
            lemma_far_apart(ix, iy);
        }
        lemma_contact_line(ix, iy);
        let (tx, ty) = contact_line(ix, iy);
        lemma_trunc_div_bound(tx - ix, 2);
        lemma_trunc_div_bound(ty - iy, 2);
        let r = Ball::resolved(a, b);
        assert(r.1.pos.x - r.0.pos.x == tx);
        assert(r.1.pos.y - r.0.pos.y == ty);
    }
}

/// Resolving a collision a second time, with nothing moved in between,
/// changes nothing.
pub proof fn lemma_resolved_twice(a: Ball, b: Ball)
    requires
        a.pos_in_range(),
        b.pos_in_range(),
    ensures
        Ball::resolved(Ball::resolved(a, b).0, Ball::resolved(a, b).1) == Ball::resolved(a, b),
{
    lemma_resolved_apart(a, b);
}

/// The change of velocity in a collision is no larger than the two
/// components of the velocity difference together.
pub proof fn lemma_impulse_bound(dvx: int, dvy: int, tx: int, ty: int, t: int)
    requires
        -BALL_DIAMETER <= tx <= BALL_DIAMETER,
        -BALL_DIAMETER <= ty <= BALL_DIAMETER,
        -BALL_DIAMETER <= t <= BALL_DIAMETER,
        tx * tx + ty * ty >= BALL_DIAMETER * BALL_DIAMETER,
    ensures
        magnitude(impulse(dvx, dvy, tx, ty, t)) <= magnitude(dvx) + magnitude(dvy),
{
    let d = BALL_DIAMETER as int;
    let k = magnitude(dvx) + magnitude(dvy);
    let dot = dvx * tx + dvy * ty;
    let norm = tx * tx + ty * ty;
    lemma_product_bound(dvx, magnitude(dvx), tx, d);
    lemma_product_bound(dvy, magnitude(dvy), ty, d);
    assert(magnitude(dvx) * d + magnitude(dvy) * d == k * d) by (nonlinear_arith)
        requires
            k == magnitude(dvx) + magnitude(dvy),
    ;
    lemma_product_bound(dot, k * d, t, d);
    assert(k * d * d <= k * norm) by (nonlinear_arith)
        requires
            k >= 0,
            norm >= d * d,
    ;
    let top = 2 * BALL_MASS * dot * t;
    let bottom = 2 * BALL_MASS * norm;
    assert(top == 10 * (dot * t)) by (nonlinear_arith)
        requires
            top == 2 * 5 * dot * t,
    ;
    assert(bottom == 10 * norm);
    assert(10 * (k * norm) == k * bottom) by (nonlinear_arith)
        requires
            bottom == 10 * norm,
    ;
    let m = magnitude(top);
    assert(m <= k * bottom);
    assert(m / bottom <= k) by (nonlinear_arith)
        requires
            0 <= m <= k * bottom,
            bottom > 0,
    ;
}

/// A collision moves velocity from one ball to the other and loses none:
/// the sum of the two velocities stays the same.
pub proof fn lemma_resolved_keeps_momentum(a: Ball, b: Ball)
    requires
        a.vel_in_range(),
        b.vel_in_range(),
    ensures
        Ball::resolved(a, b).0.vel.x + Ball::resolved(a, b).1.vel.x == a.vel.x + b.vel.x,
        Ball::resolved(a, b).0.vel.y + Ball::resolved(a, b).1.vel.y == a.vel.y + b.vel.y,
{
    if a.spec_overlap(b) {
        let ix = b.pos.x - a.pos.x;
        let iy = b.pos.y - a.pos.y;
        lemma_contact_line(ix, iy);
        let (tx, ty) = contact_line(ix, iy);
        let dvx = b.vel.x - a.vel.x;
        let dvy = b.vel.y - a.vel.y;
        lemma_impulse_bound(dvx, dvy, tx, ty, tx);
        lemma_impulse_bound(dvx, dvy, tx, ty, ty);
    }
}

/// The speed along y of a new ball is not negative, and together with the
/// speed along x it makes up the initial speed to within one unit.
pub proof fn lemma_rise(vx: int)
    requires
        -INITIAL_SPEED <= vx <= INITIAL_SPEED,
    ensures
        0 <= rise(vx) <= INITIAL_SPEED,
        vx * vx + rise(vx) * rise(vx) <= INITIAL_SPEED * INITIAL_SPEED,
        INITIAL_SPEED * INITIAL_SPEED < vx * vx + (rise(vx) + 1) * (rise(vx) + 1),
{
    let s = INITIAL_SPEED as int;
    lemma_product_bound(vx, s, vx, s);
    assert(vx * vx >= 0) by (nonlinear_arith);
    lemma_floor_sqrt_exists(s * s - vx * vx);
    let r = rise(vx);
    if r > s {
        lemma_square_monotonic(s, r);
        assert(r * r > s * s) by (nonlinear_arith)
            requires
                r > s,
                s >= 0,
        ;
    }
}

} // verus!
