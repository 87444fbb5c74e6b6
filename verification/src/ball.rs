use vstd::prelude::*;
use crate::arith::{
    ceil_div, clamp_i64, div_toward_zero, floor_sqrt, isqrt, lemma_product_bound,
    lemma_trunc_div_bound, magnitude, saturate, trunc_div,
};
use crate::ball_laws::{
    lemma_contact_line, lemma_far_apart, lemma_fine_length, lemma_resolved_apart,
    lemma_resolved_keeps_momentum, lemma_rise, lemma_stretched,
};
use crate::energy_laws::{lemma_resolved_energy, pair_energy};
use crate::constants::{
    BALL_DIAMETER, BALL_MASS, BALL_RADIUS, COORD_LIMIT, INITIAL_SPEED, LENGTH_PRECISION,
    TICKS_PER_SECOND, WINDOW_HEIGHT, WINDOW_WIDTH,
};
use crate::quadtree::Point;
use crate::random::random_between;
use crate::vector::Vector2;

verus! {

/// A moving ball: a point mass with a position and a velocity. Radius and
/// mass are the same for every ball and are not stored.
#[derive(Copy, Clone, Debug, PartialEq, Eq, Structural)]
pub struct Ball {
    pub pos: Vector2,
    pub vel: Vector2,
}

/// Where a coordinate `p` arrives after moving with speed `v` for `delta` ticks.
/// The step is rounded toward zero, and the result stays within `i64`.
pub open spec fn advanced(p: i64, v: i64, delta: i64) -> i64 {
    clamp_i64(p + trunc_div(v * delta, TICKS_PER_SECOND as int))
}

/// The speed along one axis after the walls at `0` and at `limit` have been
/// looked at: a ball whose edge is beyond a wall is made to move away from it.
pub open spec fn bounced(p: i64, v: i64, limit: i64) -> i64 {
    if p - BALL_RADIUS < 0 {
        clamp_i64(magnitude(v as int))
    } else if limit < p + BALL_RADIUS {
        (-clamp_i64(magnitude(v as int))) as i64
    } else {
        v
    }
}

/// The length of the line `(ix, iy)`, in parts of a length unit, rounded down.
pub open spec fn fine_length(ix: int, iy: int) -> int {
    floor_sqrt((ix * ix + iy * iy) * (LENGTH_PRECISION * LENGTH_PRECISION))
}

/// One component `c` of the line between two centres, whose length in parts
/// of a unit is `len`, scaled so that the line becomes a diameter long.
/// Rounding is away from zero, so the scaled line is never shorter than a
/// diameter.
pub open spec fn stretched(c: int, len: int) -> int {
    if c >= 0 {
        ceil_div(c * (BALL_DIAMETER * LENGTH_PRECISION), len)
    } else {
        -ceil_div((-c) * (BALL_DIAMETER * LENGTH_PRECISION), len)
    }
}

/// The line from one centre to the other after two overlapping balls have
/// been pushed apart, given the line `(ix, iy)` between them before. Centres
/// that coincide are parted along the x axis.
pub open spec fn contact_line(ix: int, iy: int) -> (int, int) {
    if ix == 0 && iy == 0 {
        (BALL_DIAMETER as int, 0int)
    } else {
        let len = fine_length(ix, iy);
        (stretched(ix, len), stretched(iy, len))
    }
}

/// The change of the first ball's velocity along one axis in an elastic
/// collision of two equal masses: the difference `(dvx, dvy)` of the
/// velocities is projected onto the contact line `(tx, ty)`, and `t` is the
/// component of that line along the axis.
pub open spec fn impulse(dvx: int, dvy: int, tx: int, ty: int, t: int) -> int {
    trunc_div(
        2 * BALL_MASS * (dvx * tx + dvy * ty) * t,
        2 * BALL_MASS * (tx * tx + ty * ty),
    )
}

/// The speed along y that brings a ball with the speed `vx` along x to the
/// initial speed, rounded down. It is 0 where `vx` alone exceeds that speed.
pub open spec fn rise(vx: int) -> int {
    if -INITIAL_SPEED <= vx <= INITIAL_SPEED {
        floor_sqrt(INITIAL_SPEED * INITIAL_SPEED - vx * vx)
    } else {
        0
    }
}

impl Point for Ball {
    open spec fn spec_pos(&self) -> Vector2 {
        self.pos
    }

    fn pos(&self) -> (p: Vector2) {
        self.pos
    }
}

impl Ball {
    /// A ball at `pos` that moves with `vel`.
    pub fn new(pos: Vector2, vel: Vector2) -> (b: Self)
        ensures
            b.pos == pos,
            b.vel == vel,
    {
        Ball { pos, vel }
    }

    /// Whether the ball is as a new ball may be: its centre is inside the
    /// arena, at least a radius away from every wall, and it moves with the
    /// initial speed.
    pub open spec fn is_initial(self) -> bool {
        &&& BALL_RADIUS <= self.pos.x < WINDOW_WIDTH - BALL_RADIUS
        &&& BALL_RADIUS <= self.pos.y < WINDOW_HEIGHT - BALL_RADIUS
        &&& -INITIAL_SPEED <= self.vel.x <= INITIAL_SPEED
        &&& magnitude(self.vel.y as int) == rise(self.vel.x as int)
    }

    /// A ball at `pos` with the speed `vx` along x, and along y the speed
    /// that makes up the initial speed, downward or upward.
    pub fn launched(pos: Vector2, vx: i64, downward: bool) -> (b: Self)
        ensures
            b.pos == pos,
            b.vel.x == vx,
            b.vel.y == if downward {
                rise(vx as int)
            } else {
                -rise(vx as int)
            },
    {
        let vy: i64 = if -INITIAL_SPEED <= vx && vx <= INITIAL_SPEED {
            proof {
                lemma_product_bound(
                    vx as int,
                    INITIAL_SPEED as int,
                    vx as int,
                    INITIAL_SPEED as int,
                );
                assert(vx * vx >= 0) by (nonlinear_arith);
            }
            let rest: i64 = INITIAL_SPEED * INITIAL_SPEED - vx * vx;
            isqrt(rest as u64) as i64
        } else {
            0
        };
        Ball { pos, vel: Vector2 { x: vx, y: if downward { vy } else { -vy } } }
    }

    /// A ball at a random place inside the arena, at least a radius away
    /// from every wall, that moves in a random direction with the initial speed.
    pub fn new_random() -> (b: Self)
        ensures
            b.is_initial(),
    {
        let mut rng = rand::thread_rng();
        let x: i64 = random_between(&mut rng, BALL_RADIUS, WINDOW_WIDTH - BALL_RADIUS);
        let y: i64 = random_between(&mut rng, BALL_RADIUS, WINDOW_HEIGHT - BALL_RADIUS);
        let vx: i64 = random_between(&mut rng, -INITIAL_SPEED, INITIAL_SPEED + 1);
        let side: i64 = random_between(&mut rng, 0, 2);
        proof {
            lemma_rise(vx as int);
        }
        Ball::launched(Vector2 { x, y }, vx, side == 1)
    }

    /// Whether the position is far from the ends of `i64`.
    pub open spec fn pos_in_range(self) -> bool {
        &&& -COORD_LIMIT <= self.pos.x <= COORD_LIMIT
        &&& -COORD_LIMIT <= self.pos.y <= COORD_LIMIT
    }

    /// Whether the velocity is far from the ends of `i64`.
    pub open spec fn vel_in_range(self) -> bool {
        &&& -COORD_LIMIT <= self.vel.x <= COORD_LIMIT
        &&& -COORD_LIMIT <= self.vel.y <= COORD_LIMIT
    }

    /// The ball after one step of `delta` ticks.
    pub open spec fn updated(self, delta: i64) -> Ball {
        let x = advanced(self.pos.x, self.vel.x, delta);
        let y = advanced(self.pos.y, self.vel.y, delta);
        Ball {
            pos: Vector2 { x, y },
            vel: Vector2 {
                x: bounced(x, self.vel.x, WINDOW_WIDTH),
                y: bounced(y, self.vel.y, WINDOW_HEIGHT),
            },
        }
    }

    /// Whether two balls overlap: their centres are less than a diameter apart.
    pub open spec fn spec_overlap(self, other: Ball) -> bool {
        self.pos.distance_sqr(other.pos) < BALL_DIAMETER * BALL_DIAMETER
    }

    /// The two balls after their collision has been resolved. Balls that do
    /// not overlap are left as they are. Overlapping balls are pushed apart
    /// along the line between their centres, each by half of what is missing
    /// to a diameter, and exchange the parts of their velocities along that line.
    pub open spec fn resolved(a: Ball, b: Ball) -> (Ball, Ball) {
        if !a.spec_overlap(b) {
            (a, b)
        } else {
            let ix = b.pos.x - a.pos.x;
            let iy = b.pos.y - a.pos.y;
            let (tx, ty) = contact_line(ix, iy);
            let hx = trunc_div(tx - ix, 2);
            let hy = trunc_div(ty - iy, 2);
            let dvx = b.vel.x - a.vel.x;
            let dvy = b.vel.y - a.vel.y;
            let cx = impulse(dvx, dvy, tx, ty, tx);
            let cy = impulse(dvx, dvy, tx, ty, ty);
            (
                Ball {
                    pos: Vector2 { x: clamp_i64(a.pos.x - hx), y: clamp_i64(a.pos.y - hy) },
                    vel: Vector2 { x: clamp_i64(a.vel.x + cx), y: clamp_i64(a.vel.y + cy) },
                },
                Ball {
                    pos: Vector2 {
                        x: clamp_i64(b.pos.x + (tx - ix - hx)),
                        y: clamp_i64(b.pos.y + (ty - iy - hy)),
                    },
                    vel: Vector2 { x: clamp_i64(b.vel.x - cx), y: clamp_i64(b.vel.y - cy) },
                },
            )
        }
    }

    /// Moves the ball for `delta` ticks, then turns its velocity away from
    /// any wall that its edge has crossed. The position is not pulled back.
    pub fn update(&mut self, delta: i64)
        ensures
            *final(self) == old(self).updated(delta),
            final(self).pos.x - BALL_RADIUS < 0 ==> final(self).vel.x >= 0,
            WINDOW_WIDTH < final(self).pos.x + BALL_RADIUS ==> final(self).vel.x <= 0,
            final(self).pos.y - BALL_RADIUS < 0 ==> final(self).vel.y >= 0,
            WINDOW_HEIGHT < final(self).pos.y + BALL_RADIUS ==> final(self).vel.y <= 0,
    {
        let x: i64 = advance(self.pos.x, self.vel.x, delta);
        let y: i64 = advance(self.pos.y, self.vel.y, delta);
        self.pos = Vector2 { x, y };
        self.vel = Vector2 {
            x: bounce(x, self.vel.x, WINDOW_WIDTH),
            y: bounce(y, self.vel.y, WINDOW_HEIGHT),
        };
    }

    /// Resolves the collision of two balls: see [`Ball::resolved`]. Away
    /// from the ends of the number range, the two end at least a diameter
    /// apart, the sum of their velocities is kept, and their energy changes
    /// only by what the rounding to whole units of speed takes or gives.
    pub fn resolve_collision(&mut self, other: &mut Ball)
        ensures
            (*final(self), *final(other)) == Ball::resolved(*old(self), *old(other)),
            old(self).pos_in_range() && old(other).pos_in_range() ==> !final(self).spec_overlap(
                *final(other),
            ),
            old(self).vel_in_range() && old(other).vel_in_range() ==> final(self).vel.x
                + final(other).vel.x == old(self).vel.x + old(other).vel.x,
            old(self).vel_in_range() && old(other).vel_in_range() ==> final(self).vel.y
                + final(other).vel.y == old(self).vel.y + old(other).vel.y,
            old(self).vel_in_range() && old(other).vel_in_range() ==> magnitude(
                pair_energy(*final(self), *final(other)) - pair_energy(*old(self), *old(other)),
            ) < 4 * (magnitude(old(other).vel.x - old(self).vel.x) + magnitude(
                old(other).vel.y - old(self).vel.y,
            )) + 4,
    {
        proof {
            if self.pos_in_range() && other.pos_in_range() {
                lemma_resolved_apart(*self, *other);
            }
            if self.vel_in_range() && other.vel_in_range() {
                lemma_resolved_keeps_momentum(*self, *other);
                lemma_resolved_energy(*self, *other);
            }
        }
        if !self.overlap(other) {
            return ;
        }
        let d: i64 = BALL_DIAMETER;
        proof {
            let jx = other.pos.x - self.pos.x;
            let jy = other.pos.y - self.pos.y;
            if magnitude(jx) >= d || magnitude(jy) >= d {
                lemma_far_apart(jx, jy);
            }
        }
        let ix: i64 = (other.pos.x as i128 - self.pos.x as i128) as i64;
        let iy: i64 = (other.pos.y as i128 - self.pos.y as i128) as i64;
        let (tx, ty): (i64, i64) = contact(ix, iy);
        let hx: i64 = (tx - ix) / 2;
        let hy: i64 = (ty - iy) / 2;
        let dvx: i128 = other.vel.x as i128 - self.vel.x as i128;
        let dvy: i128 = other.vel.y as i128 - self.vel.y as i128;
        let cx: i128 = exchange(dvx, dvy, tx, ty, tx);
        let cy: i128 = exchange(dvx, dvy, tx, ty, ty);
        self.pos = Vector2 {
            x: saturate(self.pos.x as i128 - hx as i128),
            y: saturate(self.pos.y as i128 - hy as i128),
        };
        other.pos = Vector2 {
            x: saturate(other.pos.x as i128 + (tx - ix - hx) as i128),
            y: saturate(other.pos.y as i128 + (ty - iy - hy) as i128),
        };
        self.vel = Vector2 {
            x: saturate(self.vel.x as i128 + cx),
            y: saturate(self.vel.y as i128 + cy),
        };
        other.vel = Vector2 {
            x: saturate(other.vel.x as i128 - cx),
            y: saturate(other.vel.y as i128 - cy),
        };
    }

    /// Whether the two balls overlap.
    pub fn overlap(&self, other: &Ball) -> (r: bool)
        ensures
            r == self.spec_overlap(*other),
    {
        let ix: i128 = other.pos.x as i128 - self.pos.x as i128;
        let iy: i128 = other.pos.y as i128 - self.pos.y as i128;
        let d: i128 = BALL_DIAMETER as i128;
        if ix >= d || ix <= -d || iy >= d || iy <= -d {
            proof {
                lemma_far_apart(ix as int, iy as int);
            }
            false
        } else {
            proof {
                lemma_product_bound(ix as int, d as int, ix as int, d as int);
                lemma_product_bound(iy as int, d as int, iy as int, d as int);
            }
            ix * ix + iy * iy < d * d
        }
    }
}

/// Scales one component of the line between two centres: see [`stretched`].
fn stretch(c: i64, len: i64) -> (t: i64)
    requires
        1 <= len <= BALL_DIAMETER * LENGTH_PRECISION,
        -BALL_DIAMETER <= c <= BALL_DIAMETER,
    ensures
        t == stretched(c as int, len as int),
{
    let a: i64 = if c < 0 { -c } else { c };
    let reach: i64 = BALL_DIAMETER * LENGTH_PRECISION;
    assert(0 <= a * reach <= BALL_DIAMETER * reach) by (nonlinear_arith)
        requires
            0 <= a <= BALL_DIAMETER,
            reach >= 0,
    ;
    let q: i64 = (a * reach + len - 1) / len;
    if c < 0 {
        assert((-c) * (BALL_DIAMETER * LENGTH_PRECISION) == a * reach);
        -q
    } else {
        q
    }
}

/// The line between the centres of two overlapping balls, made a diameter
/// long: see [`contact_line`].
fn contact(ix: i64, iy: i64) -> (t: (i64, i64))
    requires
        ix * ix + iy * iy < BALL_DIAMETER * BALL_DIAMETER,
    ensures
        (t.0 as int, t.1 as int) == contact_line(ix as int, iy as int),
        -BALL_DIAMETER <= t.0 <= BALL_DIAMETER,
        -BALL_DIAMETER <= t.1 <= BALL_DIAMETER,
        -BALL_DIAMETER < ix < BALL_DIAMETER,
        -BALL_DIAMETER < iy < BALL_DIAMETER,
        t.0 * t.0 + t.1 * t.1 >= BALL_DIAMETER * BALL_DIAMETER,
{
    proof {
        if magnitude(ix as int) >= BALL_DIAMETER || magnitude(iy as int) >= BALL_DIAMETER {
            lemma_far_apart(ix as int, iy as int);
        }
        lemma_contact_line(ix as int, iy as int);
        lemma_product_bound(ix as int, BALL_DIAMETER as int, ix as int, BALL_DIAMETER as int);
        lemma_product_bound(iy as int, BALL_DIAMETER as int, iy as int, BALL_DIAMETER as int);
        assert(ix * ix >= 0 && iy * iy >= 0) by (nonlinear_arith);
    }
    if ix == 0 && iy == 0 {
        (BALL_DIAMETER, 0)
    } else {
        let n: u64 = (ix * ix + iy * iy) as u64;
        let fine: u64 = (LENGTH_PRECISION * LENGTH_PRECISION) as u64;
        assert(n * fine < 0x1000000 * 0x100000) by (nonlinear_arith)
            requires
                0 <= n < 0x1000000,
                fine == 0x100000,
        ;
        let len: u64 = isqrt(n * fine);
        proof {
            lemma_fine_length(ix as int, iy as int);
            lemma_stretched(ix as int, iy as int, len as int);
            lemma_stretched(iy as int, ix as int, len as int);
        }
        (stretch(ix, len as i64), stretch(iy, len as i64))
    }
}

/// The velocity that goes over from one ball to the other along one axis:
/// see [`impulse`].
fn exchange(dvx: i128, dvy: i128, tx: i64, ty: i64, t: i64) -> (c: i128)
    requires
        -0x1_0000_0000_0000_0000 <= dvx <= 0x1_0000_0000_0000_0000,
        -0x1_0000_0000_0000_0000 <= dvy <= 0x1_0000_0000_0000_0000,
        -BALL_DIAMETER <= tx <= BALL_DIAMETER,
        -BALL_DIAMETER <= ty <= BALL_DIAMETER,
        -BALL_DIAMETER <= t <= BALL_DIAMETER,
        tx * tx + ty * ty >= BALL_DIAMETER * BALL_DIAMETER,
    ensures
        c == impulse(dvx as int, dvy as int, tx as int, ty as int, t as int),
        -0x1400_0000_0000_0000_0000_0000 <= c <= 0x1400_0000_0000_0000_0000_0000,
{
    let ghost d: int = BALL_DIAMETER as int;
    let ghost big: int = 0x1_0000_0000_0000_0000;
    proof {
        lemma_product_bound(dvx as int, big, tx as int, d);
        lemma_product_bound(dvy as int, big, ty as int, d);
        lemma_product_bound(tx as int, d, tx as int, d);
        lemma_product_bound(ty as int, d, ty as int, d);
    }
    let dot: i128 = dvx * (tx as i128) + dvy * (ty as i128);
    let norm: i128 = (tx as i128) * (tx as i128) + (ty as i128) * (ty as i128);
    let weight: i128 = 2 * (BALL_MASS as i128);
    assert(-(2 * (big * d)) <= dot <= 2 * (big * d));
    assert(big * d == 0x1000_0000_0000_0000_0000) by (nonlinear_arith)
        requires
            big == 0x1_0000_0000_0000_0000,
            d == 4096,
    ;
    let push: i128 = weight * dot;
    proof {
        lemma_product_bound(push as int, 20 * (big * d), t as int, d);
        assert(20 * (big * d) * d == 0x1400_0000_0000_0000_0000_0000) by (nonlinear_arith)
            requires
                big * d == 0x1000_0000_0000_0000_0000,
                d == 4096,
        ;
        lemma_trunc_div_bound(push * t, weight * norm);
        assert(2 * BALL_MASS * (dvx * tx + dvy * ty) * t == push * t);
        assert(2 * BALL_MASS * (tx * tx + ty * ty) == weight * norm);
    }
    div_toward_zero(push * (t as i128), weight * norm)
}

/// Moves one coordinate: see [`advanced`].
fn advance(p: i64, v: i64, delta: i64) -> (r: i64)
    ensures
        r == advanced(p, v, delta),
{
    proof {
        lemma_product_bound(
            v as int,
            0x8000_0000_0000_0000,
            delta as int,
            0x8000_0000_0000_0000,
        );
        lemma_trunc_div_bound(v * delta, TICKS_PER_SECOND as int);
    }
    let product: i128 = (v as i128) * (delta as i128);
    let step: i128 = div_toward_zero(product, TICKS_PER_SECOND as i128);
    saturate(p as i128 + step)
}

/// Turns one component of the velocity at the walls: see [`bounced`].
fn bounce(p: i64, v: i64, limit: i64) -> (r: i64)
    requires
        0 <= limit <= 0x4000_0000_0000_0000,
    ensures
        r == bounced(p, v, limit),
{
    if p < BALL_RADIUS {
        saturate(if v < 0 { -(v as i128) } else { v as i128 })
    } else if limit - BALL_RADIUS < p {
        -saturate(if v < 0 { -(v as i128) } else { v as i128 })
    } else {
        v
    }
}

} // verus!
