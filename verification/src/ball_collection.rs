use vstd::prelude::*;
use crate::ball::Ball;
use crate::constants::BALL_MASS;

verus! {

/// The balls after each has made its own step of `delta` ticks.
pub open spec fn moved(balls: Seq<Ball>, delta: i64) -> Seq<Ball> {
    Seq::new(balls.len(), |i: int| balls[i].updated(delta))
}

/// The balls after the collision of ball `i` with ball `j` has been
/// resolved. A ball does not collide with itself.
pub open spec fn struck(balls: Seq<Ball>, i: int, j: int) -> Seq<Ball> {
    if i != j && 0 <= i < balls.len() && 0 <= j < balls.len() {
        let pair = Ball::resolved(balls[i], balls[j]);
        balls.update(i, pair.0).update(j, pair.1)
    } else {
        balls
    }
}

/// The balls after ball `i` has met, in turn, each of the first `upto` balls.
pub open spec fn swept_row(balls: Seq<Ball>, i: int, upto: int) -> Seq<Ball>
    decreases upto,
{
    if upto <= 0 {
        balls
    } else {
        struck(swept_row(balls, i, upto - 1), i, upto - 1)
    }
}

/// The balls after each of the first `upto` balls, in turn, has met every ball.
pub open spec fn swept(balls: Seq<Ball>, upto: int) -> Seq<Ball>
    decreases upto,
{
    if upto <= 0 {
        balls
    } else {
        swept_row(swept(balls, upto - 1), upto - 1, balls.len() as int)
    }
}

/// The sum, over the balls, of the mass times the square of the speed.
pub open spec fn energy(balls: Seq<Ball>) -> int
    decreases balls.len(),
{
    if balls.len() == 0 {
        0
    } else {
        energy(balls.drop_last()) + BALL_MASS * balls.last().vel.length_sqr()
    }
}

/// Resolving a collision keeps the number of balls.
pub proof fn lemma_struck_len(balls: Seq<Ball>, i: int, j: int)
    ensures
        struck(balls, i, j).len() == balls.len(),
{
}

/// A ball that meets other balls leaves the number of balls as it is.
pub proof fn lemma_swept_row_len(balls: Seq<Ball>, i: int, upto: int)
    ensures
        swept_row(balls, i, upto).len() == balls.len(),
    decreases upto,
{
    if upto > 0 {
        lemma_swept_row_len(balls, i, upto - 1);
    }
}

/// A round of collisions keeps the number of balls.
pub proof fn lemma_swept_len(balls: Seq<Ball>, upto: int)
    ensures
        swept(balls, upto).len() == balls.len(),
    decreases upto,
{
    if upto > 0 {
        lemma_swept_len(balls, upto - 1);
        lemma_swept_row_len(swept(balls, upto - 1), upto - 1, balls.len() as int);
    }
}

/// A population of balls that can be created and moved on frame by frame.
pub trait BallCollection {
    /// The balls, in the order in which they were created.
    spec fn balls(&self) -> Seq<Ball>;

    /// What holds of the collection between any two calls.
    spec fn wf(&self) -> bool;

    /// Adds `count` new balls at random places.
    fn create_balls(&mut self, count: usize)
        requires
            old(self).wf(),
        ensures
            final(self).wf(),
            final(self).balls().len() == old(self).balls().len() + count,
            forall|i: int|
                0 <= i < old(self).balls().len() ==> #[trigger] final(self).balls()[i] == old(
                    self,
                ).balls()[i],
            forall|i: int|
                old(self).balls().len() <= i < final(self).balls().len() ==> (
                #[trigger] final(self).balls()[i]).is_initial(),
    ;

    /// Moves every ball for `delta` ticks and resolves the collisions.
    fn update(&mut self, delta: i64)
        requires
            old(self).wf(),
        ensures
            final(self).wf(),
            final(self).balls().len() == old(self).balls().len(),
    ;
}

/// A collection that tests every ball against every other.
pub struct SimpleBallCollection {
    balls: Vec<Ball>,
}

impl SimpleBallCollection {
    /// A collection without balls.
    pub fn new() -> (c: Self)
        ensures
            c.balls() == Seq::<Ball>::empty(),
    {
        SimpleBallCollection { balls: Vec::new() }
    }

    /// The balls, for reading.
    pub fn bodies(&self) -> (bodies: &Vec<Ball>)
        ensures
            bodies@ == self.balls(),
    {
        &self.balls
    }

    /// Adds one ball behind those that are there.
    pub fn add_ball(&mut self, ball: Ball)
        ensures
            final(self).balls() == old(self).balls().push(ball),
    {
        self.balls.push(ball);
    }

    /// The sum, over the balls, of the mass times the square of the speed,
    /// or the largest `u128` if the sum is beyond it.
    pub fn total_enery(&self) -> (total: u128)
        ensures
            total == if energy(self.balls()) > u128::MAX {
                u128::MAX as int
            } else {
                energy(self.balls())
            },
    {
        let mut total: u128 = 0;
        let mut i: usize = 0;
        while i < self.balls.len()
            invariant
                i <= self.balls.len(),
                energy(self.balls@.take(i as int)) >= 0,
                total == if energy(self.balls@.take(i as int)) > u128::MAX {
                    u128::MAX as int
                } else {
                    energy(self.balls@.take(i as int))
                },
            decreases self.balls.len() - i,
        {
            let vx: i64 = self.balls[i].vel.x;
            let vy: i64 = self.balls[i].vel.y;
            let ax: u128 = if vx < 0 { (-(vx as i128)) as u128 } else { vx as u128 };
            let ay: u128 = if vy < 0 { (-(vy as i128)) as u128 } else { vy as u128 };
            proof {
                assert(ax * ax <= 0x8000_0000_0000_0000 * 0x8000_0000_0000_0000)
                    by (nonlinear_arith)
                    requires
                        0 <= ax <= 0x8000_0000_0000_0000,
                ;
                assert(ay * ay <= 0x8000_0000_0000_0000 * 0x8000_0000_0000_0000)
                    by (nonlinear_arith)
                    requires
                        0 <= ay <= 0x8000_0000_0000_0000,
                ;
                assert(ax * ax == vx * vx) by (nonlinear_arith)
                    requires
                        ax == vx || ax == -vx,
                ;
                assert(ay * ay == vy * vy) by (nonlinear_arith)
                    requires
                        ay == vy || ay == -vy,
                ;
                assert(self.balls@.take(i + 1).drop_last() =~= self.balls@.take(i as int));
            }
            let speed_sqr: u128 = ax * ax + ay * ay;
            let mass: u128 = BALL_MASS as u128;
            if speed_sqr > (u128::MAX - total) / mass {
                total = u128::MAX;
            } else {
                total = total + mass * speed_sqr;
            }
            i += 1;
        }
        assert(self.balls@.take(self.balls@.len() as int) =~= self.balls@);
        total
    }
}

impl BallCollection for SimpleBallCollection {
    closed spec fn balls(&self) -> Seq<Ball> {
        self.balls@
    }

    open spec fn wf(&self) -> bool {
        true
    }

    fn create_balls(&mut self, count: usize) {
        let mut i: usize = 0;
        while i < count
            invariant
                i <= count,
                self.balls@.len() == old(self).balls@.len() + i,
                forall|k: int|
                    0 <= k < old(self).balls@.len() ==> #[trigger] self.balls@[k] == old(
                        self,
                    ).balls@[k],
                forall|k: int|
                    old(self).balls@.len() <= k < self.balls@.len() ==> (
                    #[trigger] self.balls@[k]).is_initial(),
            decreases count - i,
        {
            let b = Ball::new_random();
            self.balls.push(b);
            i += 1;
        }
    }

    /// Every ball makes its step; then each ball in turn meets every other
    /// ball, in the order of the indices, and their collision is resolved.
    fn update(&mut self, delta: i64)
        ensures
            final(self).balls() == swept(
                moved(old(self).balls(), delta),
                old(self).balls().len() as int,
            ),
    {
        let count: usize = self.balls.len();
        let mut i: usize = 0;
        while i < count
            invariant
                i <= count,
                self.balls@.len() == count,
                count == old(self).balls@.len(),
                forall|k: int| 0 <= k < i ==> #[trigger] self.balls@[k] == old(
                    self,
                ).balls@[k].updated(delta),
                forall|k: int| i <= k < count ==> #[trigger] self.balls@[k] == old(self).balls@[k],
            decreases count - i,
        {
            let mut b: Ball = self.balls[i];
            b.update(delta);
            self.balls.set(i, b);
            i += 1;
        }
        let ghost start = self.balls@;
        assert(start =~= moved(old(self).balls@, delta));
        let mut i: usize = 0;
        while i < count
            invariant
                i <= count,
                start.len() == count,
                self.balls@.len() == count,
                self.balls@ == swept(start, i as int),
            decreases count - i,
        {
            let ghost row = self.balls@;
            let mut j: usize = 0;
            while j < count
                invariant
                    i < count,
                    j <= count,
                    row.len() == count,
                    self.balls@.len() == count,
                    self.balls@ == swept_row(row, i as int, j as int),
                decreases count - j,
            {
                if i != j {
                    let mut a: Ball = self.balls[i];
                    let mut b: Ball = self.balls[j];
                    if a.overlap(&b) {
                        a.resolve_collision(&mut b);
                        self.balls.set(i, a);
                        self.balls.set(j, b);
                    }
                    assert(self.balls@ =~= struck(
                        swept_row(row, i as int, j as int),
                        i as int,
                        j as int,
                    ));
                }
                j += 1;
            }
            i += 1;
        }
    }
}

} // verus!
