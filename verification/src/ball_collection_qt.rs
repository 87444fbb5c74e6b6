use vstd::prelude::*;
use crate::ball::Ball;
use crate::ball_collection::{BallCollection, moved, struck};
use crate::constants::{BALL_DIAMETER, WINDOW_HEIGHT, WINDOW_WIDTH};
use crate::quad::Quad;
use crate::quadtree::{Quadtree, positions};
use crate::tree::TreeModel;
use crate::tree_laws::lemma_built_agree;
use crate::vector::Vector2;

verus! {

/// The square that covers the whole arena.
pub open spec fn screen_quad() -> Quad {
    Quad {
        center: Vector2 { x: (WINDOW_WIDTH / 2) as i64, y: (WINDOW_HEIGHT / 2) as i64 },
        half_size: (WINDOW_HEIGHT / 2) as i64,
    }
}

/// The square around a ball in which the centres of all balls lie that
/// overlap it: its half size is a diameter.
pub open spec fn neighbourhood(b: Ball) -> Quad {
    Quad { center: b.pos, half_size: BALL_DIAMETER }
}

/// The balls after ball `i` has met, in turn, the first `upto` of the
/// candidates.
pub open spec fn swept_over(
    balls: Seq<Ball>,
    i: int,
    candidates: Seq<usize>,
    upto: int,
) -> Seq<Ball>
    decreases upto,
{
    if upto <= 0 {
        balls
    } else {
        struck(swept_over(balls, i, candidates, upto - 1), i, candidates[upto - 1] as int)
    }
}

/// The balls after each of the first `upto` balls, in turn, has met the
/// balls that a query of the tree finds in its neighbourhood. The tree stays
/// as it was built; the positions are those that the balls have by then.
pub open spec fn swept_with(tree: TreeModel, balls: Seq<Ball>, upto: int) -> Seq<Ball>
    decreases upto,
{
    if upto <= 0 {
        balls
    } else {
        let before = swept_with(tree, balls, upto - 1);
        let candidates = tree.candidates(
            positions(before),
            neighbourhood(before[upto - 1]),
            0,
        );
        swept_over(before, upto - 1, candidates, candidates.len() as int)
    }
}

/// A ball that meets candidates leaves the number of balls as it is.
pub proof fn lemma_swept_over_len(balls: Seq<Ball>, i: int, candidates: Seq<usize>, upto: int)
    ensures
        swept_over(balls, i, candidates, upto).len() == balls.len(),
    decreases upto,
{
    if upto > 0 {
        lemma_swept_over_len(balls, i, candidates, upto - 1);
    }
}

/// A round of collisions keeps the number of balls.
pub proof fn lemma_swept_with_len(tree: TreeModel, balls: Seq<Ball>, upto: int)
    ensures
        swept_with(tree, balls, upto).len() == balls.len(),
    decreases upto,
{
    if upto > 0 {
        lemma_swept_with_len(tree, balls, upto - 1);
        let before = swept_with(tree, balls, upto - 1);
        let candidates = tree.candidates(
            positions(before),
            neighbourhood(before[upto - 1]),
            0,
        );
        lemma_swept_over_len(before, upto - 1, candidates, candidates.len() as int);
    }
}

/// A collection that finds the partners of each ball with a quadtree.
pub struct QuadtreeBallCollection {
    quadtree: Quadtree<Ball>,
}

impl QuadtreeBallCollection {
    /// The tree of the collection, as specifications see it.
    pub closed spec fn tree(&self) -> TreeModel {
        self.quadtree@.tree
    }

    /// The tree of a well-formed collection has the shape of a tree, stores
    /// only indices of its balls, and has the arena square for its boundary.
    pub proof fn lemma_wf(&self)
        requires
            self.wf(),
        ensures
            self.tree().wf(),
            self.tree().indexes(self.balls().len() as int),
            self.tree().boundary == screen_quad(),
            screen_quad().wf(),
    {
    }

    /// Whether the tree indexes the balls as they are now.
    pub open spec fn in_step(&self) -> bool {
        self.tree().in_step(positions(self.balls()))
    }

    /// A collection without balls, with a tree over the whole arena that
    /// divides a leaf when it comes to hold more than 16 balls, down to
    /// leaves of a half size of a diameter.
    pub fn new() -> (c: Self)
        ensures
            c.wf(),
            c.in_step(),
            c.balls() == Seq::<Ball>::empty(),
            c.tree() == TreeModel::empty(screen_quad(), 16, BALL_DIAMETER),
    {
        let screen = Quad {
            center: Vector2 { x: WINDOW_WIDTH / 2, y: WINDOW_HEIGHT / 2 },
            half_size: WINDOW_HEIGHT / 2,
        };
        QuadtreeBallCollection { quadtree: Quadtree::new(screen, 16, BALL_DIAMETER) }
    }

    /// The number of nodes of the tree, for a line of diagnostics.
    pub fn debug(&self) -> (nodes: usize)
        ensures
            nodes == self.tree().nodes.len(),
    {
        self.quadtree.debug()
    }

    /// The balls, for reading.
    pub fn bodies(&self) -> (bodies: &Vec<Ball>)
        ensures
            bodies@ == self.balls(),
    {
        self.quadtree.points()
    }

    /// Adds one ball behind those that are there, and inserts it into the tree.
    pub fn add_ball(&mut self, ball: Ball)
        requires
            old(self).wf(),
        ensures
            final(self).wf(),
            final(self).balls() == old(self).balls().push(ball),
            final(self).tree() == old(self).tree().inserted(
                positions(final(self).balls()),
                ball.pos,
                old(self).balls().len() as usize,
            ),
            old(self).in_step() ==> final(self).in_step(),
    {
        self.quadtree.push(ball);
    }

    /// The squares of all nodes of the tree, in arena order.
    pub fn node_regions(&self) -> (regions: Vec<Quad>)
        ensures
            regions@.len() == self.tree().nodes.len(),
            forall|i: int|
                0 <= i < regions@.len() ==> #[trigger] regions@[i] == self.tree().nodes[i].quad,
    {
        self.quadtree.node_regions()
    }

    /// The indices of the balls that a search of the tree finds inside
    /// `region`. While the tree is in step with the balls, these are the balls
    /// inside the arena whose centre lies inside `region`, each once.
    pub fn debug_query(&self, region: Quad) -> (found: Vec<usize>)
        requires
            self.wf(),
        ensures
            found@ == self.tree().candidates(positions(self.balls()), region, 0),
            forall|k: int| 0 <= k < found@.len() ==> (#[trigger] found@[k]) < self.balls().len(),
            self.in_step() ==> found@.no_duplicates(),
            self.in_step() ==> forall|i: usize|
                found@.contains(i) <==> (i < self.balls().len() && screen_quad().spec_contains(
                    self.balls()[i as int].pos,
                ) && region.spec_contains(self.balls()[i as int].pos)),
    {
        self.quadtree.query(region)
    }
}

impl BallCollection for QuadtreeBallCollection {
    closed spec fn balls(&self) -> Seq<Ball> {
        self.quadtree@.points
    }

    closed spec fn wf(&self) -> bool {
        &&& self.quadtree.wf()
        &&& self.quadtree@.tree.boundary == screen_quad()
    }

    /// The tree is emptied, and the new balls are inserted as they come.
    fn create_balls(&mut self, count: usize)
        ensures
            final(self).tree() == old(self).tree().cleared().built(
                positions(final(self).balls()),
                old(self).balls().len() as int,
                final(self).balls().len() as int,
            ),
            old(self).balls().len() == 0 ==> final(self).in_step(),
    {
        let first: usize = self.quadtree.total_points();
        self.quadtree.clear();
        let ghost empty = self.quadtree@.tree;
        proof {
            if first == 0 {
                assert(empty.branch_ok(0));
                assert(self.quadtree.in_step());
            }
        }
        let mut i: usize = 0;
        while i < count
            invariant
                i <= count,
                self.wf(),
                empty == old(self).tree().cleared(),
                empty.wf(),
                empty.indexes(first as int),
                first == old(self).balls().len(),
                self.balls().len() == first + i,
                self.tree() == empty.built(positions(self.balls()), first as int, first + i),
                first == 0 ==> self.in_step(),
                forall|k: int| 0 <= k < first ==> #[trigger] self.balls()[k] == old(self).balls()[k],
                forall|k: int| first <= k < self.balls().len() ==> (
                #[trigger] self.balls()[k]).is_initial(),
            decreases count - i,
        {
            let b = Ball::new_random();
            let ghost before = positions(self.balls());
            self.quadtree.push(b);
            proof {
                self.quadtree.lemma_points_bounded();
                let after = positions(self.balls());
                assert forall|k: int| 0 <= k < first + i implies before[k] == after[k] by {}
                lemma_built_agree(empty, before, after, first as int, first + i);
            }
            i += 1;
        }
    }

    /// Every ball makes its step, and the tree is built anew. Then each
    /// ball in turn meets the balls that a query of the tree finds in its
    /// neighbourhood, and their collision is resolved.
    fn update(&mut self, delta: i64)
        ensures
            final(self).tree() == old(self).tree().cleared().built(
                positions(moved(old(self).balls(), delta)),
                0,
                old(self).balls().len() as int,
            ),
            final(self).balls() == swept_with(
                final(self).tree(),
                moved(old(self).balls(), delta),
                old(self).balls().len() as int,
            ),
    {
        let count: usize = self.quadtree.total_points();
        let mut i: usize = 0;
        while i < count
            invariant
                i <= count,
                self.wf(),
                self.tree() == old(self).tree(),
                self.balls().len() == count,
                count == old(self).balls().len(),
                forall|k: int| 0 <= k < i ==> #[trigger] self.balls()[k] == old(
                    self,
                ).balls()[k].updated(delta),
                forall|k: int| i <= k < count ==> #[trigger] self.balls()[k] == old(self).balls()[k],
            decreases count - i,
        {
            let mut b: Ball = self.quadtree.points()[i];
            b.update(delta);
            self.quadtree.set_point(i, b);
            i += 1;
        }
        let ghost start = self.balls();
        assert(start =~= moved(old(self).balls(), delta));
        // Rebuild the quadtree, based on the new positions
        self.quadtree.rebuild();
        let ghost tree = self.tree();
        let mut i: usize = 0;
        while i < count
            invariant
                i <= count,
                self.wf(),
                start.len() == count,
                self.tree() == tree,
                self.balls().len() == count,
                self.balls() == swept_with(tree, start, i as int),
            decreases count - i,
        {
            let b_pos: Vector2 = self.quadtree.points()[i].pos;
            let potential_collisions: Vec<usize> = self.quadtree.query(
                Quad { center: b_pos, half_size: BALL_DIAMETER },
            );
            let ghost row = self.balls();
            let mut k: usize = 0;
            while k < potential_collisions.len()
                invariant
                    i < count,
                    k <= potential_collisions.len(),
                    self.wf(),
                    self.tree() == tree,
                    row.len() == count,
                    self.balls().len() == count,
                    forall|m: int|
                        0 <= m < potential_collisions@.len() ==> (
                        #[trigger] potential_collisions@[m]) < count,
                    self.balls() == swept_over(row, i as int, potential_collisions@, k as int),
                decreases potential_collisions.len() - k,
            {
                let j: usize = potential_collisions[k];
                if i != j {
                    let mut a: Ball = self.quadtree.points()[i];
                    let mut b: Ball = self.quadtree.points()[j];
                    if a.overlap(&b) {
                        a.resolve_collision(&mut b);
                        self.quadtree.set_point(i, a);
                        self.quadtree.set_point(j, b);
                    }
                    assert(self.balls() =~= struck(
                        swept_over(row, i as int, potential_collisions@, k as int),
                        i as int,
                        j as int,
                    ));
                }
                k += 1;
            }
            i += 1;
        }
    }
}

} // verus!
