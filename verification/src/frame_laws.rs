use vstd::prelude::*;
use crate::arith::magnitude;
use crate::ball::Ball;
use crate::ball_laws::{lemma_far_apart, lemma_resolved_apart, lemma_resolved_twice};
use crate::ball_collection::{moved, struck, swept, swept_row};
use crate::ball_collection_qt::{neighbourhood, swept_over, swept_with};
use crate::constants::{BALL_DIAMETER, BALL_RADIUS, WINDOW_HEIGHT, WINDOW_WIDTH};
use crate::quadtree::positions;
use crate::tree::TreeModel;
use crate::tree_laws::{lemma_built_in_step, lemma_built_settings, lemma_query_is_scan};

verus! {

/// After the balls have made their steps, none of them moves further into
/// a wall that its edge has crossed.
pub proof fn lemma_moved_leaves_walls(balls: Seq<Ball>, delta: i64, i: int)
    requires
        0 <= i < balls.len(),
    ensures
        moved(balls, delta)[i].pos.x - BALL_RADIUS < 0 ==> moved(balls, delta)[i].vel.x >= 0,
        WINDOW_WIDTH < moved(balls, delta)[i].pos.x + BALL_RADIUS ==> moved(
            balls,
            delta,
        )[i].vel.x <= 0,
        moved(balls, delta)[i].pos.y - BALL_RADIUS < 0 ==> moved(balls, delta)[i].vel.y >= 0,
        WINDOW_HEIGHT < moved(balls, delta)[i].pos.y + BALL_RADIUS ==> moved(
            balls,
            delta,
        )[i].vel.y <= 0,
{
}

/// Whether two balls overlap does not depend on which is asked.
pub proof fn lemma_overlap_symmetric(a: Ball, b: Ball)
    ensures
        a.spec_overlap(b) == b.spec_overlap(a),
{
    let dx = b.pos.x - a.pos.x;
    let dy = b.pos.y - a.pos.y;
    assert(dx * dx == (-dx) * (-dx)) by (nonlinear_arith);
    assert(dy * dy == (-dy) * (-dy)) by (nonlinear_arith);
}

/// The centre of a ball that overlaps another lies inside the neighbourhood
/// of that other.
pub proof fn lemma_overlap_in_neighbourhood(a: Ball, b: Ball)
    requires
        a.spec_overlap(b),
    ensures
        neighbourhood(a).spec_contains(b.pos),
{
    let dx = b.pos.x - a.pos.x;
    let dy = b.pos.y - a.pos.y;
    if magnitude(dx) >= BALL_DIAMETER || magnitude(dy) >= BALL_DIAMETER {
        lemma_far_apart(dx, dy);
    }
}

/// Whether no two of the balls overlap.
pub open spec fn all_apart(balls: Seq<Ball>) -> bool {
    forall|i: int, j: int|
        0 <= i < balls.len() && 0 <= j < balls.len() && i != j ==> !(#[trigger] balls[i]).spec_overlap(
            #[trigger] balls[j],
        )
}

/// Where no two balls overlap, a collision changes nothing.
pub proof fn lemma_struck_all_apart(balls: Seq<Ball>, i: int, j: int)
    requires
        all_apart(balls),
    ensures
        struck(balls, i, j) == balls,
{
    if i != j && 0 <= i < balls.len() && 0 <= j < balls.len() {
        assert(!balls[i].spec_overlap(balls[j]));
        assert(struck(balls, i, j) =~= balls);
    }
}

/// Where no two balls overlap, a ball that meets the others changes nothing.
pub proof fn lemma_swept_row_all_apart(balls: Seq<Ball>, i: int, upto: int)
    requires
        all_apart(balls),
    ensures
        swept_row(balls, i, upto) == balls,
    decreases upto,
{
    if upto > 0 {
        lemma_swept_row_all_apart(balls, i, upto - 1);
        lemma_struck_all_apart(balls, i, upto - 1);
    }
}

/// Where no two balls overlap, a round of collisions in which every ball
/// meets every other changes nothing.
pub proof fn lemma_swept_all_apart(balls: Seq<Ball>, upto: int)
    requires
        all_apart(balls),
    ensures
        swept(balls, upto) == balls,
    decreases upto,
{
    if upto > 0 {
        lemma_swept_all_apart(balls, upto - 1);
        lemma_swept_row_all_apart(balls, upto - 1, balls.len() as int);
    }
}

/// Where no two balls overlap, a ball that meets candidates changes nothing.
pub proof fn lemma_swept_over_all_apart(
    balls: Seq<Ball>,
    i: int,
    candidates: Seq<usize>,
    upto: int,
)
    requires
        all_apart(balls),
    ensures
        swept_over(balls, i, candidates, upto) == balls,
    decreases upto,
{
    if upto > 0 {
        lemma_swept_over_all_apart(balls, i, candidates, upto - 1);
        lemma_struck_all_apart(balls, i, candidates[upto - 1] as int);
    }
}

/// Where no two balls overlap, a round of collisions in which every ball
/// meets what a query finds changes nothing, whatever the tree holds.
pub proof fn lemma_swept_with_all_apart(tree: TreeModel, balls: Seq<Ball>, upto: int)
    requires
        all_apart(balls),
    ensures
        swept_with(tree, balls, upto) == balls,
    decreases upto,
{
    if upto > 0 {
        lemma_swept_with_all_apart(tree, balls, upto - 1);
        let candidates = tree.candidates(positions(balls), neighbourhood(balls[upto - 1]), 0);
        lemma_swept_over_all_apart(balls, upto - 1, candidates, candidates.len() as int);
    }
}

/// Two balls that do not overlap are left as they are by a collision.
pub proof fn lemma_struck_apart(balls: Seq<Ball>, i: int, j: int)
    requires
        balls.len() == 2,
        !balls[0].spec_overlap(balls[1]),
    ensures
        struck(balls, i, j) == balls,
{
    lemma_overlap_symmetric(balls[0], balls[1]);
    assert(struck(balls, i, j) =~= balls);
}

/// Of two balls in range, a collision leaves a pair that does not overlap,
/// and a second collision changes nothing more.
pub proof fn lemma_struck_pair(balls: Seq<Ball>, i: int)
    requires
        balls.len() == 2,
        0 <= i < 2,
        balls[0].pos_in_range(),
        balls[1].pos_in_range(),
    ensures
        struck(balls, i, 1 - i).len() == 2,
        !struck(balls, i, 1 - i)[0].spec_overlap(struck(balls, i, 1 - i)[1]),
        struck(struck(balls, i, 1 - i), i, 1 - i) == struck(balls, i, 1 - i),
{
    let s = struck(balls, i, 1 - i);
    lemma_resolved_apart(balls[i], balls[1 - i]);
    lemma_resolved_twice(balls[i], balls[1 - i]);
    lemma_overlap_symmetric(s[0], s[1]);
    assert(struck(s, i, 1 - i) =~= s);
}

/// Two balls that do not overlap stay as they are whatever candidates one
/// of them meets.
pub proof fn lemma_row_apart(balls: Seq<Ball>, i: int, candidates: Seq<usize>, upto: int)
    requires
        balls.len() == 2,
        !balls[0].spec_overlap(balls[1]),
    ensures
        swept_over(balls, i, candidates, upto) == balls,
    decreases upto,
{
    if upto > 0 {
        lemma_row_apart(balls, i, candidates, upto - 1);
        lemma_struck_apart(balls, i, candidates[upto - 1] as int);
    }
}

/// Of two balls in range, one that meets candidates leaves the pair as it
/// was or as one collision leaves it, and the latter if the other ball is
/// among the candidates.
pub proof fn lemma_row_pair(balls: Seq<Ball>, i: int, candidates: Seq<usize>, upto: int)
    requires
        balls.len() == 2,
        0 <= i < 2,
        balls[0].pos_in_range(),
        balls[1].pos_in_range(),
        0 <= upto <= candidates.len(),
    ensures
        swept_over(balls, i, candidates, upto) == balls || swept_over(
            balls,
            i,
            candidates,
            upto,
        ) == struck(balls, i, 1 - i),
        (exists|m: int| 0 <= m < upto && candidates[m] == 1 - i) ==> swept_over(
            balls,
            i,
            candidates,
            upto,
        ) == struck(balls, i, 1 - i),
    decreases upto,
{
    if upto > 0 {
        lemma_row_pair(balls, i, candidates, upto - 1);
        lemma_struck_pair(balls, i);
        let before = swept_over(balls, i, candidates, upto - 1);
        let j = candidates[upto - 1] as int;
        if j != 1 - i {
            assert(struck(before, i, j) == before);
            if exists|m: int| 0 <= m < upto && candidates[m] == 1 - i {
                let m = choose|m: int| 0 <= m < upto && candidates[m] == 1 - i;
                assert(0 <= m < upto - 1 && candidates[m] == 1 - i);
            }
        }
    }
}

/// With two balls in range, a round of collisions in which every ball meets
/// every other leaves the two without overlap.
pub proof fn lemma_pair_swept_apart(balls: Seq<Ball>)
    requires
        balls.len() == 2,
        balls[0].pos_in_range(),
        balls[1].pos_in_range(),
    ensures
        swept(balls, 2).len() == 2,
        !swept(balls, 2)[0].spec_overlap(swept(balls, 2)[1]),
{
    assert(swept(balls, 0) == balls);
    assert(swept_row(balls, 0, 0) == balls);
    assert(swept_row(balls, 0, 1) == struck(balls, 0, 0));
    assert(struck(balls, 0, 0) == balls);
    let first = struck(balls, 0, 1);
    assert(swept_row(balls, 0, 2) == first);
    assert(swept(balls, 1) == first);
    lemma_struck_pair(balls, 0);
    assert(swept_row(first, 1, 0) == first);
    lemma_struck_apart(first, 1, 0);
    assert(swept_row(first, 1, 1) == first);
    assert(swept_row(first, 1, 2) == struck(first, 1, 1));
    assert(swept(balls, 2) == swept_row(swept(balls, 1), 1, 2));
}

/// With two balls in range, of which at least one has its centre inside
/// the boundary of the tree, a round of collisions in which every ball
/// meets what a query finds in its neighbourhood leaves the two without
/// overlap, if the tree was in step with the balls at the start.
pub proof fn lemma_pair_swept_with_apart(tree: TreeModel, balls: Seq<Ball>)
    requires
        balls.len() == 2,
        balls[0].pos_in_range(),
        balls[1].pos_in_range(),
        tree.in_step(positions(balls)),
        tree.boundary.spec_contains(balls[0].pos) || tree.boundary.spec_contains(balls[1].pos),
    ensures
        swept_with(tree, balls, 2).len() == 2,
        !swept_with(tree, balls, 2)[0].spec_overlap(swept_with(tree, balls, 2)[1]),
{
    let ps = positions(balls);
    assert(swept_with(tree, balls, 0) == balls);
    let c0 = tree.candidates(ps, neighbourhood(balls[0]), 0);
    let w1 = swept_over(balls, 0, c0, c0.len() as int);
    assert(swept_with(tree, balls, 1) == w1);
    let c1 = tree.candidates(positions(w1), neighbourhood(w1[1]), 0);
    let w2 = swept_over(w1, 1, c1, c1.len() as int);
    assert(swept_with(tree, balls, 2) == w2);
    lemma_row_pair(balls, 0, c0, c0.len() as int);
    lemma_struck_pair(balls, 0);
    if !w1[0].spec_overlap(w1[1]) {
        lemma_row_apart(w1, 1, c1, c1.len() as int);
    } else {
        assert(w1 == balls);
        lemma_overlap_symmetric(balls[0], balls[1]);
        lemma_overlap_in_neighbourhood(balls[0], balls[1]);
        lemma_overlap_in_neighbourhood(balls[1], balls[0]);
        lemma_query_is_scan(tree, ps, neighbourhood(balls[0]));
        lemma_query_is_scan(tree, ps, neighbourhood(balls[1]));
        assert(ps[0] == balls[0].pos);
        assert(ps[1] == balls[1].pos);
        if c0.contains(1usize) {
            let m = choose|m: int| 0 <= m < c0.len() && c0[m] == 1usize;
            assert(c0[m] == 1 - 0);
        }
        assert(!c0.contains(1usize));
        assert(c1.contains(0usize));
        let m = choose|m: int| 0 <= m < c1.len() && c1[m] == 0usize;
        assert(c1[m] == 1 - 1);
        lemma_row_pair(balls, 1, c1, c1.len() as int);
        lemma_struck_pair(balls, 1);
    }
}

/// A frame of the plain collection with two balls ends with the two
/// apart, if their steps leave them in range.
pub proof fn lemma_frame_pair_apart(balls: Seq<Ball>, delta: i64)
    requires
        balls.len() == 2,
        moved(balls, delta)[0].pos_in_range(),
        moved(balls, delta)[1].pos_in_range(),
    ensures
        !swept(moved(balls, delta), 2)[0].spec_overlap(swept(moved(balls, delta), 2)[1]),
{
    lemma_pair_swept_apart(moved(balls, delta));
}

/// A frame of the collection with a tree and two balls ends with the two
/// apart, if their steps leave them in range and at least one of them with
/// its centre inside the boundary of the tree.
pub proof fn lemma_tree_frame_pair_apart(tree: TreeModel, balls: Seq<Ball>, delta: i64)
    requires
        tree.boundary.wf(),
        balls.len() == 2,
        moved(balls, delta)[0].pos_in_range(),
        moved(balls, delta)[1].pos_in_range(),
        tree.boundary.spec_contains(moved(balls, delta)[0].pos) || tree.boundary.spec_contains(
            moved(balls, delta)[1].pos,
        ),
    ensures
        ({
            let after = moved(balls, delta);
            let built = tree.cleared().built(positions(after), 0, 2);
            !swept_with(built, after, 2)[0].spec_overlap(swept_with(built, after, 2)[1])
        }),
{
    let after = moved(balls, delta);
    lemma_built_in_step(tree, positions(after), 2);
    let built = tree.cleared().built(positions(after), 0, 2);
    lemma_built_settings(tree.cleared(), positions(after), 0, 2);
    assert(positions(after)[0] == after[0].pos);
    assert(positions(after)[1] == after[1].pos);
    lemma_pair_swept_with_apart(built, after);
}

} // verus!
