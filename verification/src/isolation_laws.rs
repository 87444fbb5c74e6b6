use vstd::prelude::*;
use crate::ball::Ball;
use crate::ball_collection::{moved, struck, swept, swept_row};
use crate::ball_collection_qt::{neighbourhood, swept_over, swept_with};
use crate::ball_laws::lemma_resolved_apart;
use crate::frame_laws::{lemma_overlap_in_neighbourhood, lemma_overlap_symmetric};
use crate::quadtree::positions;
use crate::tree::TreeModel;
use crate::tree_laws::{
    lemma_built_in_step, lemma_built_settings, lemma_candidates_reach, lemma_root_covers,
};

verus! {

/// Whether neither ball `p` nor ball `q` overlaps any third ball. With
/// `p == q` this says that ball `p` overlaps no other ball.
pub open spec fn clear_of_others(balls: Seq<Ball>, p: int, q: int) -> bool {
    forall|j: int|
        0 <= j < balls.len() && j != p && j != q ==> !balls[p].spec_overlap(#[trigger] balls[j])
            && !balls[q].spec_overlap(balls[j])
}

/// Whether balls `p` and `q` are still the balls `a` and `b`, or do not
/// overlap.
pub open spec fn kept_or_apart(balls: Seq<Ball>, p: int, q: int, a: Ball, b: Ball) -> bool {
    (balls[p] == a && balls[q] == b) || !balls[p].spec_overlap(balls[q])
}

/// The stage of a frame of the plain collection at which ball `i` is
/// about to meet ball `j`.
pub open spec fn stage(start: Seq<Ball>, i: int, j: int) -> Seq<Ball> {
    swept_row(swept(start, i), i, j)
}

/// Whether balls `p` and `q` are clear of all others at every stage of the
/// first `rows` rows of a frame of the plain collection.
pub open spec fn clear_through(start: Seq<Ball>, p: int, q: int, rows: int) -> bool {
    forall|i: int, j: int|
        0 <= i < rows && 0 <= j < start.len() ==> clear_of_others(
            #[trigger] stage(start, i, j),
            p,
            q,
        )
}

/// What a query of the tree finds in the neighbourhood of ball `i`.
pub open spec fn row_candidates(tree: TreeModel, balls: Seq<Ball>, i: int) -> Seq<usize> {
    tree.candidates(positions(balls), neighbourhood(balls[i]), 0)
}

/// The stage of a frame of the collection with a tree at which ball `i`
/// is about to meet the candidate with number `j`.
pub open spec fn stage_with(tree: TreeModel, start: Seq<Ball>, i: int, j: int) -> Seq<Ball> {
    swept_over(
        swept_with(tree, start, i),
        i,
        row_candidates(tree, swept_with(tree, start, i), i),
        j,
    )
}

/// Whether balls `p` and `q` are clear of all others at every stage of the
/// first `rows` rows of a frame of the collection with a tree.
pub open spec fn clear_through_with(
    tree: TreeModel,
    start: Seq<Ball>,
    p: int,
    q: int,
    rows: int,
) -> bool {
    forall|i: int, j: int|
        0 <= i < rows && 0 <= j < row_candidates(tree, swept_with(tree, start, i), i).len()
            ==> clear_of_others(#[trigger] stage_with(tree, start, i, j), p, q)
}

/// A ball overlaps itself.
pub proof fn lemma_overlap_self(a: Ball)
    ensures
        a.spec_overlap(a),
{
    let z = a.pos.x - a.pos.x;
    assert(z * z == 0) by (nonlinear_arith)
        requires
            z == 0,
    ;
}

/// One collision, at a stage where balls `p` and `q` are clear of all
/// others, leaves the two as they were unless it is their own; their own
/// leaves them apart.
pub proof fn lemma_struck_kept(s: Seq<Ball>, i: int, j: int, p: int, q: int, a: Ball, b: Ball)
    requires
        0 <= p < s.len(),
        0 <= q < s.len(),
        clear_of_others(s, p, q),
        kept_or_apart(s, p, q, a, b),
        a.pos_in_range(),
        b.pos_in_range(),
    ensures
        struck(s, i, j).len() == s.len(),
        kept_or_apart(struck(s, i, j), p, q, a, b),
        !s[p].spec_overlap(s[q]) ==> struck(s, i, j)[p] == s[p] && struck(s, i, j)[q] == s[q],
        p != q && ((i == p && j == q) || (i == q && j == p)) ==> !struck(s, i, j)[p].spec_overlap(
            struck(s, i, j)[q],
        ),
{
    if i != j && 0 <= i < s.len() && 0 <= j < s.len() {
        let r = Ball::resolved(s[i], s[j]);
        lemma_overlap_symmetric(s[i], s[j]);
        lemma_overlap_symmetric(s[p], s[q]);
        if (i == p && j == q) || (i == q && j == p) {
            if s[i].spec_overlap(s[j]) {
                lemma_resolved_apart(s[i], s[j]);
                lemma_overlap_symmetric(r.0, r.1);
            } else {
                assert(struck(s, i, j) =~= s);
            }
        } else if i == p || i == q {
            assert(!s[i].spec_overlap(s[j]));
            assert(struck(s, i, j) =~= s);
        } else if j == p || j == q {
            assert(!s[j].spec_overlap(s[i]));
            assert(struck(s, i, j) =~= s);
        }
    }
}

/// A row of the plain collection, at whose stages balls `p` and `q` are
/// clear of all others, leaves the two as they were or apart, and apart if
/// it is the row of one of them and has come to the other.
pub proof fn lemma_swept_row_kept(
    s: Seq<Ball>,
    i: int,
    upto: int,
    p: int,
    q: int,
    a: Ball,
    b: Ball,
)
    requires
        0 <= p < s.len(),
        0 <= q < s.len(),
        kept_or_apart(s, p, q, a, b),
        a.pos_in_range(),
        b.pos_in_range(),
        forall|j: int| 0 <= j < upto ==> clear_of_others(#[trigger] swept_row(s, i, j), p, q),
    ensures
        swept_row(s, i, upto).len() == s.len(),
        kept_or_apart(swept_row(s, i, upto), p, q, a, b),
        !s[p].spec_overlap(s[q]) ==> swept_row(s, i, upto)[p] == s[p] && swept_row(
            s,
            i,
            upto,
        )[q] == s[q],
        p != q && ((i == p && q < upto) || (i == q && p < upto)) ==> !swept_row(
            s,
            i,
            upto,
        )[p].spec_overlap(swept_row(s, i, upto)[q]),
    decreases upto,
{
    if upto > 0 {
        lemma_swept_row_kept(s, i, upto - 1, p, q, a, b);
        let before = swept_row(s, i, upto - 1);
        assert(clear_of_others(before, p, q));
        lemma_struck_kept(before, i, upto - 1, p, q, a, b);
    }
}

/// The first `upto` rows of a frame of the plain collection, at whose
/// stages balls `p` and `q` are clear of all others, leave the two as they
/// were or apart, and apart once the row of one of them is done.
pub proof fn lemma_swept_kept(start: Seq<Ball>, upto: int, p: int, q: int)
    requires
        0 <= p < start.len(),
        0 <= q < start.len(),
        0 <= upto <= start.len(),
        start[p].pos_in_range(),
        start[q].pos_in_range(),
        clear_through(start, p, q, upto),
    ensures
        swept(start, upto).len() == start.len(),
        kept_or_apart(swept(start, upto), p, q, start[p], start[q]),
        p != q && (p < upto || q < upto) ==> !swept(start, upto)[p].spec_overlap(
            swept(start, upto)[q],
        ),
    decreases upto,
{
    if upto > 0 {
        lemma_swept_kept(start, upto - 1, p, q);
        let before = swept(start, upto - 1);
        assert forall|j: int| 0 <= j < start.len() implies clear_of_others(
            #[trigger] swept_row(before, upto - 1, j),
            p,
            q,
        ) by {
            assert(clear_of_others(stage(start, upto - 1, j), p, q));
        }
        lemma_swept_row_kept(before, upto - 1, start.len() as int, p, q, start[p], start[q]);
    }
}

/// A ball that overlaps no other ball at any stage of a frame of the plain
/// collection ends the frame where its own step left it, with the velocity
/// that its own step left it.
pub proof fn lemma_frame_ball_alone(balls: Seq<Ball>, delta: i64, k: int)
    requires
        0 <= k < balls.len(),
        moved(balls, delta)[k].pos_in_range(),
        clear_through(moved(balls, delta), k, k, balls.len() as int),
    ensures
        swept(moved(balls, delta), balls.len() as int)[k] == balls[k].updated(delta),
{
    let start = moved(balls, delta);
    lemma_swept_kept(start, start.len() as int, k, k);
    lemma_overlap_self(swept(start, start.len() as int)[k]);
}

/// Two balls of a population of any size that overlap no third ball at any
/// stage of a frame of the plain collection end the frame apart.
pub proof fn lemma_frame_pair_isolated(balls: Seq<Ball>, delta: i64, p: int, q: int)
    requires
        0 <= p < balls.len(),
        0 <= q < balls.len(),
        p != q,
        moved(balls, delta)[p].pos_in_range(),
        moved(balls, delta)[q].pos_in_range(),
        clear_through(moved(balls, delta), p, q, balls.len() as int),
    ensures
        !swept(moved(balls, delta), balls.len() as int)[p].spec_overlap(
            swept(moved(balls, delta), balls.len() as int)[q],
        ),
{
    let start = moved(balls, delta);
    lemma_swept_kept(start, start.len() as int, p, q);
}

/// A row of the collection with a tree, at whose stages balls `p` and `q`
/// are clear of all others, leaves the two as they were or apart, and apart
/// if it is the row of one of them and the other was among the candidates
/// met.
pub proof fn lemma_swept_over_kept(
    s: Seq<Ball>,
    i: int,
    candidates: Seq<usize>,
    upto: int,
    p: int,
    q: int,
    a: Ball,
    b: Ball,
)
    requires
        0 <= p < s.len(),
        0 <= q < s.len(),
        0 <= upto <= candidates.len(),
        kept_or_apart(s, p, q, a, b),
        a.pos_in_range(),
        b.pos_in_range(),
        forall|j: int|
            0 <= j < upto ==> clear_of_others(#[trigger] swept_over(s, i, candidates, j), p, q),
    ensures
        swept_over(s, i, candidates, upto).len() == s.len(),
        kept_or_apart(swept_over(s, i, candidates, upto), p, q, a, b),
        !s[p].spec_overlap(s[q]) ==> swept_over(s, i, candidates, upto)[p] == s[p] && swept_over(
            s,
            i,
            candidates,
            upto,
        )[q] == s[q],
        p != q && ((i == p && exists|x: int| 0 <= x < upto && candidates[x] == q) || (i == q
            && exists|x: int| 0 <= x < upto && candidates[x] == p)) ==> !swept_over(
            s,
            i,
            candidates,
            upto,
        )[p].spec_overlap(swept_over(s, i, candidates, upto)[q]),
    decreases upto,
{
    if upto > 0 {
        lemma_swept_over_kept(s, i, candidates, upto - 1, p, q, a, b);
        let before = swept_over(s, i, candidates, upto - 1);
        assert(clear_of_others(before, p, q));
        lemma_struck_kept(before, i, candidates[upto - 1] as int, p, q, a, b);
        if i == p && exists|x: int| 0 <= x < upto && candidates[x] == q {
            let x = choose|x: int| 0 <= x < upto && candidates[x] == q;
            if x < upto - 1 {
                assert(0 <= x < upto - 1 && candidates[x] == q);
            }
        }
        if i == q && exists|x: int| 0 <= x < upto && candidates[x] == p {
            let x = choose|x: int| 0 <= x < upto && candidates[x] == p;
            if x < upto - 1 {
                assert(0 <= x < upto - 1 && candidates[x] == p);
            }
        }
    }
}

/// A ball whose centre lies inside the boundary and has not moved since
/// the tree was built is among the candidates of every ball that it overlaps.
pub proof fn lemma_partner_found(
    tree: TreeModel,
    start: Seq<Ball>,
    now: Seq<Ball>,
    i: int,
    x: int,
)
    requires
        tree.wf(),
        tree.complete(positions(start), start.len() as int),
        now.len() == start.len(),
        start.len() <= usize::MAX,
        0 <= i < now.len(),
        0 <= x < now.len(),
        now[x].pos == start[x].pos,
        tree.boundary.spec_contains(start[x].pos),
        now[i].spec_overlap(now[x]),
    ensures
        exists|k: int|
            0 <= k < row_candidates(tree, now, i).len() && row_candidates(tree, now, i)[k] == x,
{
    let ps = positions(now);
    let range = neighbourhood(now[i]);
    assert(ps[x] == start[x].pos);
    assert(positions(start)[x] == start[x].pos);
    lemma_root_covers(tree, ps[x]);
    lemma_overlap_in_neighbourhood(now[i], now[x]);
    assert(tree.stored(positions(start), x));
    lemma_candidates_reach(tree, ps, range, 0, x as usize);
    let found = row_candidates(tree, now, i);
    assert(found.contains(x as usize));
    let k = choose|k: int| 0 <= k < found.len() && found[k] == x as usize;
    assert(0 <= k < found.len() && found[k] == x);
}

/// The first `upto` rows of a frame of the collection with a tree, at
/// whose stages balls `p` and `q` are clear of all others, leave the two as
/// they were or apart, and apart once the row of one of them is done and
/// the centre of the other lies inside the boundary.
pub proof fn lemma_swept_with_kept(tree: TreeModel, start: Seq<Ball>, upto: int, p: int, q: int)
    requires
        tree.wf(),
        tree.complete(positions(start), start.len() as int),
        start.len() <= usize::MAX,
        0 <= p < start.len(),
        0 <= q < start.len(),
        0 <= upto <= start.len(),
        start[p].pos_in_range(),
        start[q].pos_in_range(),
        clear_through_with(tree, start, p, q, upto),
    ensures
        swept_with(tree, start, upto).len() == start.len(),
        kept_or_apart(swept_with(tree, start, upto), p, q, start[p], start[q]),
        p != q && ((p < upto && tree.boundary.spec_contains(start[q].pos)) || (q < upto
            && tree.boundary.spec_contains(start[p].pos))) ==> !swept_with(
            tree,
            start,
            upto,
        )[p].spec_overlap(swept_with(tree, start, upto)[q]),
    decreases upto,
{
    if upto > 0 {
        lemma_swept_with_kept(tree, start, upto - 1, p, q);
        let i = upto - 1;
        let before = swept_with(tree, start, i);
        let found = row_candidates(tree, before, i);
        assert(swept_with(tree, start, upto) == swept_over(before, i, found, found.len() as int));
        assert forall|j: int| 0 <= j < found.len() implies clear_of_others(
            #[trigger] swept_over(before, i, found, j),
            p,
            q,
        ) by {
            assert(clear_of_others(stage_with(tree, start, i, j), p, q));
        }
        lemma_swept_over_kept(before, i, found, found.len() as int, p, q, start[p], start[q]);
        lemma_overlap_symmetric(before[p], before[q]);
        if p != q && before[p].spec_overlap(before[q]) {
            if i == p && tree.boundary.spec_contains(start[q].pos) {
                lemma_partner_found(tree, start, before, p, q);
            }
            if i == q && tree.boundary.spec_contains(start[p].pos) {
                lemma_partner_found(tree, start, before, q, p);
            }
        }
    }
}

/// A ball that overlaps no other ball at any stage of a frame of the
/// collection with a tree ends the frame where its own step left it, with
/// the velocity that its own step left it.
pub proof fn lemma_tree_frame_ball_alone(tree: TreeModel, balls: Seq<Ball>, delta: i64, k: int)
    requires
        tree.boundary.wf(),
        balls.len() <= usize::MAX,
        0 <= k < balls.len(),
        moved(balls, delta)[k].pos_in_range(),
        clear_through_with(
            tree.cleared().built(positions(moved(balls, delta)), 0, balls.len() as int),
            moved(balls, delta),
            k,
            k,
            balls.len() as int,
        ),
    ensures
        swept_with(
            tree.cleared().built(positions(moved(balls, delta)), 0, balls.len() as int),
            moved(balls, delta),
            balls.len() as int,
        )[k] == balls[k].updated(delta),
{
    let start = moved(balls, delta);
    let built = tree.cleared().built(positions(start), 0, start.len() as int);
    lemma_built_in_step(tree, positions(start), start.len() as int);
    lemma_swept_with_kept(built, start, start.len() as int, k, k);
    lemma_overlap_self(swept_with(built, start, start.len() as int)[k]);
}

/// Two balls of a population of any size that overlap no third ball at any
/// stage of a frame of the collection with a tree end the frame apart, if
/// the centre of at least one of them lies inside the boundary after the
/// steps.
pub proof fn lemma_tree_frame_pair_isolated(
    tree: TreeModel,
    balls: Seq<Ball>,
    delta: i64,
    p: int,
    q: int,
)
    requires
        tree.boundary.wf(),
        balls.len() <= usize::MAX,
        0 <= p < balls.len(),
        0 <= q < balls.len(),
        p != q,
        moved(balls, delta)[p].pos_in_range(),
        moved(balls, delta)[q].pos_in_range(),
        tree.boundary.spec_contains(moved(balls, delta)[p].pos) || tree.boundary.spec_contains(
            moved(balls, delta)[q].pos,
        ),
        clear_through_with(
            tree.cleared().built(positions(moved(balls, delta)), 0, balls.len() as int),
            moved(balls, delta),
            p,
            q,
            balls.len() as int,
        ),
    ensures
        ({
            let start = moved(balls, delta);
            let built = tree.cleared().built(positions(start), 0, balls.len() as int);
            !swept_with(built, start, balls.len() as int)[p].spec_overlap(
                swept_with(built, start, balls.len() as int)[q],
            )
        }),
{
    let start = moved(balls, delta);
    let built = tree.cleared().built(positions(start), 0, start.len() as int);
    lemma_built_in_step(tree, positions(start), start.len() as int);
    lemma_built_settings(tree.cleared(), positions(start), 0, start.len() as int);
    lemma_swept_with_kept(built, start, start.len() as int, p, q);
}

} // verus!
