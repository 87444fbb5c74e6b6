use vstd::prelude::*;
use crate::quad::{
    Quad, lemma_contains_covers, lemma_covers_overlap, lemma_quadrant_covers, lemma_quadrant_wf,
};
use crate::seq_laws::{
    lemma_concat_contains, lemma_concat_no_duplicates, lemma_last_contains, lemma_push_contains,
    lemma_push_no_duplicates,
};
use crate::tree::{NodeModel, TreeModel, members_in_quadrant, members_in_range};
use crate::vector::Vector2;

verus! {

/// Adding an index below `count` to a leaf keeps the shape of the tree and
/// keeps all stored indices below `count`.
pub proof fn lemma_pushed_wf(t: TreeModel, n: int, index: usize, count: int)
    requires
        t.wf(),
        t.indexes(count),
        0 <= n < t.nodes.len(),
        t.nodes[n].children is None,
        index < count,
    ensures
        t.pushed(n, index).wf(),
        t.pushed(n, index).indexes(count),
{
    let u = t.pushed(n, index);
    assert forall|m: int| 0 <= m < u.nodes.len() implies #[trigger] u.branch_ok(m) by {
        assert(t.branch_ok(m));
    }
    assert forall|a: int, b: int|
        0 <= a < u.nodes.len() && 0 <= b < u.nodes.len() && a != b implies #[trigger] u.blocks_apart(
        a,
        b,
    ) by {
        assert(t.blocks_apart(a, b));
    }
    assert forall|m: int| 0 <= m < u.nodes.len() implies (#[trigger] u.nodes[m]).quad.wf() by {
        assert(t.nodes[m].quad.wf());
    }
    assert forall|m: int, j: int|
        0 <= m < u.nodes.len() && 0 <= j < u.nodes[m].points_indices.len() implies (
    #[trigger] u.nodes[m].points_indices[j]) < count by {
        if m == n && j == t.nodes[n].points_indices.len() {
        } else {
            assert(u.nodes[m].points_indices[j] == t.nodes[m].points_indices[j]);
        }
    }
}

/// Dividing a leaf whose square is divisible keeps the shape of the tree
/// and keeps all stored indices below `count`.
pub proof fn lemma_subdivided_wf(t: TreeModel, ps: Seq<Vector2>, n: int, count: int)
    requires
        t.wf(),
        t.indexes(count),
        0 <= n < t.nodes.len(),
        t.nodes[n].children is None,
        t.nodes[n].quad.divisible(),
    ensures
        t.subdivided(ps, n).wf(),
        t.subdivided(ps, n).indexes(count),
{
    let u = t.subdivided(ps, n);
    let len = t.nodes.len() as int;
    let q = t.nodes[n].quad;
    let members = t.nodes[n].points_indices;
    assert(u.nodes.len() == len + 4);
    assert forall|k: int| 0 <= k < 4 implies #[trigger] u.nodes[len + k] == (NodeModel {
        quad: q.spec_get_quadrant(k),
        children: None,
        points_indices: members_in_quadrant(members, ps, q, k),
    }) by {}
    assert(u.nodes[len + 0].quad == q.spec_get_quadrant(0));
    assert(u.nodes[len + 1].quad == q.spec_get_quadrant(1));
    assert(u.nodes[len + 2].quad == q.spec_get_quadrant(2));
    assert(u.nodes[len + 3].quad == q.spec_get_quadrant(3));
    assert forall|m: int| 0 <= m < u.nodes.len() implies (#[trigger] u.nodes[m]).quad.wf() by {
        if m < len {
            assert(t.nodes[m].quad.wf());
        } else {
            lemma_quadrant_wf(q, m - len);
            assert(u.nodes[len + (m - len)].quad == q.spec_get_quadrant(m - len));
        }
    }
    assert forall|m: int| 0 <= m < u.nodes.len() implies #[trigger] u.branch_ok(m) by {
        if m < len {
            assert(t.branch_ok(m));
            if m != n {
                if t.nodes[m].children is Some {
                    let c = t.nodes[m].children->0;
                    assert(u.nodes[c].quad == t.nodes[c].quad);
                    assert(u.nodes[c + 1].quad == t.nodes[c + 1].quad);
                    assert(u.nodes[c + 2].quad == t.nodes[c + 2].quad);
                    assert(u.nodes[c + 3].quad == t.nodes[c + 3].quad);
                }
            }
        } else {
            assert(u.nodes[len + (m - len)].children is None);
        }
    }
    assert forall|a: int, b: int|
        0 <= a < u.nodes.len() && 0 <= b < u.nodes.len() && a != b implies #[trigger] u.blocks_apart(
        a,
        b,
    ) by {
        if a >= len {
            assert(u.nodes[len + (a - len)].children is None);
        } else if b >= len {
            assert(u.nodes[len + (b - len)].children is None);
        } else {
            assert(t.blocks_apart(a, b));
            assert(t.branch_ok(a));
            assert(t.branch_ok(b));
        }
    }
    assert forall|m: int, j: int|
        0 <= m < u.nodes.len() && 0 <= j < u.nodes[m].points_indices.len() implies (
    #[trigger] u.nodes[m].points_indices[j]) < count by {
        if m < len {
            assert(u.nodes[m].points_indices[j] == t.nodes[m].points_indices[j]);
        } else {
            let k = m - len;
            assert(u.nodes[len + k].points_indices == members_in_quadrant(members, ps, q, k));
            let x = members_in_quadrant(members, ps, q, k)[j];
            assert(members_in_quadrant(members, ps, q, k).contains(x));
            lemma_in_quadrant_has(members, ps, q, k, x);
            let w = choose|w: int| 0 <= w < members.len() && members[w] == x;
            assert(t.nodes[n].points_indices[w] < count);
        }
    }
}

/// At every node of a well-formed tree, the leaf that a point leads to is
/// an undivided node of the tree at or behind that node.
pub proof fn lemma_leaf_of(t: TreeModel, n: int, p: Vector2)
    requires
        t.wf(),
        0 <= n < t.nodes.len(),
    ensures
        n <= t.leaf_of(n, p) < t.nodes.len(),
        t.nodes[t.leaf_of(n, p)].children is None,
    decreases t.nodes.len() - n,
{
    assert(t.branch_ok(n));
    if t.divided(n) {
        lemma_leaf_of(t, t.first_child(n) + t.nodes[n].quad.spec_find_quadrant(p), p);
    }
}

/// Inserting a point with an index below `count` keeps the shape of the
/// tree and keeps all stored indices below `count`.
pub proof fn lemma_inserted_wf(
    t: TreeModel,
    ps: Seq<Vector2>,
    pos: Vector2,
    index: usize,
    count: int,
)
    requires
        t.wf(),
        t.indexes(count),
        index < count,
    ensures
        t.inserted(ps, pos, index).wf(),
        t.inserted(ps, pos, index).indexes(count),
{
    if t.boundary.spec_contains(pos) {
        lemma_leaf_of(t, 0, pos);
        let leaf = t.leaf_of(0, pos);
        lemma_pushed_wf(t, leaf, index, count);
        let grown = t.pushed(leaf, index);
        if t.splits(grown.nodes[leaf].quad, grown.nodes[leaf].points_indices.len()) {
            lemma_subdivided_wf(grown, ps, leaf, count);
        }
    }
}

/// Everything that a query gathers is a stored index, and so below `count`.
pub proof fn lemma_candidates_indexed(
    t: TreeModel,
    ps: Seq<Vector2>,
    range: Quad,
    n: int,
    count: int,
)
    requires
        t.wf(),
        t.indexes(count),
    ensures
        forall|k: int|
            0 <= k < t.candidates(ps, range, n).len() ==> (#[trigger] t.candidates(ps, range, n)[k])
                < count,
    decreases t.nodes.len() - n,
{
    if 0 <= n < t.nodes.len() && t.nodes[n].quad.spec_overlap(range) {
        if t.divided(n) {
            let c = t.first_child(n);
            lemma_candidates_indexed(t, ps, range, c, count);
            lemma_candidates_indexed(t, ps, range, c + 1, count);
            lemma_candidates_indexed(t, ps, range, c + 2, count);
            lemma_candidates_indexed(t, ps, range, c + 3, count);
            let s0 = t.candidates(ps, range, c);
            let s1 = t.candidates(ps, range, c + 1);
            let s2 = t.candidates(ps, range, c + 2);
            let s3 = t.candidates(ps, range, c + 3);
            let all = s0 + s1 + s2 + s3;
            assert(t.candidates(ps, range, n) == all);
            assert forall|k: int| 0 <= k < all.len() implies (#[trigger] all[k]) < count by {
                if k < s0.len() {
                    assert(all[k] == s0[k]);
                } else if k < s0.len() + s1.len() {
                    assert(all[k] == s1[k - s0.len()]);
                } else if k < s0.len() + s1.len() + s2.len() {
                    assert(all[k] == s2[k - s0.len() - s1.len()]);
                } else {
                    assert(all[k] == s3[k - s0.len() - s1.len() - s2.len()]);
                }
            }
        } else {
            let members = t.nodes[n].points_indices;
            assert forall|k: int| 0 <= k < members_in_range(members, ps, range).len() implies (
            #[trigger] members_in_range(members, ps, range)[k]) < count by {
                let x = members_in_range(members, ps, range)[k];
                assert(members_in_range(members, ps, range).contains(x));
                lemma_in_range_has(members, ps, range, x);
                let w = choose|w: int| 0 <= w < members.len() && members[w] == x;
                assert(t.nodes[n].points_indices[w] < count);
            }
        }
    }
}

/// A member falls into a quadrant exactly if it is among the members that
/// fall into it.
pub proof fn lemma_in_quadrant_has(members: Seq<usize>, ps: Seq<Vector2>, q: Quad, k: int, x: usize)
    ensures
        members_in_quadrant(members, ps, q, k).contains(x) <==> (members.contains(x)
            && q.spec_find_quadrant(ps[x as int]) == k),
    decreases members.len(),
{
    if members.len() == 0 {
    } else {
        let rest = members_in_quadrant(members.drop_last(), ps, q, k);
        lemma_in_quadrant_has(members.drop_last(), ps, q, k, x);
        lemma_last_contains(members, x);
        lemma_push_contains(rest, members.last(), x);
    }
}

/// A member lies inside a range exactly if it is among the members that
/// lie inside it.
pub proof fn lemma_in_range_has(members: Seq<usize>, ps: Seq<Vector2>, range: Quad, x: usize)
    ensures
        members_in_range(members, ps, range).contains(x) <==> (members.contains(x)
            && range.spec_contains(ps[x as int])),
    decreases members.len(),
{
    if members.len() == 0 {
    } else {
        let rest = members_in_range(members.drop_last(), ps, range);
        lemma_in_range_has(members.drop_last(), ps, range, x);
        lemma_last_contains(members, x);
        lemma_push_contains(rest, members.last(), x);
    }
}

/// A sequence without duplicates has none after its last element is taken away.
pub proof fn lemma_drop_last_no_duplicates(members: Seq<usize>)
    requires
        members.len() > 0,
        members.no_duplicates(),
    ensures
        members.drop_last().no_duplicates(),
        !members.drop_last().contains(members.last()),
{
    if members.drop_last().contains(members.last()) {
        let w = choose|w: int|
            0 <= w < members.drop_last().len() && members.drop_last()[w] == members.last();
        assert(members[w] == members[members.len() - 1]);
    }
}

/// Members without duplicates give members of a quadrant without duplicates.
pub proof fn lemma_in_quadrant_no_duplicates(members: Seq<usize>, ps: Seq<Vector2>, q: Quad, k: int)
    requires
        members.no_duplicates(),
    ensures
        members_in_quadrant(members, ps, q, k).no_duplicates(),
    decreases members.len(),
{
    if members.len() > 0 {
        lemma_drop_last_no_duplicates(members);
        lemma_in_quadrant_no_duplicates(members.drop_last(), ps, q, k);
        let rest = members_in_quadrant(members.drop_last(), ps, q, k);
        lemma_in_quadrant_has(members.drop_last(), ps, q, k, members.last());
        lemma_push_no_duplicates(rest, members.last());
    }
}

/// Members without duplicates give members inside a range without duplicates.
pub proof fn lemma_in_range_no_duplicates(members: Seq<usize>, ps: Seq<Vector2>, range: Quad)
    requires
        members.no_duplicates(),
    ensures
        members_in_range(members, ps, range).no_duplicates(),
    decreases members.len(),
{
    if members.len() > 0 {
        lemma_drop_last_no_duplicates(members);
        lemma_in_range_no_duplicates(members.drop_last(), ps, range);
        let rest = members_in_range(members.drop_last(), ps, range);
        lemma_in_range_has(members.drop_last(), ps, range, members.last());
        lemma_push_no_duplicates(rest, members.last());
    }
}

/// Two trees whose nodes agree in their squares and children lead every
/// point to the same leaf.
pub proof fn lemma_leaf_of_same_shape(t: TreeModel, u: TreeModel, n: int, p: Vector2)
    requires
        t.nodes.len() == u.nodes.len(),
        forall|m: int|
            0 <= m < t.nodes.len() ==> (#[trigger] u.nodes[m]).quad == t.nodes[m].quad
                && u.nodes[m].children == t.nodes[m].children,
    ensures
        u.leaf_of(n, p) == t.leaf_of(n, p),
    decreases t.nodes.len() - n,
{
    if t.divided(n) {
        assert(u.nodes[n].children == t.nodes[n].children);
        lemma_leaf_of_same_shape(
            t,
            u,
            t.first_child(n) + t.nodes[n].quad.spec_find_quadrant(p),
            p,
        );
    } else if 0 <= n < t.nodes.len() {
        assert(u.nodes[n].children == t.nodes[n].children);
    }
}

/// After leaf `l` has been divided, a point that led to `l` leads to the new
/// leaf for its quadrant, and every other point leads where it led before.
pub proof fn lemma_leaf_of_subdivided(t: TreeModel, ps: Seq<Vector2>, l: int, n: int, p: Vector2)
    requires
        t.wf(),
        0 <= l < t.nodes.len(),
        t.nodes[l].children is None,
        0 <= n < t.nodes.len(),
    ensures
        t.subdivided(ps, l).leaf_of(n, p) == if t.leaf_of(n, p) == l {
            t.nodes.len() + t.nodes[l].quad.spec_find_quadrant(p)
        } else {
            t.leaf_of(n, p)
        },
    decreases t.nodes.len() - n,
{
    let u = t.subdivided(ps, l);
    let len = t.nodes.len() as int;
    assert(t.branch_ok(n));
    if n == l {
        let k = t.nodes[l].quad.spec_find_quadrant(p) as int;
        assert(u.divided(l));
        assert(u.nodes[len + k].children is None);
        assert(!u.divided(len + k));
        assert(u.leaf_of(len + k, p) == len + k);
    } else if t.divided(n) {
        assert(u.nodes[n] == t.nodes[n]);
        assert(u.divided(n));
        lemma_leaf_of_subdivided(
            t,
            ps,
            l,
            t.first_child(n) + t.nodes[n].quad.spec_find_quadrant(p),
            p,
        );
    } else {
        assert(u.nodes[n] == t.nodes[n]);
        assert(!u.divided(n));
    }
}

/// Adding the index of a point to the leaf that the point leads to keeps the
/// tree true to the positions, if the index is new to the tree.
pub proof fn lemma_pushed_fresh(t: TreeModel, ps: Seq<Vector2>, index: usize, count: int)
    requires
        t.wf(),
        t.indexes(index as int),
        t.fresh(ps),
        t.complete(ps, count),
        index < ps.len(),
        t.boundary.spec_contains(ps[index as int]),
    ensures
        t.pushed(t.leaf_of(0, ps[index as int]), index).fresh(ps),
        t.pushed(t.leaf_of(0, ps[index as int]), index).complete(ps, count),
        t.pushed(t.leaf_of(0, ps[index as int]), index).stored(ps, index as int),
{
    let l = t.leaf_of(0, ps[index as int]);
    lemma_leaf_of(t, 0, ps[index as int]);
    let u = t.pushed(l, index);
    assert forall|p: Vector2| u.leaf_of(0, p) == t.leaf_of(0, p) by {
        lemma_leaf_of_same_shape(t, u, 0, p);
    }
    assert forall|n: int, j: int|
        0 <= n < u.nodes.len() && 0 <= j < u.nodes[n].points_indices.len() implies #[trigger] u.member_ok(
        ps,
        n,
        j,
    ) by {
        if n == l && j == t.nodes[l].points_indices.len() {
        } else {
            assert(t.member_ok(ps, n, j));
            assert(u.nodes[n].points_indices[j] == t.nodes[n].points_indices[j]);
        }
    }
    assert forall|n: int| 0 <= n < u.nodes.len() implies (
    #[trigger] u.nodes[n]).points_indices.no_duplicates() by {
        assert(t.nodes[n].points_indices.no_duplicates());
        if n == l {
            let members = t.nodes[l].points_indices;
            if members.contains(index) {
                let w = choose|w: int| 0 <= w < members.len() && members[w] == index;
                assert(t.nodes[l].points_indices[w] < index);
            }
            lemma_push_no_duplicates(members, index);
        }
    }
    assert forall|i: int| 0 <= i < count && u.boundary.spec_contains(ps[i]) implies #[trigger] u.stored(
        ps,
        i,
    ) by {
        assert(t.stored(ps, i));
        let n = t.leaf_of(0, ps[i]);
        lemma_leaf_of(t, 0, ps[i]);
        if n == l {
            lemma_push_contains(t.nodes[l].points_indices, index, i as usize);
        }
    }
    lemma_push_contains(t.nodes[l].points_indices, index, index);
}

/// Dividing a leaf keeps the tree true to the positions, and keeps every
/// stored point stored.
pub proof fn lemma_subdivided_fresh(t: TreeModel, ps: Seq<Vector2>, l: int, count: int)
    requires
        t.wf(),
        t.fresh(ps),
        t.complete(ps, count),
        count <= usize::MAX + 1,
        0 <= l < t.nodes.len(),
        t.nodes[l].children is None,
    ensures
        t.subdivided(ps, l).fresh(ps),
        t.subdivided(ps, l).complete(ps, count),
{
    let u = t.subdivided(ps, l);
    let len = t.nodes.len() as int;
    let q = t.nodes[l].quad;
    let members = t.nodes[l].points_indices;
    assert(t.nodes[l].points_indices.no_duplicates());
    assert forall|k: int| 0 <= k < 4 implies #[trigger] u.nodes[len + k] == (NodeModel {
        quad: q.spec_get_quadrant(k),
        children: None,
        points_indices: members_in_quadrant(members, ps, q, k),
    }) by {}
    assert forall|n: int, j: int|
        0 <= n < u.nodes.len() && 0 <= j < u.nodes[n].points_indices.len() implies #[trigger] u.member_ok(
        ps,
        n,
        j,
    ) by {
        if n < len {
            assert(n != l);
            assert(u.nodes[n] == t.nodes[n]);
            assert(t.member_ok(ps, n, j));
            let i = t.nodes[n].points_indices[j] as int;
            lemma_leaf_of_subdivided(t, ps, l, 0, ps[i]);
        } else {
            let k = n - len;
            assert(u.nodes[len + k].points_indices == members_in_quadrant(members, ps, q, k));
            let x = members_in_quadrant(members, ps, q, k)[j];
            assert(members_in_quadrant(members, ps, q, k).contains(x));
            lemma_in_quadrant_has(members, ps, q, k, x);
            let w = choose|w: int| 0 <= w < members.len() && members[w] == x;
            assert(t.member_ok(ps, l, w));
            lemma_leaf_of_subdivided(t, ps, l, 0, ps[x as int]);
        }
    }
    assert forall|n: int| 0 <= n < u.nodes.len() implies (
    #[trigger] u.nodes[n]).points_indices.no_duplicates() by {
        if n < len {
            if n != l {
                assert(u.nodes[n] == t.nodes[n]);
                assert(t.nodes[n].points_indices.no_duplicates());
            }
        } else {
            let k = n - len;
            assert(u.nodes[len + k].points_indices == members_in_quadrant(members, ps, q, k));
            lemma_in_quadrant_no_duplicates(members, ps, q, k);
        }
    }
    assert forall|i: int| 0 <= i < count && u.boundary.spec_contains(ps[i]) implies #[trigger] u.stored(
        ps,
        i,
    ) by {
        assert(t.stored(ps, i));
        let n = t.leaf_of(0, ps[i]);
        lemma_leaf_of(t, 0, ps[i]);
        lemma_leaf_of_subdivided(t, ps, l, 0, ps[i]);
        if n == l {
            let k = q.spec_find_quadrant(ps[i]) as int;
            assert(u.nodes[len + k].points_indices == members_in_quadrant(members, ps, q, k));
            lemma_in_quadrant_has(members, ps, q, k, i as usize);
        } else {
            assert(u.nodes[n] == t.nodes[n]);
        }
    }
}

/// Inserting the next point keeps a tree in step with the positions.
pub proof fn lemma_inserted_in_step(t: TreeModel, ps: Seq<Vector2>, index: usize)
    requires
        t.wf(),
        t.indexes(index as int),
        t.fresh(ps),
        t.complete(ps, index as int),
        index < ps.len(),
    ensures
        t.inserted(ps, ps[index as int], index).wf(),
        t.inserted(ps, ps[index as int], index).indexes(index + 1),
        t.inserted(ps, ps[index as int], index).fresh(ps),
        t.inserted(ps, ps[index as int], index).complete(ps, index + 1),
{
    let pos = ps[index as int];
    let u = t.inserted(ps, pos, index);
    lemma_indexes_more(t, index as int, index + 1);
    lemma_inserted_wf(t, ps, pos, index, index + 1);
    if t.boundary.spec_contains(pos) {
        lemma_leaf_of(t, 0, pos);
        let leaf = t.leaf_of(0, pos);
        lemma_pushed_fresh(t, ps, index, index as int);
        lemma_pushed_wf(t, leaf, index, index + 1);
        let grown = t.pushed(leaf, index);
        assert forall|i: int|
            0 <= i < index + 1 && grown.boundary.spec_contains(ps[i]) implies #[trigger] grown.stored(
            ps,
            i,
        ) by {
            if i < index {
                assert(grown.complete(ps, index as int));
            }
        }
        if t.splits(grown.nodes[leaf].quad, grown.nodes[leaf].points_indices.len()) {
            lemma_subdivided_fresh(grown, ps, leaf, index + 1);
        }
    } else {
        assert forall|i: int|
            0 <= i < index + 1 && u.boundary.spec_contains(ps[i]) implies #[trigger] u.stored(
            ps,
            i,
        ) by {
            assert(t.complete(ps, index as int));
        }
    }
}

/// A tree that is true to some positions is true to any others that agree
/// with them on the first `count` points, if it stores no index beyond those.
pub proof fn lemma_fresh_agree(t: TreeModel, ps: Seq<Vector2>, qs: Seq<Vector2>, count: int)
    requires
        t.wf(),
        t.indexes(count),
        t.fresh(ps),
        t.complete(ps, count),
        0 <= count <= ps.len(),
        count <= qs.len(),
        forall|i: int| 0 <= i < count ==> ps[i] == qs[i],
    ensures
        t.fresh(qs),
        t.complete(qs, count),
{
    assert forall|n: int, j: int|
        0 <= n < t.nodes.len() && 0 <= j < t.nodes[n].points_indices.len() implies #[trigger] t.member_ok(
        qs,
        n,
        j,
    ) by {
        assert(t.member_ok(ps, n, j));
        assert(t.nodes[n].points_indices[j] < count);
    }
    assert forall|i: int| 0 <= i < count && t.boundary.spec_contains(qs[i]) implies #[trigger] t.stored(
        qs,
        i,
    ) by {
        assert(t.stored(ps, i));
    }
}

/// Indices that are below a number are below every larger number.
pub proof fn lemma_indexes_more(t: TreeModel, count: int, more: int)
    requires
        t.indexes(count),
        count <= more,
    ensures
        t.indexes(more),
{
    assert forall|n: int, j: int|
        0 <= n < t.nodes.len() && 0 <= j < t.nodes[n].points_indices.len() implies (
    #[trigger] t.nodes[n].points_indices[j]) < more by {
        assert(t.nodes[n].points_indices[j] < count);
    }
}

/// Inserting points leaves the settings of a tree as they are.
pub proof fn lemma_built_settings(t: TreeModel, ps: Seq<Vector2>, from: int, to: int)
    ensures
        t.built(ps, from, to).same_settings(t),
    decreases to - from,
{
    if to > from {
        lemma_built_settings(t, ps, from, to - 1);
    }
}

/// A tree that has been built from nothing by inserting the first `count`
/// points is in step with those points.
pub proof fn lemma_built_in_step(t: TreeModel, ps: Seq<Vector2>, count: int)
    requires
        t.boundary.wf(),
        0 <= count <= ps.len(),
        count <= usize::MAX,
    ensures
        t.cleared().built(ps, 0, count).wf(),
        t.cleared().built(ps, 0, count).indexes(count),
        t.cleared().built(ps, 0, count).fresh(ps),
        t.cleared().built(ps, 0, count).complete(ps, count),
    decreases count,
{
    if count == 0 {
        let e = t.cleared();
        assert(e.branch_ok(0));
    } else {
        lemma_built_in_step(t, ps, count - 1);
        lemma_inserted_in_step(t.cleared().built(ps, 0, count - 1), ps, (count - 1) as usize);
    }
}

/// The walk for a point from a node comes through the leaf that the point
/// leads to from there.
pub proof fn lemma_passes_leaf(t: TreeModel, n: int, p: Vector2)
    ensures
        t.passes(n, t.leaf_of(n, p), p),
    decreases t.nodes.len() - n,
{
    if t.divided(n) {
        lemma_passes_leaf(t, t.first_child(n) + t.nodes[n].quad.spec_find_quadrant(p), p);
    }
}

/// A walk that comes through a child of node `n` has come through `n`, and
/// has left it for the quadrant of that child.
pub proof fn lemma_passes_parent(t: TreeModel, from: int, n: int, k: int, p: Vector2)
    requires
        t.wf(),
        0 <= from < t.nodes.len(),
        t.divided(n),
        0 <= k < 4,
        from != t.first_child(n) + k,
        t.passes(from, t.first_child(n) + k, p),
    ensures
        t.passes(from, n, p),
        t.nodes[n].quad.spec_find_quadrant(p) == k,
    decreases t.nodes.len() - from,
{
    let target = t.first_child(n) + k;
    assert(t.divided(from));
    let next = t.first_child(from) + t.nodes[from].quad.spec_find_quadrant(p);
    assert(t.branch_ok(from));
    assert(t.branch_ok(n));
    if next == target {
        if from != n {
            assert(t.blocks_apart(from, n));
        }
    } else {
        lemma_passes_parent(t, next, n, k, p);
    }
}

/// What a query gathers below a node are indices of points inside the
/// boundary and inside the range whose walk from the root comes through
/// that node.
pub proof fn lemma_candidates_sound(t: TreeModel, ps: Seq<Vector2>, range: Quad, n: int, x: usize)
    requires
        t.wf(),
        t.fresh(ps),
        t.candidates(ps, range, n).contains(x),
    ensures
        0 <= n < t.nodes.len(),
        x < ps.len(),
        t.boundary.spec_contains(ps[x as int]),
        range.spec_contains(ps[x as int]),
        t.passes(0, n, ps[x as int]),
    decreases t.nodes.len() - n,
{
    if 0 <= n < t.nodes.len() && t.nodes[n].quad.spec_overlap(range) {
        assert(t.branch_ok(n));
        if t.divided(n) {
            let c = t.first_child(n);
            let s0 = t.candidates(ps, range, c);
            let s1 = t.candidates(ps, range, c + 1);
            let s2 = t.candidates(ps, range, c + 2);
            let s3 = t.candidates(ps, range, c + 3);
            lemma_concat_contains(s0 + s1 + s2, s3, x);
            lemma_concat_contains(s0 + s1, s2, x);
            lemma_concat_contains(s0, s1, x);
            let k: int = if s0.contains(x) {
                0
            } else if s1.contains(x) {
                1
            } else if s2.contains(x) {
                2
            } else {
                3
            };
            lemma_candidates_sound(t, ps, range, c + k, x);
            lemma_passes_parent(t, 0, n, k, ps[x as int]);
        } else {
            let members = t.nodes[n].points_indices;
            lemma_in_range_has(members, ps, range, x);
            let w = choose|w: int| 0 <= w < members.len() && members[w] == x;
            assert(t.member_ok(ps, n, w));
            lemma_passes_leaf(t, 0, ps[x as int]);
        }
    } else {
        assert(t.candidates(ps, range, n) =~= Seq::<usize>::empty());
    }
}

/// A query below a node whose square covers a point inside the range
/// gathers the index of that point, if the leaf that the point leads to
/// from the node holds it.
pub proof fn lemma_candidates_reach(t: TreeModel, ps: Seq<Vector2>, range: Quad, n: int, x: usize)
    requires
        t.wf(),
        0 <= n < t.nodes.len(),
        t.nodes[n].quad.covers(ps[x as int]),
        range.spec_contains(ps[x as int]),
        t.nodes[t.leaf_of(n, ps[x as int])].points_indices.contains(x),
    ensures
        t.candidates(ps, range, n).contains(x),
    decreases t.nodes.len() - n,
{
    let p = ps[x as int];
    lemma_covers_overlap(t.nodes[n].quad, range, p);
    assert(t.branch_ok(n));
    if t.divided(n) {
        let c = t.first_child(n);
        let k = t.nodes[n].quad.spec_find_quadrant(p) as int;
        assert(t.nodes[n].quad.wf());
        lemma_quadrant_covers(t.nodes[n].quad, p);
        lemma_candidates_reach(t, ps, range, c + k, x);
        let s0 = t.candidates(ps, range, c);
        let s1 = t.candidates(ps, range, c + 1);
        let s2 = t.candidates(ps, range, c + 2);
        let s3 = t.candidates(ps, range, c + 3);
        lemma_concat_contains(s0 + s1 + s2, s3, x);
        lemma_concat_contains(s0 + s1, s2, x);
        lemma_concat_contains(s0, s1, x);
    } else {
        lemma_in_range_has(t.nodes[n].points_indices, ps, range, x);
    }
}

/// What a query gathers below a node holds no index twice.
pub proof fn lemma_candidates_no_duplicates(t: TreeModel, ps: Seq<Vector2>, range: Quad, n: int)
    requires
        t.wf(),
        t.fresh(ps),
    ensures
        t.candidates(ps, range, n).no_duplicates(),
    decreases t.nodes.len() - n,
{
    if 0 <= n < t.nodes.len() && t.nodes[n].quad.spec_overlap(range) {
        assert(t.branch_ok(n));
        if t.divided(n) {
            let c = t.first_child(n);
            let s0 = t.candidates(ps, range, c);
            let s1 = t.candidates(ps, range, c + 1);
            let s2 = t.candidates(ps, range, c + 2);
            let s3 = t.candidates(ps, range, c + 3);
            lemma_candidates_no_duplicates(t, ps, range, c);
            lemma_candidates_no_duplicates(t, ps, range, c + 1);
            lemma_candidates_no_duplicates(t, ps, range, c + 2);
            lemma_candidates_no_duplicates(t, ps, range, c + 3);
            assert forall|x: usize| !(s0.contains(x) && s1.contains(x)) by {
                if s0.contains(x) && s1.contains(x) {
                    lemma_siblings_apart(t, ps, range, n, 0, 1, x);
                }
            }
            lemma_concat_no_duplicates(s0, s1);
            assert forall|x: usize| !((s0 + s1).contains(x) && s2.contains(x)) by {
                lemma_concat_contains(s0, s1, x);
                if s0.contains(x) && s2.contains(x) {
                    lemma_siblings_apart(t, ps, range, n, 0, 2, x);
                }
                if s1.contains(x) && s2.contains(x) {
                    lemma_siblings_apart(t, ps, range, n, 1, 2, x);
                }
            }
            lemma_concat_no_duplicates(s0 + s1, s2);
            assert forall|x: usize| !((s0 + s1 + s2).contains(x) && s3.contains(x)) by {
                lemma_concat_contains(s0 + s1, s2, x);
                lemma_concat_contains(s0, s1, x);
                if s0.contains(x) && s3.contains(x) {
                    lemma_siblings_apart(t, ps, range, n, 0, 3, x);
                }
                if s1.contains(x) && s3.contains(x) {
                    lemma_siblings_apart(t, ps, range, n, 1, 3, x);
                }
                if s2.contains(x) && s3.contains(x) {
                    lemma_siblings_apart(t, ps, range, n, 2, 3, x);
                }
            }
            lemma_concat_no_duplicates(s0 + s1 + s2, s3);
        } else {
            assert(t.nodes[n].points_indices.no_duplicates());
            lemma_in_range_no_duplicates(t.nodes[n].points_indices, ps, range);
        }
    }
}

/// An index that is gathered below two children of one node is gathered
/// below one and the same child.
pub proof fn lemma_siblings_apart(
    t: TreeModel,
    ps: Seq<Vector2>,
    range: Quad,
    n: int,
    j: int,
    k: int,
    x: usize,
)
    requires
        t.wf(),
        t.fresh(ps),
        t.divided(n),
        0 <= j < 4,
        0 <= k < 4,
        t.candidates(ps, range, t.first_child(n) + j).contains(x),
        t.candidates(ps, range, t.first_child(n) + k).contains(x),
    ensures
        j == k,
{
    let c = t.first_child(n);
    lemma_candidates_sound(t, ps, range, c + j, x);
    lemma_candidates_sound(t, ps, range, c + k, x);
    lemma_passes_parent(t, 0, n, j, ps[x as int]);
    lemma_passes_parent(t, 0, n, k, ps[x as int]);
}

/// The square of the root covers every point inside the boundary.
pub proof fn lemma_root_covers(t: TreeModel, p: Vector2)
    requires
        t.wf(),
        t.boundary.spec_contains(p),
    ensures
        t.nodes[0].quad.covers(p),
{
    lemma_contains_covers(t.boundary, p);
}

/// A query on a tree that is in step with the positions gathers, each
/// once, the indices of exactly those points that lie inside the boundary
/// and inside the range: what a scan of all points would find.
pub proof fn lemma_query_is_scan(t: TreeModel, ps: Seq<Vector2>, range: Quad)
    requires
        t.in_step(ps),
    ensures
        t.candidates(ps, range, 0).no_duplicates(),
        forall|x: usize|
            t.candidates(ps, range, 0).contains(x) <==> (x < ps.len() && t.boundary.spec_contains(
                ps[x as int],
            ) && range.spec_contains(ps[x as int])),
{
    lemma_candidates_no_duplicates(t, ps, range, 0);
    assert forall|x: usize|
        t.candidates(ps, range, 0).contains(x) <==> (x < ps.len() && t.boundary.spec_contains(
            ps[x as int],
        ) && range.spec_contains(ps[x as int])) by {
        if t.candidates(ps, range, 0).contains(x) {
            lemma_candidates_sound(t, ps, range, 0, x);
        }
        if x < ps.len() && t.boundary.spec_contains(ps[x as int]) && range.spec_contains(
            ps[x as int],
        ) {
            lemma_root_covers(t, ps[x as int]);
            assert(t.stored(ps, x as int));
            lemma_candidates_reach(t, ps, range, 0, x);
        }
    }
}

/// Where every point lies inside the boundary, a query on a tree that is
/// in step with the positions gathers, each once, the indices of exactly
/// those points that lie inside the range.
pub proof fn lemma_query_is_scan_inside(t: TreeModel, ps: Seq<Vector2>, range: Quad)
    requires
        t.in_step(ps),
        forall|i: int| 0 <= i < ps.len() ==> t.boundary.spec_contains(#[trigger] ps[i]),
    ensures
        t.candidates(ps, range, 0).no_duplicates(),
        forall|x: usize|
            t.candidates(ps, range, 0).contains(x) <==> (x < ps.len() && range.spec_contains(
                ps[x as int],
            )),
{
    lemma_query_is_scan(t, ps, range);
}

/// Which members fall into a quadrant depends only on the positions of the
/// members.
pub proof fn lemma_in_quadrant_agree(
    members: Seq<usize>,
    ps: Seq<Vector2>,
    qs: Seq<Vector2>,
    q: Quad,
    k: int,
)
    requires
        forall|j: int| 0 <= j < members.len() ==> ps[members[j] as int] == qs[members[j] as int],
    ensures
        members_in_quadrant(members, ps, q, k) == members_in_quadrant(members, qs, q, k),
    decreases members.len(),
{
    if members.len() > 0 {
        lemma_in_quadrant_agree(members.drop_last(), ps, qs, q, k);
    }
}

/// Inserting the points `from` up to `to` gives the same tree for any two
/// sequences of positions that agree on the first `to` points.
pub proof fn lemma_built_agree(
    t: TreeModel,
    ps: Seq<Vector2>,
    qs: Seq<Vector2>,
    from: int,
    to: int,
)
    requires
        t.wf(),
        t.indexes(from),
        0 <= from <= to,
        to <= ps.len(),
        to <= qs.len(),
        to <= usize::MAX + 1,
        forall|i: int| 0 <= i < to ==> ps[i] == qs[i],
    ensures
        t.built(ps, from, to) == t.built(qs, from, to),
        t.built(ps, from, to).wf(),
        t.built(ps, from, to).indexes(to),
    decreases to - from,
{
    if to > from {
        lemma_built_agree(t, ps, qs, from, to - 1);
        let b = t.built(ps, from, to - 1);
        let index = (to - 1) as usize;
        let pos = ps[to - 1];
        lemma_indexes_more(b, to - 1, to);
        lemma_inserted_wf(b, ps, pos, index, to);
        if b.boundary.spec_contains(pos) {
            lemma_leaf_of(b, 0, pos);
            let leaf = b.leaf_of(0, pos);
            let grown = b.pushed(leaf, index);
            lemma_pushed_wf(b, leaf, index, to);
            let members = grown.nodes[leaf].points_indices;
            let q = grown.nodes[leaf].quad;
            assert forall|j: int| 0 <= j < members.len() implies ps[members[j] as int]
                == qs[members[j] as int] by {
                assert(grown.nodes[leaf].points_indices[j] < to);
            }
            assert forall|k: int| 0 <= k < 4 implies members_in_quadrant(members, ps, q, k)
                == members_in_quadrant(members, qs, q, k) by {
                lemma_in_quadrant_agree(members, ps, qs, q, k);
            }
            assert(grown.subdivided(ps, leaf).nodes =~= grown.subdivided(qs, leaf).nodes);
        }
    }
}

} // verus!
