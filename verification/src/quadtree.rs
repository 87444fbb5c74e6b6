use vstd::prelude::*;
use crate::quad::Quad;
use crate::tree::{NodeModel, TreeModel, members_in_quadrant, members_in_range};
use crate::tree_laws::{
    lemma_built_in_step, lemma_candidates_indexed, lemma_fresh_agree, lemma_indexes_more,
    lemma_inserted_in_step, lemma_pushed_wf, lemma_query_is_scan, lemma_subdivided_wf,
};
use crate::vector::Vector2;

verus! {

/// Something that has a position in the plane.
pub trait Point {
    /// The position, as specifications see it.
    spec fn spec_pos(&self) -> Vector2;

    /// The position.
    fn pos(&self) -> (p: Vector2)
        ensures
            p == self.spec_pos(),
    ;
}

/// The positions of a sequence of points.
pub open spec fn positions<T: Point>(points: Seq<T>) -> Seq<Vector2> {
    Seq::new(points.len(), |i: int| points[i].spec_pos())
}

/// A node of the tree.
pub struct QTNode {
    quad: Quad,
    // Index of the first of the four children in the arena of the tree.
    children: Option<usize>,
    points_indices: Vec<usize>,
}

impl View for QTNode {
    type V = NodeModel;

    closed spec fn view(&self) -> NodeModel {
        NodeModel {
            quad: self.quad,
            children: match self.children {
                Some(c) => Some(c as int),
                None => None,
            },
            points_indices: self.points_indices@,
        }
    }
}

impl QTNode {
    /// An undivided node for the square `quad`, without points.
    pub fn new(quad: Quad) -> (node: Self)
        ensures
            node@ == NodeModel::empty(quad),
    {
        QTNode { quad, children: None, points_indices: Vec::new() }
    }

    /// Whether the node has been divided.
    pub fn is_branch(&self) -> (r: bool)
        ensures
            r == (self@.children is Some),
    {
        self.children.is_some()
    }

    /// Whether the node is undivided.
    pub fn is_leaf(&self) -> (r: bool)
        ensures
            r == (self@.children is None),
    {
        self.children.is_none()
    }

    /// Whether the node holds no points of its own.
    pub fn is_empty(&self) -> (r: bool)
        ensures
            r == (self@.points_indices.len() == 0),
    {
        self.points_indices.len() == 0
    }
}

/// What a quadtree holds: its points, and the tree of the indices of those
/// points that have been inserted.
pub struct QuadtreeView<T> {
    pub points: Seq<T>,
    pub tree: TreeModel,
}

/// A quadtree over a boundary square. The points are kept in one list in
/// the order in which they were pushed; the nodes hold their indices. A leaf
/// that comes to hold more than `split_thresh` points is divided into four,
/// unless its half size is down to `min_size` or is odd, and so has no half.
pub struct Quadtree<T: Point> {
    points: Vec<T>,
    nodes: Vec<QTNode>,
    boundary: Quad,
    split_thresh: usize,
    min_size: i64,
}

impl<T: Point> View for Quadtree<T> {
    type V = QuadtreeView<T>;

    closed spec fn view(&self) -> QuadtreeView<T> {
        QuadtreeView {
            points: self.points@,
            tree: TreeModel {
                nodes: Seq::new(self.nodes@.len(), |i: int| self.nodes@[i]@),
                boundary: self.boundary,
                split_thresh: self.split_thresh,
                min_size: self.min_size,
            },
        }
    }
}

impl<T: Point> Quadtree<T> {
    /// The tree has the shape of a tree, and every stored index is that of
    /// one of the points.
    pub open spec fn wf(&self) -> bool {
        &&& self@.tree.wf()
        &&& self@.tree.indexes(self@.points.len() as int)
    }

    /// The positions of the points.
    pub open spec fn spec_positions(&self) -> Seq<Vector2> {
        positions(self@.points)
    }

    /// The tree indexes the points as they are now: every point inside the
    /// boundary is stored, once, in the leaf that its position leads to.
    pub open spec fn in_step(&self) -> bool {
        self@.tree.in_step(self.spec_positions())
    }

    /// The number of points fits in a `usize`.
    pub proof fn lemma_points_bounded(&self)
        ensures
            self@.points.len() <= usize::MAX,
    {
        assert(self.points@.len() == self.points.len());
    }

    /// A quadtree over `boundary` without points: one empty root.
    pub fn new(boundary: Quad, split_thresh: usize, min_size: i64) -> (tree: Self)
        requires
            boundary.wf(),
        ensures
            tree.wf(),
            tree.in_step(),
            tree@.points == Seq::<T>::empty(),
            tree@.tree == TreeModel::empty(boundary, split_thresh, min_size),
    {
        let mut nodes: Vec<QTNode> = Vec::new();
        nodes.push(QTNode::new(boundary));
        let tree = Quadtree { points: Vec::new(), nodes, boundary, split_thresh, min_size };
        assert(tree@.tree.nodes =~= seq![NodeModel::empty(boundary)]);
        proof {
            lemma_built_in_step(tree@.tree, tree.spec_positions(), 0);
        }
        tree
    }

    /// The number of nodes, for a line of diagnostics.
    pub fn debug(&self) -> (nodes: usize)
        ensures
            nodes == self@.tree.nodes.len(),
    {
        self.nodes.len()
    }

    /// Forgets every node and starts again from one empty root. The points stay.
    pub fn clear(&mut self)
        requires
            old(self).wf(),
        ensures
            final(self).wf(),
            final(self)@.points == old(self)@.points,
            final(self)@.tree == old(self)@.tree.cleared(),
    {
        self.nodes.clear();
        self.nodes.push(QTNode::new(self.boundary));
        assert(self@.tree.nodes =~= seq![NodeModel::empty(self.boundary)]);
    }

    /// The number of nodes in the arena.
    pub fn total_nodes(&self) -> (n: usize)
        ensures
            n == self@.tree.nodes.len(),
    {
        self.nodes.len()
    }

    /// The number of points.
    pub fn total_points(&self) -> (n: usize)
        ensures
            n == self@.points.len(),
    {
        self.points.len()
    }

    /// The points, in the order in which they were pushed.
    pub fn points(&self) -> (points: &Vec<T>)
        ensures
            points@ == self@.points,
    {
        &self.points
    }

    /// Puts `point` in the place of point `index`. The nodes are not
    /// touched: until the next `rebuild` the index stays in the leaf that
    /// the old position led to.
    pub fn set_point(&mut self, index: usize, point: T)
        requires
            index < old(self)@.points.len(),
        ensures
            final(self)@.points == old(self)@.points.update(index as int, point),
            final(self)@.tree == old(self)@.tree,
    {
        self.points.set(index, point);
        assert(self@.tree.nodes =~= old(self)@.tree.nodes);
    }

    /// The squares of all nodes, in arena order.
    pub fn node_regions(&self) -> (regions: Vec<Quad>)
        ensures
            regions@.len() == self@.tree.nodes.len(),
            forall|i: int|
                0 <= i < regions@.len() ==> #[trigger] regions@[i] == self@.tree.nodes[i].quad,
    {
        let mut regions: Vec<Quad> = Vec::new();
        let mut i: usize = 0;
        while i < self.nodes.len()
            invariant
                i <= self.nodes.len(),
                regions@.len() == i,
                forall|k: int| 0 <= k < i ==> #[trigger] regions@[k] == self@.tree.nodes[k].quad,
            decreases self.nodes.len() - i,
        {
            regions.push(self.nodes[i].quad);
            i += 1;
        }
        regions
    }

    /// Adds `point` to the points and inserts its index into the tree.
    pub fn push(&mut self, point: T)
        requires
            old(self).wf(),
        ensures
            final(self).wf(),
            final(self)@.points == old(self)@.points.push(point),
            final(self)@.tree == old(self)@.tree.inserted(
                final(self).spec_positions(),
                point.spec_pos(),
                old(self)@.points.len() as usize,
            ),
            final(self)@.tree.same_settings(old(self)@.tree),
            old(self).in_step() ==> final(self).in_step(),
    {
        let pos = point.pos();
        self.points.push(point);
        assert(self@.tree.nodes =~= old(self)@.tree.nodes);
        let index: usize = self.points.len() - 1;
        proof {
            lemma_indexes_more(self@.tree, index as int, index + 1);
            if old(self).in_step() {
                lemma_fresh_agree(
                    self@.tree,
                    old(self).spec_positions(),
                    self.spec_positions(),
                    index as int,
                );
                lemma_inserted_in_step(self@.tree, self.spec_positions(), index);
            }
        }
        self.insert(pos, index);
    }

    /// Inserts the index of a point at `pos`: it is added to the leaf that
    /// `pos` leads to, and that leaf is divided if it has come to hold too
    /// many. A point that is not inside the boundary is passed over.
    fn insert(&mut self, pos: Vector2, index: usize)
        requires
            old(self)@.tree.wf(),
            old(self)@.tree.indexes(old(self)@.points.len() as int),
            index < old(self)@.points.len(),
        ensures
            final(self).wf(),
            final(self)@.points == old(self)@.points,
            final(self)@.tree == old(self)@.tree.inserted(old(self).spec_positions(), pos, index),
    {
        if !self.boundary.contains(pos) {
            return ;
        }
        let mut node: usize = 0;
        while self.nodes[node].is_branch()
            invariant
                node < self.nodes.len(),
                self@ == old(self)@,
                self@.tree.wf(),
                self@.tree.leaf_of(0, pos) == self@.tree.leaf_of(node as int, pos),
            decreases self.nodes.len() - node,
        {
            assert(self@.tree.branch_ok(node as int));
            assert(self.nodes@.len() == self.nodes.len());
            let quadrant: usize = self.nodes[node].quad.find_quadrant(pos);
            node = self.nodes[node].children.unwrap() + quadrant;
        }
        assert(self@.tree.leaf_of(node as int, pos) == node);
        self.nodes[node].points_indices.push(index);
        assert(self@.tree.nodes =~= old(self)@.tree.pushed(node as int, index).nodes);
        assert(self@.tree == old(self)@.tree.pushed(node as int, index));
        proof {
            lemma_pushed_wf(old(self)@.tree, node as int, index, self@.points.len() as int);
        }
        if self.nodes[node].points_indices.len() > self.split_thresh
            && self.nodes[node].quad.half_size > self.min_size
            && self.nodes[node].quad.half_size % 2 == 0 {
            self.subdivide(node);
        }
    }

    /// Divides a leaf: four new leaves at the end of the arena take over its
    /// members, each the members of its quadrant. Only this one leaf is
    /// divided, however many members one of the new leaves may hold.
    fn subdivide(&mut self, node: usize)
        requires
            old(self)@.tree.wf(),
            old(self)@.tree.indexes(old(self)@.points.len() as int),
            node < old(self)@.tree.nodes.len(),
            old(self)@.tree.nodes[node as int].children is None,
            old(self)@.tree.nodes[node as int].quad.divisible(),
        ensures
            final(self).wf(),
            final(self)@.points == old(self)@.points,
            final(self)@.tree == old(self)@.tree.subdivided(
                old(self).spec_positions(),
                node as int,
            ),
    {
        let ghost before = self@.tree;
        let ghost ps = self.spec_positions();
        let new_children: usize = self.nodes.len();
        let quad: Quad = self.nodes[node].quad;
        let sub_quads: [Quad; 4] = quad.split_quadrants();
        let mut k: usize = 0;
        while k < 4
            invariant
                k <= 4,
                self@.points == old(self)@.points,
                self@.tree.boundary == before.boundary,
                self@.tree.split_thresh == before.split_thresh,
                self@.tree.min_size == before.min_size,
                self.nodes@.len() == new_children + k,
                forall|i: int| 0 <= i < new_children ==> self.nodes@[i]@ == before.nodes[i],
                forall|i: int|
                    0 <= i < k ==> (#[trigger] self.nodes@[new_children + i])@ == NodeModel::empty(
                        quad.spec_get_quadrant(i),
                    ),
                forall|i: int| 0 <= i < 4 ==> #[trigger] sub_quads@[i] == quad.spec_get_quadrant(i),
                new_children == before.nodes.len(),
            decreases 4 - k,
        {
            self.nodes.push(QTNode::new(sub_quads[k]));
            k += 1;
        }
        assert(self.nodes@.len() == self.nodes.len());
        let count: usize = self.nodes[node].points_indices.len();
        let ghost members = before.nodes[node as int].points_indices;
        let mut j: usize = 0;
        while j < count
            invariant
                j <= count,
                count == members.len(),
                node < new_children,
                self@.points == old(self)@.points,
                self@.tree.boundary == before.boundary,
                self@.tree.split_thresh == before.split_thresh,
                self@.tree.min_size == before.min_size,
                ps == positions(self@.points),
                before.indexes(self@.points.len() as int),
                members == before.nodes[node as int].points_indices,
                quad == before.nodes[node as int].quad,
                self.nodes@.len() == new_children + 4,
                new_children + 4 <= usize::MAX,
                new_children == before.nodes.len(),
                forall|i: int| 0 <= i < new_children ==> self.nodes@[i]@ == before.nodes[i],
                forall|i: int|
                    0 <= i < 4 ==> (#[trigger] self.nodes@[new_children + i])@ == (NodeModel {
                        quad: quad.spec_get_quadrant(i),
                        children: None,
                        points_indices: members_in_quadrant(members.take(j as int), ps, quad, i),
                    }),
            decreases count - j,
        {
            let i: usize = self.nodes[node].points_indices[j];
            assert(i == members[j as int]);
            assert(i < self@.points.len());
            let quadrant: usize = quad.find_quadrant(self.points[i].pos());
            assert(members.take(j + 1).drop_last() =~= members.take(j as int));
            self.nodes[new_children + quadrant].points_indices.push(i);
            j += 1;
        }
        assert(members.take(count as int) =~= members);
        self.nodes[node].points_indices.clear();
        self.nodes[node].children = Some(new_children);
        proof {
            let after = before.subdivided(ps, node as int);
            assert(self@.tree.nodes.len() == after.nodes.len());
            assert forall|i: int| 0 <= i < after.nodes.len() implies self@.tree.nodes[i]
                == after.nodes[i] by {
                if i < new_children {
                    if i != node {
                        assert(self.nodes@[i]@ == before.nodes[i]);
                    }
                } else {
                    let k = i - new_children;
                    assert(self.nodes@[new_children + k]@ == after.nodes[i]);
                }
            }
            assert(self@.tree.nodes =~= after.nodes);
            assert(self@.tree == after);
            lemma_subdivided_wf(before, ps, node as int, self@.points.len() as int);
        }
    }

    /// Builds the tree anew from the points as they are now, inserting them
    /// in the order of their indices.
    pub fn rebuild(&mut self)
        requires
            old(self).wf(),
        ensures
            final(self).wf(),
            final(self)@.points == old(self)@.points,
            final(self)@.tree == old(self)@.tree.cleared().built(
                old(self).spec_positions(),
                0,
                old(self)@.points.len() as int,
            ),
            final(self)@.tree.same_settings(old(self)@.tree),
            final(self).in_step(),
    {
        proof {
            self.lemma_points_bounded();
            lemma_built_in_step(
                self@.tree,
                self.spec_positions(),
                self@.points.len() as int,
            );
        }
        self.clear();
        let ghost ps = self.spec_positions();
        let mut i: usize = 0;
        while i < self.points.len()
            invariant
                i <= self.points.len(),
                self.wf(),
                self@.points == old(self)@.points,
                ps == positions(self@.points),
                self@.tree.same_settings(old(self)@.tree),
                self@.tree == old(self)@.tree.cleared().built(ps, 0, i as int),
            decreases self.points.len() - i,
        {
            let pos = self.points[i].pos();
            self.insert(pos, i);
            i += 1;
        }
    }

    /// The indices of the points that a search of the tree finds inside
    /// `range`.
    pub fn query(&self, range: Quad) -> (result: Vec<usize>)
        requires
            self.wf(),
        ensures
            result@ == self@.tree.candidates(self.spec_positions(), range, 0),
            forall|k: int| 0 <= k < result@.len() ==> (#[trigger] result@[k]) < self@.points.len(),
            self.in_step() ==> result@.no_duplicates(),
            self.in_step() ==> forall|i: usize|
                result@.contains(i) <==> (i < self@.points.len() && self@.tree.boundary.spec_contains(
                    self@.points[i as int].spec_pos(),
                ) && range.spec_contains(self@.points[i as int].spec_pos())),
    {
        let mut result: Vec<usize> = Vec::new();
        self._query(&mut result, range, 0);
        proof {
            lemma_candidates_indexed(
                self@.tree,
                self.spec_positions(),
                range,
                0,
                self@.points.len() as int,
            );
            assert(result@ =~= self@.tree.candidates(self.spec_positions(), range, 0));
            if self.in_step() {
                lemma_query_is_scan(self@.tree, self.spec_positions(), range);
            }
        }
        result
    }

    /// Adds to `result` what the search for `range` finds below a node.
    fn _query(&self, result: &mut Vec<usize>, range: Quad, node_idx: usize)
        requires
            self.wf(),
            node_idx < self@.tree.nodes.len(),
        ensures
            final(result)@ == old(result)@ + self@.tree.candidates(
                self.spec_positions(),
                range,
                node_idx as int,
            ),
        decreases self@.tree.nodes.len() - node_idx,
    {
        assert(self.nodes@.len() == self.nodes.len());
        let node = &self.nodes[node_idx];
        assert(node@ == self@.tree.nodes[node_idx as int]);
        assert(self@.tree.branch_ok(node_idx as int));
        if !node.quad.overlap(&range) {
            assert(result@ =~= old(result)@ + Seq::<usize>::empty());
            return ;
        }
        let ghost ps = self.spec_positions();
        match node.children {
            None => {
                let ghost members = node.points_indices@;
                assert forall|k: int| 0 <= k < members.len() implies members[k]
                    < self@.points.len() by {
                    assert(self@.tree.nodes[node_idx as int].points_indices[k]
                        < self@.points.len());
                }
                let mut j: usize = 0;
                while j < node.points_indices.len()
                    invariant
                        j <= node.points_indices.len(),
                        members == node.points_indices@,
                        ps == positions(self@.points),
                        self.points@ == self@.points,
                        forall|k: int| 0 <= k < members.len() ==> members[k] < self@.points.len(),
                        result@ == old(result)@ + members_in_range(
                            members.take(j as int),
                            ps,
                            range,
                        ),
                    decreases node.points_indices.len() - j,
                {
                    let i: usize = node.points_indices[j];
                    assert(members.take(j + 1).drop_last() =~= members.take(j as int));
                    if range.contains(self.points[i].pos()) {
                        result.push(i);
                    }
                    j += 1;
                    assert(result@ =~= old(result)@ + members_in_range(
                        members.take(j as int),
                        ps,
                        range,
                    ));
                }
                assert(members.take(members.len() as int) =~= members);
            },
            Some(first) => {
                self._query(result, range, first);
                self._query(result, range, first + 1);
                self._query(result, range, first + 2);
                self._query(result, range, first + 3);
                let ghost t = self@.tree;
                assert(result@ =~= old(result)@ + (t.candidates(ps, range, first as int)
                    + t.candidates(ps, range, first + 1) + t.candidates(ps, range, first + 2)
                    + t.candidates(ps, range, first + 3)));
            },
        }
    }
}

} // verus!
