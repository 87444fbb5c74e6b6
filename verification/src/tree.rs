use vstd::prelude::*;
use crate::quad::Quad;
use crate::vector::Vector2;

verus! {

/// What a node of the tree holds: its square, the arena index of the first
/// of its four children if it has been divided, and the indices of the points
/// stored in it, in the order in which they arrived.
pub struct NodeModel {
    pub quad: Quad,
    pub children: Option<int>,
    pub points_indices: Seq<usize>,
}

/// The tree as a mathematical value: the arena of nodes, with the root in
/// slot 0, and the three settings that the tree was made with.
pub struct TreeModel {
    pub nodes: Seq<NodeModel>,
    pub boundary: Quad,
    pub split_thresh: usize,
    pub min_size: i64,
}

/// The members of `members`, in their order, whose point falls into
/// quadrant `k` of `q`.
pub open spec fn members_in_quadrant(members: Seq<usize>, ps: Seq<Vector2>, q: Quad, k: int) -> Seq<
    usize,
>
    decreases members.len(),
{
    if members.len() == 0 {
        Seq::empty()
    } else {
        let rest = members_in_quadrant(members.drop_last(), ps, q, k);
        if q.spec_find_quadrant(ps[members.last() as int]) == k {
            rest.push(members.last())
        } else {
            rest
        }
    }
}

/// The members of `members`, in their order, whose point lies inside `range`.
pub open spec fn members_in_range(members: Seq<usize>, ps: Seq<Vector2>, range: Quad) -> Seq<usize>
    decreases members.len(),
{
    if members.len() == 0 {
        Seq::empty()
    } else {
        let rest = members_in_range(members.drop_last(), ps, range);
        if range.spec_contains(ps[members.last() as int]) {
            rest.push(members.last())
        } else {
            rest
        }
    }
}

impl NodeModel {
    /// An undivided node without points.
    pub open spec fn empty(quad: Quad) -> NodeModel {
        NodeModel { quad, children: None, points_indices: Seq::empty() }
    }
}

impl TreeModel {
    /// The tree that consists of an empty root.
    pub open spec fn empty(boundary: Quad, split_thresh: usize, min_size: i64) -> TreeModel {
        TreeModel { nodes: seq![NodeModel::empty(boundary)], boundary, split_thresh, min_size }
    }

    /// Whether two trees were made with the same settings.
    pub open spec fn same_settings(self, other: TreeModel) -> bool {
        &&& self.boundary == other.boundary
        &&& self.split_thresh == other.split_thresh
        &&& self.min_size == other.min_size
    }

    /// The tree with the same settings and nothing stored.
    pub open spec fn cleared(self) -> TreeModel {
        TreeModel::empty(self.boundary, self.split_thresh, self.min_size)
    }

    /// Whether `n` is a node that has been divided into four children that
    /// lie behind it in the arena.
    pub open spec fn divided(self, n: int) -> bool {
        &&& 0 <= n < self.nodes.len()
        &&& self.nodes[n].children is Some
        &&& n < self.nodes[n].children->0
        &&& self.nodes[n].children->0 + 4 <= self.nodes.len()
    }

    /// The arena index of the first child of a divided node.
    pub open spec fn first_child(self, n: int) -> int {
        self.nodes[n].children->0
    }

    /// What must hold of node `n` if it has been divided: its four children
    /// lie in one block behind it in the arena, they carry its four quadrants
    /// in the order of their labels, and it keeps no points of its own.
    pub open spec fn branch_ok(self, n: int) -> bool {
        match self.nodes[n].children {
            None => true,
            Some(c) => {
                &&& n < c
                &&& c + 4 <= self.nodes.len()
                &&& self.nodes[n].points_indices.len() == 0
                &&& self.nodes[n].quad.divisible()
                &&& self.nodes[c].quad == self.nodes[n].quad.spec_get_quadrant(0)
                &&& self.nodes[c + 1].quad == self.nodes[n].quad.spec_get_quadrant(1)
                &&& self.nodes[c + 2].quad == self.nodes[n].quad.spec_get_quadrant(2)
                &&& self.nodes[c + 3].quad == self.nodes[n].quad.spec_get_quadrant(3)
            },
        }
    }

    /// Whether the blocks of children of two divided nodes are apart.
    pub open spec fn blocks_apart(self, a: int, b: int) -> bool {
        match (self.nodes[a].children, self.nodes[b].children) {
            (Some(c), Some(d)) => c + 4 <= d || d + 4 <= c,
            _ => true,
        }
    }

    /// The shape of a tree: the arena is not empty, the root carries the
    /// boundary, every square is well formed, every divided node is in order,
    /// and no two nodes share a child.
    pub open spec fn wf(self) -> bool {
        &&& self.boundary.wf()
        &&& self.nodes.len() >= 1
        &&& self.nodes[0].quad == self.boundary
        &&& forall|n: int| 0 <= n < self.nodes.len() ==> (#[trigger] self.nodes[n]).quad.wf()
        &&& forall|n: int| 0 <= n < self.nodes.len() ==> #[trigger] self.branch_ok(n)
        &&& forall|a: int, b: int|
            0 <= a < self.nodes.len() && 0 <= b < self.nodes.len() && a != b
                ==> #[trigger] self.blocks_apart(a, b)
    }

    /// Whether every stored index is below `count`.
    pub open spec fn indexes(self, count: int) -> bool {
        forall|n: int, j: int|
            0 <= n < self.nodes.len() && 0 <= j < self.nodes[n].points_indices.len()
                ==> (#[trigger] self.nodes[n].points_indices[j]) < count
    }

    /// The leaf that is reached from node `n` by going, at every divided
    /// node, to the child for the quadrant that `p` falls into.
    pub open spec fn leaf_of(self, n: int, p: Vector2) -> int
        decreases self.nodes.len() - n,
    {
        if self.divided(n) {
            self.leaf_of(self.first_child(n) + self.nodes[n].quad.spec_find_quadrant(p), p)
        } else {
            n
        }
    }

    /// Whether the walk for `p` that starts at node `from` comes through
    /// node `to`.
    pub open spec fn passes(self, from: int, to: int, p: Vector2) -> bool
        decreases self.nodes.len() - from,
    {
        from == to || (self.divided(from) && self.passes(
            self.first_child(from) + self.nodes[from].quad.spec_find_quadrant(p),
            to,
            p,
        ))
    }

    /// Whether member `j` of node `n` is in its place: it is the index of a
    /// point inside the boundary, and that point leads to node `n`.
    pub open spec fn member_ok(self, ps: Seq<Vector2>, n: int, j: int) -> bool {
        let i = self.nodes[n].points_indices[j] as int;
        &&& i < ps.len()
        &&& self.boundary.spec_contains(ps[i])
        &&& self.leaf_of(0, ps[i]) == n
    }

    /// Whether the tree is true to the positions `ps`: every member is in
    /// its place, and no node holds an index twice.
    pub open spec fn fresh(self, ps: Seq<Vector2>) -> bool {
        &&& forall|n: int, j: int|
            0 <= n < self.nodes.len() && 0 <= j < self.nodes[n].points_indices.len()
                ==> #[trigger] self.member_ok(ps, n, j)
        &&& forall|n: int|
            0 <= n < self.nodes.len() ==> (#[trigger] self.nodes[n]).points_indices.no_duplicates()
    }

    /// Whether the leaf that point `i` leads to holds its index.
    pub open spec fn stored(self, ps: Seq<Vector2>, i: int) -> bool {
        self.nodes[self.leaf_of(0, ps[i])].points_indices.contains(i as usize)
    }

    /// Whether each of the first `count` points that lies inside the
    /// boundary is stored in the tree.
    pub open spec fn complete(self, ps: Seq<Vector2>, count: int) -> bool {
        forall|i: int|
            0 <= i < count && self.boundary.spec_contains(ps[i]) ==> #[trigger] self.stored(ps, i)
    }

    /// Whether the tree indexes the positions `ps` as they are: it has the
    /// shape of a tree, is true to the positions, and holds every point that
    /// lies inside the boundary.
    pub open spec fn in_step(self, ps: Seq<Vector2>) -> bool {
        &&& self.wf()
        &&& self.indexes(ps.len() as int)
        &&& self.fresh(ps)
        &&& self.complete(ps, ps.len() as int)
    }

    /// What a query for `range` gathers below node `n`: nothing where the
    /// node's square does not overlap the range; at a leaf, the members whose
    /// point lies inside the range; at a divided node, what its four children
    /// give, one after the other.
    pub open spec fn candidates(self, ps: Seq<Vector2>, range: Quad, n: int) -> Seq<usize>
        decreases self.nodes.len() - n,
    {
        if !(0 <= n < self.nodes.len() && self.nodes[n].quad.spec_overlap(range)) {
            Seq::empty()
        } else if self.divided(n) {
            let c = self.first_child(n);
            self.candidates(ps, range, c) + self.candidates(ps, range, c + 1) + self.candidates(
                ps,
                range,
                c + 2,
            ) + self.candidates(ps, range, c + 3)
        } else {
            members_in_range(self.nodes[n].points_indices, ps, range)
        }
    }

    /// Whether a leaf with this square and this many members is divided: it
    /// holds more than the threshold, its half size is above the minimum
    /// size, and its square is divisible.
    pub open spec fn splits(self, quad: Quad, members: nat) -> bool {
        members > self.split_thresh && quad.half_size > self.min_size && quad.divisible()
    }

    /// The tree with `index` added to the members of node `n`.
    pub open spec fn pushed(self, n: int, index: usize) -> TreeModel {
        TreeModel {
            nodes: self.nodes.update(
                n,
                NodeModel {
                    points_indices: self.nodes[n].points_indices.push(index),
                    ..self.nodes[n]
                },
            ),
            ..self
        }
    }

    /// The tree with leaf `n` divided: four new leaves for its quadrants are
    /// added at the end of the arena, every member goes to the leaf of the
    /// quadrant that its point falls into, and the node keeps none.
    pub open spec fn subdivided(self, ps: Seq<Vector2>, n: int) -> TreeModel {
        let q = self.nodes[n].quad;
        let members = self.nodes[n].points_indices;
        let branch = NodeModel {
            quad: q,
            children: Some(self.nodes.len() as int),
            points_indices: Seq::empty(),
        };
        TreeModel {
            nodes: self.nodes.update(n, branch) + Seq::new(
                4,
                |k: int|
                    NodeModel {
                        quad: q.spec_get_quadrant(k),
                        children: None,
                        points_indices: members_in_quadrant(members, ps, q, k),
                    },
            ),
            ..self
        }
    }

    /// The tree after the point `pos` with the given index has been
    /// inserted. A point that is not inside the boundary is left out. Any
    /// other is added to the leaf that it leads to, and that leaf is then
    /// divided if `splits` says so.
    pub open spec fn inserted(self, ps: Seq<Vector2>, pos: Vector2, index: usize) -> TreeModel {
        if !self.boundary.spec_contains(pos) {
            self
        } else {
            let leaf = self.leaf_of(0, pos);
            let grown = self.pushed(leaf, index);
            if self.splits(grown.nodes[leaf].quad, grown.nodes[leaf].points_indices.len()) {
                grown.subdivided(ps, leaf)
            } else {
                grown
            }
        }
    }

    /// The tree after the points with the indices `from` up to, but not
    /// including, `to` have been inserted in that order.
    pub open spec fn built(self, ps: Seq<Vector2>, from: int, to: int) -> TreeModel
        decreases to - from,
    {
        if to <= from {
            self
        } else {
            self.built(ps, from, to - 1).inserted(ps, ps[to - 1], (to - 1) as usize)
        }
    }
}

} // verus!
