use vstd::prelude::*;
use crate::arith::magnitude;
use crate::constants::COORD_LIMIT;
use crate::vector::Vector2;

verus! {

// Quadrant labels, with x growing to the right and y growing downward:
// +----+----+
// | 0  | 2  |
// |(00)|(10)|
// +----+----+
// | 1  | 3  |
// |(01)|(11)|
// +----+----+
/// An axis-aligned square, given by its centre and half the length of its side.
#[derive(Copy, Clone, Debug, PartialEq, Eq, Structural)]
pub struct Quad {
    pub center: Vector2,
    pub half_size: i64,
}

impl Quad {
    /// A square is well formed when its half size is positive and it lies
    /// within the coordinate limit.
    pub open spec fn wf(self) -> bool {
        &&& self.half_size > 0
        &&& magnitude(self.center.x as int) + self.half_size <= COORD_LIMIT
        &&& magnitude(self.center.y as int) + self.half_size <= COORD_LIMIT
    }

    /// Whether the square can be divided into four quadrants: lengths are
    /// whole numbers of units, so its half size must be even to have a half.
    pub open spec fn divisible(self) -> bool {
        self.half_size % 2 == 0
    }

    /// Whether two squares intersect. Squares that only touch do not.
    pub open spec fn spec_overlap(self, other: Quad) -> bool {
        &&& magnitude(self.center.x - other.center.x) < self.half_size + other.half_size
        &&& magnitude(self.center.y - other.center.y) < self.half_size + other.half_size
    }

    /// Whether the point lies strictly inside the square.
    pub open spec fn spec_contains(self, p: Vector2) -> bool {
        &&& magnitude(self.center.x - p.x) < self.half_size
        &&& magnitude(self.center.y - p.y) < self.half_size
    }

    /// Whether the point lies in the square or on its low edges: the
    /// half-open square that the four quadrants tile without gap or overlap.
    pub open spec fn covers(self, p: Vector2) -> bool {
        &&& self.center.x - self.half_size <= p.x < self.center.x + self.half_size
        &&& self.center.y - self.half_size <= p.y < self.center.y + self.half_size
    }

    /// The quadrant of the point: 2 if it is at or right of the centre, plus
    /// 1 if it is at or below the centre.
    pub open spec fn spec_find_quadrant(self, p: Vector2) -> usize {
        if p.x >= self.center.x {
            if p.y >= self.center.y {
                3
            } else {
                2
            }
        } else {
            if p.y >= self.center.y {
                1
            } else {
                0
            }
        }
    }

    /// Half of the half size: the half size of the quadrants.
    pub open spec fn quarter_size(self) -> int {
        self.half_size / 2
    }

    /// The quadrant with label `i` of a divisible square: a square of half
    /// the half size, centred that far from the centre along both axes.
    pub open spec fn spec_get_quadrant(self, i: int) -> Quad {
        let q = self.quarter_size();
        Quad {
            center: Vector2 {
                x: (self.center.x + if i >= 2 { q } else { -q }) as i64,
                y: (self.center.y + if i % 2 == 1 { q } else { -q }) as i64,
            },
            half_size: q as i64,
        }
    }

    /// Whether the two squares intersect.
    pub fn overlap(&self, other: &Quad) -> (r: bool)
        ensures
            r == self.spec_overlap(*other),
    {
        let dx: i128 = self.center.x as i128 - other.center.x as i128;
        let dy: i128 = self.center.y as i128 - other.center.y as i128;
        let reach: i128 = self.half_size as i128 + other.half_size as i128;
        let ax: i128 = if dx < 0 { -dx } else { dx };
        let ay: i128 = if dy < 0 { -dy } else { dy };
        ax < reach && ay < reach
    }

    /// Whether the point lies strictly inside the square.
    pub fn contains(&self, p: Vector2) -> (r: bool)
        ensures
            r == self.spec_contains(p),
    {
        let dx: i128 = self.center.x as i128 - p.x as i128;
        let dy: i128 = self.center.y as i128 - p.y as i128;
        let ax: i128 = if dx < 0 { -dx } else { dx };
        let ay: i128 = if dy < 0 { -dy } else { dy };
        let max_dist: i128 = if ax < ay { ay } else { ax };
        max_dist < self.half_size as i128
    }

    /// The label of the quadrant that the point falls into.
    pub fn find_quadrant(&self, p: Vector2) -> (r: usize)
        ensures
            r == self.spec_find_quadrant(p),
            r <= 3,
    {
        let high_x: usize = if p.x >= self.center.x { 2 } else { 0 };
        let high_y: usize = if p.y >= self.center.y { 1 } else { 0 };
        high_x + high_y
    }

    /// The quadrant with label `i`.
    pub fn get_quadrant(&self, i: usize) -> (r: Quad)
        requires
            self.wf(),
            self.divisible(),
            i <= 3,
        ensures
            r == self.spec_get_quadrant(i as int),
            2 * r.half_size == self.half_size,
            r.center.x == self.center.x + if i >= 2 {
                r.half_size as int
            } else {
                -r.half_size
            },
            r.center.y == self.center.y + if i % 2 == 1 {
                r.half_size as int
            } else {
                -r.half_size
            },
    {
        let quarter_size: i64 = self.half_size / 2;
        let dx: i64 = if i >= 2 { quarter_size } else { -quarter_size };
        let dy: i64 = if i % 2 == 1 { quarter_size } else { -quarter_size };
        Quad {
            center: Vector2 { x: self.center.x + dx, y: self.center.y + dy },
            half_size: quarter_size,
        }
    }

    /// The four quadrants, in the order of their labels.
    pub fn split_quadrants(&self) -> (r: [Quad; 4])
        requires
            self.wf(),
            self.divisible(),
        ensures
            forall|i: int| 0 <= i < 4 ==> #[trigger] r@[i] == self.spec_get_quadrant(i),
            forall|i: int| 0 <= i < 4 ==> 2 * (#[trigger] r@[i]).half_size == self.half_size,
    {
        [
            self.get_quadrant(0),
            self.get_quadrant(1),
            self.get_quadrant(2),
            self.get_quadrant(3),
        ]
    }
}

/// The quadrants of a well-formed divisible square are well formed, and
/// each has exactly half the half size, centred that far from the centre
/// along both axes.
pub proof fn lemma_quadrant_wf(q: Quad, i: int)
    requires
        q.wf(),
        q.divisible(),
        0 <= i < 4,
    ensures
        q.spec_get_quadrant(i).wf(),
        2 * q.spec_get_quadrant(i).half_size == q.half_size,
        q.spec_get_quadrant(i).center.x == q.center.x + if i >= 2 {
            q.quarter_size()
        } else {
            -q.quarter_size()
        },
        q.spec_get_quadrant(i).center.y == q.center.y + if i % 2 == 1 {
            q.quarter_size()
        } else {
            -q.quarter_size()
        },
{
}

/// A point inside a quadrant is inside the square.
pub proof fn lemma_quadrant_inside(q: Quad, p: Vector2, i: int)
    requires
        q.wf(),
        q.divisible(),
        0 <= i < 4,
        q.spec_get_quadrant(i).spec_contains(p),
    ensures
        q.spec_contains(p),
{
}

/// No two quadrants of a square overlap.
pub proof fn lemma_quadrants_apart(q: Quad, i: int, j: int)
    requires
        q.wf(),
        q.divisible(),
        0 <= i < 4,
        0 <= j < 4,
        i != j,
    ensures
        !q.spec_get_quadrant(i).spec_overlap(q.spec_get_quadrant(j)),
{
}

/// A point inside one of the quadrants falls into that quadrant, so that
/// at most one quadrant contains a point.
pub proof fn lemma_quadrant_exclusive(q: Quad, p: Vector2, i: int)
    requires
        q.wf(),
        q.divisible(),
        0 <= i < 4,
        q.spec_get_quadrant(i).spec_contains(p),
    ensures
        i == q.spec_find_quadrant(p),
{
}

/// A point strictly inside a square, and on neither of the two lines through
/// its centre, lies inside exactly one of the four quadrants: the one that
/// it falls into.
pub proof fn lemma_quadrant_partition(q: Quad, p: Vector2, i: int)
    requires
        q.wf(),
        q.divisible(),
        q.spec_contains(p),
        p.x != q.center.x,
        p.y != q.center.y,
        0 <= i < 4,
    ensures
        q.spec_get_quadrant(i).spec_contains(p) <==> i == q.spec_find_quadrant(p),
{
}

/// A point on one of the two lines through the centre of a square lies on
/// the edge of the quadrants next to it, and so inside none of them.
pub proof fn lemma_quadrant_edge(q: Quad, p: Vector2, i: int)
    requires
        q.wf(),
        q.divisible(),
        p.x == q.center.x || p.y == q.center.y,
        0 <= i < 4,
    ensures
        !q.spec_get_quadrant(i).spec_contains(p),
{
}

/// The quadrant that a point falls into covers the point, if the square
/// does, and every quadrant covers only points that the square covers: the
/// four tile the square.
pub proof fn lemma_quadrant_covers(q: Quad, p: Vector2)
    requires
        q.wf(),
        q.divisible(),
    ensures
        q.covers(p) ==> q.spec_get_quadrant(q.spec_find_quadrant(p) as int).covers(p),
        forall|i: int|
            0 <= i < 4 && (#[trigger] q.spec_get_quadrant(i)).covers(p) ==> q.covers(p) && i
                == q.spec_find_quadrant(p),
{
}

/// A point inside a square is covered by it.
pub proof fn lemma_contains_covers(q: Quad, p: Vector2)
    requires
        q.spec_contains(p),
    ensures
        q.covers(p),
{
}

/// A square that covers a point overlaps every square that contains the point.
pub proof fn lemma_covers_overlap(q: Quad, range: Quad, p: Vector2)
    requires
        q.covers(p),
        range.spec_contains(p),
    ensures
        q.spec_overlap(range),
{
}

} // verus!
