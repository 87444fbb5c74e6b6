use ball_collision::ball::Ball;
use ball_collision::quad::Quad;
use ball_collision::quadtree::{QTNode, Quadtree};
use ball_collision::vector::Vector2;

fn quad(x: i64, y: i64, half_size: i64) -> Quad {
    Quad { center: Vector2::new(x, y), half_size }
}

fn still(x: i64, y: i64) -> Ball {
    Ball::new(Vector2::new(x, y), Vector2::new(0, 0))
}

// A fixed sequence of scattered numbers.
struct Scatter(u64);

impl Scatter {
    fn next(&mut self, bound: i64) -> i64 {
        self.0 = self.0.wrapping_mul(6364136223846793005).wrapping_add(1442695040888963407);
        ((self.0 >> 33) % bound as u64) as i64
    }
}

fn scan(tree: &Quadtree<Ball>, boundary: Quad, range: Quad) -> Vec<usize> {
    let points = tree.points();
    (0..points.len())
        .filter(|&i| boundary.contains(points[i].pos) && range.contains(points[i].pos))
        .collect()
}

fn sorted(mut v: Vec<usize>) -> Vec<usize> {
    v.sort();
    v
}

#[test]
fn node_starts_as_an_empty_leaf() {
    let node = QTNode::new(quad(0, 0, 4));
    assert!(node.is_leaf());
    assert!(!node.is_branch());
    assert!(node.is_empty());
}

#[test]
fn new_tree_has_one_root() {
    let tree: Quadtree<Ball> = Quadtree::new(quad(0, 0, 64), 4, 1);
    assert_eq!(tree.total_nodes(), 1);
    assert_eq!(tree.debug(), 1);
    assert_eq!(tree.total_points(), 0);
    assert_eq!(tree.node_regions(), vec![quad(0, 0, 64)]);
    assert_eq!(tree.query(quad(0, 0, 1000)), Vec::<usize>::new());
}

#[test]
fn leaf_divides_when_it_exceeds_the_threshold() {
    let mut tree: Quadtree<Ball> = Quadtree::new(quad(0, 0, 64), 2, 1);
    tree.push(still(-10, -10));
    tree.push(still(10, 10));
    assert_eq!(tree.total_nodes(), 1);
    tree.push(still(-20, 20));
    assert_eq!(tree.total_nodes(), 5);
    assert_eq!(
        tree.node_regions(),
        vec![
            quad(0, 0, 64),
            quad(-32, -32, 32),
            quad(-32, 32, 32),
            quad(32, -32, 32),
            quad(32, 32, 32)
        ]
    );
    // Each child holds the point of its quadrant.
    assert_eq!(tree.query(quad(-32, -32, 32)), vec![0]);
    assert_eq!(tree.query(quad(-32, 32, 32)), vec![2]);
    assert_eq!(tree.query(quad(32, -32, 32)), Vec::<usize>::new());
    assert_eq!(tree.query(quad(32, 32, 32)), vec![1]);
    // Children are searched in the order of their labels.
    assert_eq!(tree.query(quad(0, 0, 64)), vec![0, 2, 1]);
}

#[test]
fn division_is_not_repeated_within_one_insert() {
    let mut tree: Quadtree<Ball> = Quadtree::new(quad(0, 0, 64), 2, 1);
    tree.push(still(40, 40));
    tree.push(still(41, 41));
    tree.push(still(42, 42));
    // All three went to one child, which is divided only by the next insert.
    assert_eq!(tree.total_nodes(), 5);
    tree.push(still(43, 43));
    assert_eq!(tree.total_nodes(), 9);
    assert_eq!(sorted(tree.query(quad(0, 0, 64))), vec![0, 1, 2, 3]);
}

#[test]
fn point_outside_the_boundary_is_kept_but_not_indexed() {
    let mut tree: Quadtree<Ball> = Quadtree::new(quad(0, 0, 64), 2, 1);
    tree.push(still(100, 0));
    tree.push(still(64, 0));
    tree.push(still(-64, -64));
    tree.push(still(63, -63));
    assert_eq!(tree.total_points(), 4);
    assert_eq!(tree.total_nodes(), 1);
    assert_eq!(tree.query(quad(0, 0, 1000)), vec![3]);
}

#[test]
fn leaf_at_the_minimum_size_is_not_divided() {
    let mut tree: Quadtree<Ball> = Quadtree::new(quad(0, 0, 8), 1, 4);
    for _ in 0..10 {
        tree.push(still(5, 5));
    }
    // The root (half size 8) was divided, its children (half size 4) are not.
    assert_eq!(tree.total_nodes(), 5);
    assert_eq!(tree.query(quad(5, 5, 1)).len(), 10);
}

#[test]
fn leaf_of_odd_half_size_is_not_divided() {
    // The root (half size 6) is divided; its children (half size 3) have no half.
    let mut tree: Quadtree<Ball> = Quadtree::new(quad(0, 0, 6), 1, 0);
    for _ in 0..10 {
        tree.push(still(1, 1));
    }
    assert_eq!(tree.total_nodes(), 5);
    assert_eq!(tree.node_regions()[4], quad(3, 3, 3));
    assert_eq!(sorted(tree.query(quad(1, 1, 1))), (0..10).collect::<Vec<usize>>());
    // A root with an odd half size stays a single leaf.
    let mut odd: Quadtree<Ball> = Quadtree::new(quad(0, 0, 5), 1, 0);
    for k in 0..10 {
        odd.push(still(k % 4 - 2, k % 3 - 1));
    }
    assert_eq!(odd.total_nodes(), 1);
    assert_eq!(sorted(odd.query(quad(0, 0, 5))), (0..10).collect::<Vec<usize>>());
}

#[test]
fn coincident_points_deepen_the_tree_one_level_per_insert() {
    let mut tree: Quadtree<Ball> = Quadtree::new(quad(0, 0, 1024), 1, 1);
    tree.push(still(3, 3));
    assert_eq!(tree.total_nodes(), 1);
    for round in 1..=5 {
        tree.push(still(3, 3));
        assert_eq!(tree.total_nodes(), 1 + 4 * round);
    }
}

#[test]
fn clear_forgets_the_nodes_and_keeps_the_points() {
    let mut tree: Quadtree<Ball> = Quadtree::new(quad(0, 0, 64), 1, 1);
    tree.push(still(-10, -10));
    tree.push(still(10, 10));
    assert_eq!(tree.total_nodes(), 5);
    tree.clear();
    assert_eq!(tree.total_nodes(), 1);
    assert_eq!(tree.total_points(), 2);
    assert_eq!(tree.query(quad(0, 0, 64)), Vec::<usize>::new());
    tree.rebuild();
    assert_eq!(tree.total_nodes(), 5);
    assert_eq!(tree.query(quad(0, 0, 64)), vec![0, 1]);
}

#[test]
fn query_finds_what_a_scan_finds_after_pushes() {
    let boundary = quad(512, 512, 512);
    let mut draw = Scatter(1);
    let mut tree: Quadtree<Ball> = Quadtree::new(boundary, 4, 2);
    for _ in 0..600 {
        tree.push(still(draw.next(1124) - 50, draw.next(1124) - 50));
    }
    assert!(tree.total_nodes() > 100);
    for _ in 0..300 {
        let range = quad(draw.next(1124) - 50, draw.next(1124) - 50, 1 + draw.next(200));
        let found = tree.query(range);
        let mut unique = sorted(found.clone());
        unique.dedup();
        assert_eq!(unique.len(), found.len());
        assert_eq!(unique, scan(&tree, boundary, range));
    }
}

#[test]
fn query_finds_what_a_scan_finds_after_rebuild() {
    let boundary = quad(0, 0, 320);
    let mut draw = Scatter(7);
    let mut tree: Quadtree<Ball> = Quadtree::new(boundary, 3, 1);
    for _ in 0..400 {
        tree.push(still(draw.next(640) - 320, draw.next(640) - 320));
    }
    for i in 0..400 {
        tree.set_point(i, still(draw.next(700) - 350, draw.next(700) - 350));
    }
    tree.rebuild();
    assert!(tree.total_nodes() > 50);
    for _ in 0..300 {
        let range = quad(draw.next(700) - 350, draw.next(700) - 350, 1 + draw.next(100));
        let found = tree.query(range);
        let mut unique = sorted(found.clone());
        unique.dedup();
        assert_eq!(unique.len(), found.len());
        assert_eq!(unique, scan(&tree, boundary, range));
    }
}

#[test]
fn rebuild_gives_the_tree_that_pushes_give() {
    let boundary = quad(0, 0, 256);
    let mut draw = Scatter(99);
    let mut pushed: Quadtree<Ball> = Quadtree::new(boundary, 2, 1);
    let mut rebuilt: Quadtree<Ball> = Quadtree::new(boundary, 2, 1);
    for _ in 0..100 {
        let b = still(draw.next(512) - 256, draw.next(512) - 256);
        pushed.push(b);
        rebuilt.push(b);
    }
    rebuilt.rebuild();
    assert_eq!(rebuilt.node_regions(), pushed.node_regions());
    assert_eq!(rebuilt.query(boundary), pushed.query(boundary));
}

#[test]
fn moved_point_stays_in_its_old_leaf_until_rebuild() {
    let mut tree: Quadtree<Ball> = Quadtree::new(quad(0, 0, 64), 1, 1);
    tree.push(still(-10, -10));
    tree.push(still(10, 10));
    tree.set_point(0, still(30, 30));
    assert_eq!(tree.points()[0], still(30, 30));
    // The search of the low quadrant still meets index 0 and tests its new position.
    assert_eq!(tree.query(quad(-32, -32, 32)), Vec::<usize>::new());
    // A range that overlaps only the high quadrant does not meet it.
    assert_eq!(tree.query(quad(30, 30, 5)), Vec::<usize>::new());
    assert_eq!(tree.query(quad(0, 0, 64)), vec![0, 1]);
    tree.rebuild();
    assert_eq!(tree.query(quad(30, 30, 5)), vec![0]);
}

#[test]
fn point_on_a_centre_line_is_found() {
    let mut tree: Quadtree<Ball> = Quadtree::new(quad(0, 0, 64), 1, 1);
    tree.push(still(0, 0));
    tree.push(still(0, -5));
    tree.push(still(-5, 0));
    tree.push(still(32, 32));
    assert_eq!(sorted(tree.query(quad(0, 0, 6))), vec![0, 1, 2]);
    assert_eq!(tree.query(quad(32, 32, 1)), vec![3]);
}
