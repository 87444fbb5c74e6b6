use ball_collision::ball::Ball;
use ball_collision::ball_collection::{BallCollection, SimpleBallCollection};
use ball_collision::ball_collection_qt::QuadtreeBallCollection;
use ball_collision::constants::{
    BALL_DIAMETER, BALL_MASS, BALL_RADIUS, INITIAL_SPEED, TICKS_PER_SECOND, UNITS_PER_PIXEL,
    WINDOW_HEIGHT, WINDOW_WIDTH,
};
use ball_collision::quad::Quad;
use ball_collision::vector::Vector2;

fn apart(a: &Ball, b: &Ball) -> bool {
    let dx = (b.pos.x - a.pos.x) as i128;
    let dy = (b.pos.y - a.pos.y) as i128;
    dx * dx + dy * dy >= (BALL_DIAMETER as i128) * (BALL_DIAMETER as i128)
}

#[test]
fn new_collections_are_empty() {
    let simple = SimpleBallCollection::new();
    assert!(simple.bodies().is_empty());
    assert_eq!(simple.total_enery(), 0);
    let with_tree = QuadtreeBallCollection::new();
    assert!(with_tree.bodies().is_empty());
    assert_eq!(with_tree.debug(), 1);
    let arena = Quad {
        center: Vector2::new(WINDOW_WIDTH / 2, WINDOW_HEIGHT / 2),
        half_size: WINDOW_HEIGHT / 2,
    };
    assert_eq!(with_tree.node_regions(), vec![arena]);
}

#[test]
fn create_balls_adds_the_count() {
    let mut simple = SimpleBallCollection::new();
    simple.create_balls(30);
    assert_eq!(simple.bodies().len(), 30);
    let first = simple.bodies()[0];
    simple.create_balls(12);
    assert_eq!(simple.bodies().len(), 42);
    assert_eq!(simple.bodies()[0], first);
    simple.create_balls(0);
    assert_eq!(simple.bodies().len(), 42);

    let mut with_tree = QuadtreeBallCollection::new();
    with_tree.create_balls(30);
    assert_eq!(with_tree.bodies().len(), 30);
    let first = with_tree.bodies()[0];
    with_tree.create_balls(12);
    assert_eq!(with_tree.bodies().len(), 42);
    assert_eq!(with_tree.bodies()[0], first);
}

#[test]
fn created_balls_are_inside_the_arena() {
    let mut c = QuadtreeBallCollection::new();
    c.create_balls(200);
    for b in c.bodies() {
        assert!(BALL_RADIUS <= b.pos.x && b.pos.x < WINDOW_WIDTH - BALL_RADIUS);
        assert!(BALL_RADIUS <= b.pos.y && b.pos.y < WINDOW_HEIGHT - BALL_RADIUS);
    }
    // All of them are indexed: a query for the whole arena finds each once.
    let arena = Quad {
        center: Vector2::new(WINDOW_WIDTH / 2, WINDOW_HEIGHT / 2),
        half_size: WINDOW_HEIGHT / 2,
    };
    let mut found = c.debug_query(arena);
    found.sort();
    assert_eq!(found, (0..200).collect::<Vec<usize>>());
    assert!(c.debug() > 1);
    assert_eq!(c.node_regions().len(), c.debug());
}

#[test]
fn total_energy_is_mass_times_speed_squared() {
    let mut c = SimpleBallCollection::new();
    c.create_balls(10);
    let s = INITIAL_SPEED as u128;
    let total = c.total_enery();
    assert!(total <= 10 * BALL_MASS as u128 * s * s);
    assert!(total > 10 * BALL_MASS as u128 * (s - 1) * (s - 1));
    let mut expected: u128 = 0;
    for b in c.bodies() {
        let vx = b.vel.x.unsigned_abs() as u128;
        let vy = b.vel.y.unsigned_abs() as u128;
        expected += BALL_MASS as u128 * (vx * vx + vy * vy);
    }
    assert_eq!(total, expected);
}

#[test]
fn update_moves_every_ball() {
    let mut c = SimpleBallCollection::new();
    c.create_balls(1);
    let before = c.bodies()[0];
    c.update(TICKS_PER_SECOND / 1000);
    let mut expected = before;
    expected.update(TICKS_PER_SECOND / 1000);
    assert_eq!(c.bodies()[0], expected);

    let mut q = QuadtreeBallCollection::new();
    q.create_balls(1);
    let before = q.bodies()[0];
    q.update(TICKS_PER_SECOND / 1000);
    let mut expected = before;
    expected.update(TICKS_PER_SECOND / 1000);
    assert_eq!(q.bodies()[0], expected);
}

fn ball(x: i64, y: i64, vx: i64, vy: i64) -> Ball {
    Ball::new(Vector2::new(x, y), Vector2::new(vx, vy))
}

const U: i64 = UNITS_PER_PIXEL;

#[test]
fn add_ball_appends() {
    let mut simple = SimpleBallCollection::new();
    simple.add_ball(ball(1, 2, 3, 4));
    simple.add_ball(ball(5, 6, 7, 8));
    assert_eq!(simple.bodies(), &vec![ball(1, 2, 3, 4), ball(5, 6, 7, 8)]);
    let mut with_tree = QuadtreeBallCollection::new();
    with_tree.add_ball(ball(100 * U, 100 * U, 3, 4));
    with_tree.add_ball(ball(-5, 6, 7, 8));
    assert_eq!(with_tree.bodies(), &vec![ball(100 * U, 100 * U, 3, 4), ball(-5, 6, 7, 8)]);
    // The second ball lies outside the arena and is not indexed.
    let wide = Quad { center: Vector2::new(0, 0), half_size: 2000 * U };
    assert_eq!(with_tree.debug_query(wide), vec![0]);
}

#[test]
fn total_energy_of_known_balls() {
    let mut c = SimpleBallCollection::new();
    c.add_ball(ball(0, 0, 3, 4));
    c.add_ball(ball(0, 0, -10, 0));
    assert_eq!(c.total_enery(), (BALL_MASS * (25 + 100)) as u128);
    c.add_ball(ball(0, 0, -(1i64 << 62), 0));
    let big = 1u128 << 62;
    assert_eq!(c.total_enery(), (BALL_MASS * 125) as u128 + BALL_MASS as u128 * big * big);
}

#[test]
fn total_energy_stops_at_the_largest_number() {
    let mut c = SimpleBallCollection::new();
    c.add_ball(ball(0, 0, 1, 1));
    c.add_ball(ball(0, 0, i64::MIN, i64::MIN));
    assert_eq!(c.total_enery(), u128::MAX);
    c.add_ball(ball(0, 0, 1, 1));
    assert_eq!(c.total_enery(), u128::MAX);
}

#[test]
fn simple_update_resolves_a_head_on_pair() {
    let mut c = SimpleBallCollection::new();
    c.add_ball(ball(100 * U, 450 * U, 50 * U, 0));
    c.add_ball(ball(103 * U, 450 * U, -50 * U, 0));
    c.add_ball(ball(300 * U, 300 * U, 0, U));
    c.update(0);
    assert_eq!(
        c.bodies(),
        &vec![
            ball(100 * U - U / 2, 450 * U, -50 * U, 0),
            ball(103 * U + U / 2, 450 * U, 50 * U, 0),
            ball(300 * U, 300 * U, 0, U),
        ]
    );
    c.update(TICKS_PER_SECOND / 100);
    assert_eq!(
        c.bodies(),
        &vec![
            ball(100 * U - U, 450 * U, -50 * U, 0),
            ball(103 * U + U, 450 * U, 50 * U, 0),
            ball(300 * U, 300 * U + 10, 0, U),
        ]
    );
}

#[test]
fn quadtree_update_resolves_a_head_on_pair() {
    let mut c = QuadtreeBallCollection::new();
    c.add_ball(ball(100 * U, 450 * U, 50 * U, 0));
    c.add_ball(ball(103 * U, 450 * U, -50 * U, 0));
    c.add_ball(ball(300 * U, 300 * U, 0, U));
    c.update(0);
    assert_eq!(
        c.bodies(),
        &vec![
            ball(100 * U - U / 2, 450 * U, -50 * U, 0),
            ball(103 * U + U / 2, 450 * U, 50 * U, 0),
            ball(300 * U, 300 * U, 0, U),
        ]
    );
    c.update(TICKS_PER_SECOND / 100);
    assert_eq!(
        c.bodies(),
        &vec![
            ball(100 * U - U, 450 * U, -50 * U, 0),
            ball(103 * U + U, 450 * U, 50 * U, 0),
            ball(300 * U, 300 * U + 10, 0, U),
        ]
    );
}

#[test]
fn pair_that_meets_during_the_step_is_resolved_in_that_frame() {
    // Half a pixel per frame each: the step brings the centres 3 pixels apart.
    for use_tree in [false, true] {
        let first = ball(100 * U, 450 * U, 50 * U, 0);
        let second = ball(104 * U, 450 * U, -50 * U, 0);
        let frame = TICKS_PER_SECOND / 100;
        let bodies = if use_tree {
            let mut c = QuadtreeBallCollection::new();
            c.add_ball(first);
            c.add_ball(second);
            c.update(frame);
            c.bodies().clone()
        } else {
            let mut c = SimpleBallCollection::new();
            c.add_ball(first);
            c.add_ball(second);
            c.update(frame);
            c.bodies().clone()
        };
        assert_eq!(bodies[0], ball(100 * U, 450 * U, -50 * U, 0));
        assert_eq!(bodies[1], ball(104 * U, 450 * U, 50 * U, 0));
        assert!(apart(&bodies[0], &bodies[1]));
    }
}

#[test]
fn ball_outside_the_arena_is_missed_by_the_tree_only_from_its_partner() {
    // The second ball lies beyond the left wall and is not indexed. The first
    // does not find it; the second finds the first.
    let mut c = QuadtreeBallCollection::new();
    c.add_ball(ball(U, 450 * U, 0, 0));
    c.add_ball(ball(-U, 450 * U, 0, 0));
    c.update(0);
    assert!(apart(&c.bodies()[0], &c.bodies()[1]));
    // Two balls beyond the wall do not find each other.
    let mut d = QuadtreeBallCollection::new();
    d.add_ball(ball(-U, 450 * U, 0, 0));
    d.add_ball(ball(-2 * U, 450 * U, 0, 0));
    d.update(0);
    assert!(!apart(&d.bodies()[0], &d.bodies()[1]));
    // The plain collection does.
    let mut e = SimpleBallCollection::new();
    e.add_ball(ball(-U, 450 * U, 0, 0));
    e.add_ball(ball(-2 * U, 450 * U, 0, 0));
    e.update(0);
    assert!(apart(&e.bodies()[0], &e.bodies()[1]));
}

#[test]
fn middle_ball_of_three_is_pushed_back_into_the_first() {
    // Three resting balls in a row, 3000 units from one to the next. The
    // first pair is parted, which pushes the middle ball into the third;
    // parting those pushes it back, and the frame ends with the first pair
    // overlapping again.
    for use_tree in [false, true] {
        let x = 100 * U;
        let row = [ball(x, x, 0, 0), ball(x + 3000, x, 0, 0), ball(x + 6000, x, 0, 0)];
        let bodies = if use_tree {
            let mut c = QuadtreeBallCollection::new();
            for b in row {
                c.add_ball(b);
            }
            c.update(0);
            c.bodies().clone()
        } else {
            let mut c = SimpleBallCollection::new();
            for b in row {
                c.add_ball(b);
            }
            c.update(0);
            c.bodies().clone()
        };
        assert_eq!(
            bodies,
            vec![ball(x - 548, x, 0, 0), ball(x + 2726, x, 0, 0), ball(x + 6822, x, 0, 0)]
        );
        assert!(!apart(&bodies[0], &bodies[1]));
        assert!(apart(&bodies[1], &bodies[2]));
    }
}

#[test]
fn ball_left_alone_ends_where_its_own_step_left_it() {
    // Two pairs collide; the ball in the last place meets none of them.
    for use_tree in [false, true] {
        let frame = TICKS_PER_SECOND / 100;
        let balls = [
            ball(100 * U, 100 * U, 50 * U, 0),
            ball(103 * U, 100 * U, -50 * U, 0),
            ball(500 * U, 500 * U, 0, 30 * U),
            ball(500 * U, 502 * U, 0, -30 * U),
            ball(300 * U, 3 * U, 10 * U, -200 * U),
        ];
        let mut alone = balls[4];
        alone.update(frame);
        let bodies = if use_tree {
            let mut c = QuadtreeBallCollection::new();
            for b in balls {
                c.add_ball(b);
            }
            c.update(frame);
            c.bodies().clone()
        } else {
            let mut c = SimpleBallCollection::new();
            for b in balls {
                c.add_ball(b);
            }
            c.update(frame);
            c.bodies().clone()
        };
        assert_eq!(bodies[4], alone);
        assert_eq!(alone.pos, Vector2::new(300 * U + U / 10 + 0, U));
        assert_eq!(alone.vel, Vector2::new(10 * U, 200 * U));
        assert!(apart(&bodies[0], &bodies[1]));
        assert!(apart(&bodies[2], &bodies[3]));
        assert_eq!(bodies[0].vel.x, -50 * U);
        assert_eq!(bodies[3].vel.y, 30 * U);
    }
}

#[test]
fn both_collections_agree_on_scattered_pairs() {
    let mut simple = SimpleBallCollection::new();
    let mut with_tree = QuadtreeBallCollection::new();
    // Pairs of overlapping balls, far from each other and from the walls.
    for k in 0..40i64 {
        let x = (20 + 20 * (k % 8)) * U;
        let y = (20 + 20 * (k / 8)) * U;
        let a = ball(x, y, (k + 1) * 100, -k * 50);
        let b = ball(x + 1000 + 50 * k, y - 700 + 30 * k, -k * 70, (k + 3) * 40);
        simple.add_ball(a);
        simple.add_ball(b);
        with_tree.add_ball(a);
        with_tree.add_ball(b);
    }
    for _ in 0..20 {
        simple.update(TICKS_PER_SECOND / 60);
        with_tree.update(TICKS_PER_SECOND / 60);
        assert_eq!(simple.bodies(), with_tree.bodies());
        let bodies = simple.bodies();
        for i in 0..bodies.len() {
            for j in (i + 1)..bodies.len() {
                assert!(apart(&bodies[i], &bodies[j]));
            }
        }
    }
}

#[test]
fn update_turns_balls_back_at_the_walls() {
    let mut c = QuadtreeBallCollection::new();
    c.add_ball(ball(BALL_RADIUS + 5, 450 * U, -3000, 0));
    c.add_ball(ball(450 * U, WINDOW_HEIGHT - BALL_RADIUS - 5, 0, 3000));
    c.update(TICKS_PER_SECOND / 100);
    assert_eq!(c.bodies()[0], ball(BALL_RADIUS - 25, 450 * U, 3000, 0));
    assert_eq!(c.bodies()[1], ball(450 * U, WINDOW_HEIGHT - BALL_RADIUS + 25, 0, -3000));
    c.update(TICKS_PER_SECOND / 100);
    assert_eq!(c.bodies()[0], ball(BALL_RADIUS + 5, 450 * U, 3000, 0));
    assert_eq!(c.bodies()[1], ball(450 * U, WINDOW_HEIGHT - BALL_RADIUS - 5, 0, -3000));
}

#[test]
fn query_after_update_uses_the_tree_of_that_frame() {
    let mut c = QuadtreeBallCollection::new();
    for k in 0..100i64 {
        c.add_ball(ball((5 + 8 * k) * U, (5 + 8 * k) * U, 0, 0));
    }
    c.update(TICKS_PER_SECOND / 60);
    assert!(c.debug() > 1);
    assert_eq!(c.node_regions().len(), c.debug());
    let around = Quad { center: Vector2::new(45 * U, 45 * U), half_size: 10 * U };
    let mut found = c.debug_query(around);
    found.sort();
    assert_eq!(found, vec![4, 5, 6]);
}
