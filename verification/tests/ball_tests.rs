use ball_collision::ball::Ball;
use ball_collision::constants::{
    BALL_DIAMETER, BALL_MASS, BALL_RADIUS, INITIAL_SPEED, TICKS_PER_SECOND, UNITS_PER_PIXEL,
    WINDOW_HEIGHT, WINDOW_WIDTH,
};
use ball_collision::quadtree::Point;
use ball_collision::vector::Vector2;

const U: i64 = UNITS_PER_PIXEL;

fn ball(x: i64, y: i64, vx: i64, vy: i64) -> Ball {
    Ball::new(Vector2::new(x, y), Vector2::new(vx, vy))
}

fn distance_sqr(a: &Ball, b: &Ball) -> i128 {
    let dx = (b.pos.x - a.pos.x) as i128;
    let dy = (b.pos.y - a.pos.y) as i128;
    dx * dx + dy * dy
}

fn energy(a: &Ball, b: &Ball) -> i128 {
    let sq = |v: Vector2| (v.x as i128) * (v.x as i128) + (v.y as i128) * (v.y as i128);
    BALL_MASS as i128 * (sq(a.vel) + sq(b.vel))
}

#[test]
fn constants_are_in_fixed_point_units() {
    assert_eq!(WINDOW_WIDTH, 900 * U);
    assert_eq!(WINDOW_HEIGHT, 900 * U);
    assert_eq!(BALL_RADIUS, 2 * U);
    assert_eq!(BALL_DIAMETER, 2 * BALL_RADIUS);
    assert_eq!(INITIAL_SPEED, 100 * U);
}

#[test]
fn new_keeps_position_and_velocity() {
    let b = ball(1, 2, 3, 4);
    assert_eq!(b.pos, Vector2::new(1, 2));
    assert_eq!(b.vel, Vector2::new(3, 4));
    assert_eq!(b.pos(), Vector2::new(1, 2));
}

#[test]
fn update_moves_by_velocity_times_time() {
    let mut b = ball(100 * U, 200 * U, 100 * U, -50 * U);
    b.update(TICKS_PER_SECOND / 100);
    assert_eq!(b.pos, Vector2::new(101 * U, 200 * U - U / 2));
    assert_eq!(b.vel, Vector2::new(100 * U, -50 * U));
    b.update(0);
    assert_eq!(b.pos, Vector2::new(101 * U, 200 * U - U / 2));
}

#[test]
fn update_rounds_the_step_toward_zero() {
    let mut b = ball(1000 * U, 1000 * U / 2, 3, -3);
    b.update(TICKS_PER_SECOND / 2);
    // 3 * 0.5 = 1.5 and -1.5: both are cut to 1 and -1
    assert_eq!(b.pos, Vector2::new(1000 * U + 1, 1000 * U / 2 - 1));
}

#[test]
fn update_turns_the_velocity_at_the_low_walls() {
    let mut b = ball(BALL_RADIUS + 10, BALL_RADIUS + 10, -2000, -3000);
    b.update(TICKS_PER_SECOND / 100);
    // The edge is now beyond both walls; the centre is not pulled back.
    assert_eq!(b.pos, Vector2::new(BALL_RADIUS - 10, BALL_RADIUS - 20));
    assert_eq!(b.vel, Vector2::new(2000, 3000));
    // A ball beyond the wall that already moves inward keeps its velocity.
    b.update(0);
    assert_eq!(b.vel, Vector2::new(2000, 3000));
}

#[test]
fn update_turns_the_velocity_at_the_high_walls() {
    let mut b =
        ball(WINDOW_WIDTH - BALL_RADIUS - 10, WINDOW_HEIGHT - BALL_RADIUS - 10, 2000, 3000);
    b.update(TICKS_PER_SECOND / 100);
    assert_eq!(
        b.pos,
        Vector2::new(WINDOW_WIDTH - BALL_RADIUS + 10, WINDOW_HEIGHT - BALL_RADIUS + 20)
    );
    assert_eq!(b.vel, Vector2::new(-2000, -3000));
}

#[test]
fn update_leaves_a_ball_that_touches_the_wall_alone() {
    let mut b = ball(BALL_RADIUS, WINDOW_HEIGHT - BALL_RADIUS, -7, 7);
    b.update(0);
    assert_eq!(b.vel, Vector2::new(-7, 7));
}

#[test]
fn update_stays_within_the_number_range() {
    let mut b = ball(i64::MAX - 5, i64::MIN + 5, i64::MAX, i64::MIN);
    b.update(i64::MAX);
    assert_eq!(b.pos, Vector2::new(i64::MAX, i64::MIN));
    assert_eq!(b.vel, Vector2::new(-i64::MAX, i64::MAX));
}

#[test]
fn overlap_means_closer_than_a_diameter() {
    let a = ball(100 * U, 100 * U, 0, 0);
    assert!(a.overlap(&ball(100 * U + BALL_DIAMETER - 1, 100 * U, 0, 0)));
    assert!(!a.overlap(&ball(100 * U + BALL_DIAMETER, 100 * U, 0, 0)));
    assert!(a.overlap(&a));
    // 3-4-5 triangle, scaled so that the distance is just a diameter.
    let dx = BALL_DIAMETER / 5 * 3;
    let dy = BALL_DIAMETER / 5 * 4;
    assert!(a.overlap(&ball(100 * U + dx, 100 * U + dy, 0, 0)));
    assert!(!a.overlap(&ball(100 * U + dx + 2, 100 * U + dy + 2, 0, 0)));
    assert!(!a.overlap(&ball(i64::MAX, i64::MIN, 0, 0)));
    assert!(!ball(i64::MIN, 0, 0, 0).overlap(&ball(i64::MAX, 0, 0, 0)));
}

#[test]
fn head_on_pair_separates_and_swaps_velocities() {
    let mut a = ball(100 * U, 450 * U, 50 * U, 0);
    let mut b = ball(103 * U, 450 * U, -50 * U, 0);
    let before = energy(&a, &b);
    a.resolve_collision(&mut b);
    assert_eq!(a.pos, Vector2::new(100 * U - U / 2, 450 * U));
    assert_eq!(b.pos, Vector2::new(103 * U + U / 2, 450 * U));
    assert_eq!(b.pos.x - a.pos.x, 4 * U);
    assert_eq!(a.vel, Vector2::new(-50 * U, 0));
    assert_eq!(b.vel, Vector2::new(50 * U, 0));
    assert_eq!(energy(&a, &b), before);
    assert_eq!(a.vel.x + b.vel.x, 0);
}

#[test]
fn pair_a_diameter_apart_is_left_alone() {
    // Centres at (100, 450) and (104, 450) with a radius of 2: the balls
    // touch and do not overlap.
    let mut a = ball(100 * U, 450 * U, 50 * U, 0);
    let mut b = ball(104 * U, 450 * U, -50 * U, 0);
    a.resolve_collision(&mut b);
    assert_eq!(a, ball(100 * U, 450 * U, 50 * U, 0));
    assert_eq!(b, ball(104 * U, 450 * U, -50 * U, 0));
    assert_eq!(b.pos.x - a.pos.x, 4 * U);
}

#[test]
fn resolving_twice_is_resolving_once() {
    let cases = [
        (ball(100 * U, 450 * U, 50 * U, 0), ball(103 * U, 450 * U, -50 * U, 0)),
        (ball(10_000, 20_000, 123, -456), ball(10_700, 19_100, -789, 1011)),
        (ball(5, 5, 1, 1), ball(5, 5, -1, -1)),
        (ball(-3000, 4000, 0, 0), ball(-1000, 1000, 99_999, -99_999)),
        (ball(0, 0, 7, 7), ball(4095, 0, 0, 0)),
        (ball(0, 0, 7, 7), ball(0, -1, 3, -9)),
    ];
    for (a0, b0) in cases {
        let (mut a, mut b) = (a0, b0);
        a.resolve_collision(&mut b);
        let (a1, b1) = (a, b);
        assert!(distance_sqr(&a, &b) >= (BALL_DIAMETER as i128) * (BALL_DIAMETER as i128));
        assert!(!a.overlap(&b));
        a.resolve_collision(&mut b);
        assert_eq!((a, b), (a1, b1));
        b.resolve_collision(&mut a);
        assert_eq!((a, b), (a1, b1));
    }
}

#[test]
fn collision_changes_the_energy_only_by_rounding() {
    // The impulse is cut to whole units of speed, here by 2 units along
    // each axis: the sum of the squared speeds changes by 39,984 of 250,000,000.
    let mut a = ball(0, 0, 5000, 10_000);
    let mut b = ball(1, 2, -5000, -10_000);
    let before = energy(&a, &b) / BALL_MASS as i128;
    a.resolve_collision(&mut b);
    assert_eq!(a.vel, Vector2::new(-5002, -9998));
    assert_eq!(b.vel, Vector2::new(5002, 9998));
    let after = energy(&a, &b) / BALL_MASS as i128;
    assert_eq!(before, 250_000_000);
    assert_eq!(after, 249_960_016);
    assert!((after - before).abs() < 4 * (10_000 + 20_000) + 4);
}

#[test]
fn energy_stays_within_the_bound_for_scattered_collisions() {
    let mut seed: u64 = 12345;
    let mut next = |bound: i64| {
        seed = seed.wrapping_mul(6364136223846793005).wrapping_add(1442695040888963407);
        ((seed >> 33) % (2 * bound as u64 + 1)) as i64 - bound
    };
    for _ in 0..2000 {
        let mut a = ball(next(5000), next(5000), next(300_000), next(300_000));
        let mut b = ball(a.pos.x + next(4000), a.pos.y + next(4000), next(300_000), next(300_000));
        let before = energy(&a, &b) / BALL_MASS as i128;
        let (sum_x, sum_y) = (a.vel.x + b.vel.x, a.vel.y + b.vel.y);
        let spread = ((b.vel.x - a.vel.x).abs() + (b.vel.y - a.vel.y).abs()) as i128;
        a.resolve_collision(&mut b);
        let after = energy(&a, &b) / BALL_MASS as i128;
        assert!((after - before).abs() < 4 * spread + 4);
        assert_eq!((a.vel.x + b.vel.x, a.vel.y + b.vel.y), (sum_x, sum_y));
    }
}

#[test]
fn collision_keeps_the_sum_of_velocities() {
    let mut a = ball(10_000, 20_000, 12_345, -45_678);
    let mut b = ball(10_700, 19_100, -7_891, 10_112);
    a.resolve_collision(&mut b);
    assert_eq!(a.vel.x + b.vel.x, 12_345 - 7_891);
    assert_eq!(a.vel.y + b.vel.y, -45_678 + 10_112);
}

#[test]
fn oblique_collision_has_exact_result() {
    // The line between the centres is (1800, 2400), of length 3000. Stretched
    // to a diameter of 4096 it is (2457.6, 3276.8), rounded away from zero to
    // (2458, 3277): 658 and 877 more, of which the first ball takes 329 and 438.
    let mut a = ball(0, 0, 1000, 0);
    let mut b = ball(1800, 2400, 0, 0);
    a.resolve_collision(&mut b);
    assert_eq!(a.pos, Vector2::new(-329, -438));
    assert_eq!(b.pos, Vector2::new(2129, 2839));
    // The velocity along the line goes over to the other ball: about
    // 1000 * 9/25 and 1000 * 12/25.
    assert_eq!(a.vel, Vector2::new(640, -480));
    assert_eq!(b.vel, Vector2::new(360, 480));
}

#[test]
fn nearly_coincident_centres_are_parted_to_a_diameter() {
    // The line (1, 1) has a length of 1.414; in 1024ths it is 1448. Each
    // component is stretched to 4096 * 1024 / 1448 = 2896.6, rounded up.
    let mut a = ball(0, 0, 0, 0);
    let mut b = ball(1, 1, 0, 0);
    a.resolve_collision(&mut b);
    assert_eq!(a.pos, Vector2::new(-1448, -1448));
    assert_eq!(b.pos, Vector2::new(1449, 1449));
    let d = BALL_DIAMETER as i128;
    assert!(distance_sqr(&a, &b) >= d * d);
    assert!(distance_sqr(&a, &b) < (d + 8) * (d + 8));
}

#[test]
fn resolved_pairs_are_a_diameter_apart_to_within_eight_units() {
    let d = BALL_DIAMETER as i128;
    for dx in (-4100i64..4100).step_by(97) {
        for dy in (-4100i64..4100).step_by(89) {
            let mut a = ball(1_000_000, 2_000_000, 0, 0);
            let mut b = ball(1_000_000 + dx, 2_000_000 + dy, 0, 0);
            let overlapped = a.overlap(&b);
            a.resolve_collision(&mut b);
            assert!(distance_sqr(&a, &b) >= d * d);
            if overlapped {
                assert!(distance_sqr(&a, &b) < (d + 8) * (d + 8));
            } else {
                assert_eq!((b.pos.x - a.pos.x, b.pos.y - a.pos.y), (dx, dy));
            }
        }
    }
}

#[test]
fn ball_that_crossed_a_wall_is_back_after_the_next_step() {
    let frame = TICKS_PER_SECOND / 50;
    let start = ball(BALL_RADIUS + 100, WINDOW_HEIGHT - BALL_RADIUS - 100, -60_000, 90_000);
    let mut b = start;
    b.update(frame);
    assert_eq!(b.pos, Vector2::new(BALL_RADIUS - 1100, WINDOW_HEIGHT - BALL_RADIUS + 1700));
    assert_eq!(b.vel, Vector2::new(60_000, -90_000));
    b.update(frame);
    assert_eq!(b.pos, start.pos);
    assert_eq!(b.vel, Vector2::new(60_000, -90_000));
}

#[test]
fn coincident_centres_are_parted_along_x() {
    let mut a = ball(500 * U, 500 * U, 10, 20);
    let mut b = ball(500 * U, 500 * U, -30, 40);
    a.resolve_collision(&mut b);
    assert_eq!(a.pos, Vector2::new(500 * U - BALL_RADIUS, 500 * U));
    assert_eq!(b.pos, Vector2::new(500 * U + BALL_RADIUS, 500 * U));
    // The parts along x are exchanged, those along y stay.
    assert_eq!(a.vel, Vector2::new(-30, 20));
    assert_eq!(b.vel, Vector2::new(10, 40));
}

#[test]
fn separating_pair_still_exchanges_along_the_line() {
    let mut a = ball(0, 0, -100, 5);
    let mut b = ball(2000, 0, 100, -5);
    a.resolve_collision(&mut b);
    assert_eq!(b.pos.x - a.pos.x, BALL_DIAMETER);
    assert_eq!(a.vel, Vector2::new(100, 5));
    assert_eq!(b.vel, Vector2::new(-100, -5));
}

#[test]
fn launched_ball_has_the_initial_speed() {
    let at = Vector2::new(7, 9);
    assert_eq!(Ball::launched(at, 0, true), ball(7, 9, 0, INITIAL_SPEED));
    assert_eq!(Ball::launched(at, 0, false), ball(7, 9, 0, -INITIAL_SPEED));
    assert_eq!(Ball::launched(at, INITIAL_SPEED, true), ball(7, 9, INITIAL_SPEED, 0));
    assert_eq!(Ball::launched(at, -INITIAL_SPEED, false), ball(7, 9, -INITIAL_SPEED, 0));
    assert_eq!(
        Ball::launched(at, INITIAL_SPEED / 5 * 3, true),
        ball(7, 9, INITIAL_SPEED / 5 * 3, INITIAL_SPEED / 5 * 4)
    );
    assert_eq!(
        Ball::launched(at, -INITIAL_SPEED / 5 * 4, false),
        ball(7, 9, -INITIAL_SPEED / 5 * 4, -INITIAL_SPEED / 5 * 3)
    );
    assert_eq!(Ball::launched(at, 1, true), ball(7, 9, 1, INITIAL_SPEED - 1));
    assert_eq!(Ball::launched(at, INITIAL_SPEED + 1, true), ball(7, 9, INITIAL_SPEED + 1, 0));
    assert_eq!(Ball::launched(at, i64::MIN, false), ball(7, 9, i64::MIN, 0));
}

#[test]
fn random_balls_start_inside_the_arena_at_the_initial_speed() {
    let s = INITIAL_SPEED as i128;
    for _ in 0..500 {
        let b = Ball::new_random();
        assert!(BALL_RADIUS <= b.pos.x && b.pos.x < WINDOW_WIDTH - BALL_RADIUS);
        assert!(BALL_RADIUS <= b.pos.y && b.pos.y < WINDOW_HEIGHT - BALL_RADIUS);
        let speed_sqr =
            (b.vel.x as i128) * (b.vel.x as i128) + (b.vel.y as i128) * (b.vel.y as i128);
        assert!(speed_sqr <= s * s);
        assert!(speed_sqr > (s - 1) * (s - 1));
    }
}

#[test]
fn random_balls_differ() {
    let first = Ball::new_random();
    let mut other_x = false;
    let mut other_y = false;
    let mut other_vx = false;
    let mut up = false;
    let mut down = false;
    for _ in 0..500 {
        let b = Ball::new_random();
        other_x |= b.pos.x != first.pos.x;
        other_y |= b.pos.y != first.pos.y;
        other_vx |= b.vel.x != first.vel.x;
        up |= b.vel.y < 0;
        down |= b.vel.y > 0;
        // None of the draws is one of the bounds handed back again and again.
    }
    assert!(other_x && other_y && other_vx && up && down);
}
