use ball_collision::quad::Quad;
use ball_collision::vector::Vector2;

fn quad(x: i64, y: i64, half_size: i64) -> Quad {
    Quad { center: Vector2::new(x, y), half_size }
}

#[test]
fn overlap_is_strict() {
    let a = quad(0, 0, 10);
    assert!(a.overlap(&quad(19, 0, 10)));
    assert!(a.overlap(&quad(-19, 19, 10)));
    // Squares that only touch do not overlap.
    assert!(!a.overlap(&quad(20, 0, 10)));
    assert!(!a.overlap(&quad(0, -20, 10)));
    assert!(!a.overlap(&quad(25, 0, 10)));
    assert!(a.overlap(&a));
    // A small square inside a large one.
    assert!(quad(0, 0, 100).overlap(&quad(50, -50, 1)));
}

#[test]
fn overlap_is_symmetric() {
    let a = quad(3, -4, 7);
    for x in -20..20 {
        for y in -20..20 {
            let b = quad(x, y, 5);
            assert_eq!(a.overlap(&b), b.overlap(&a));
        }
    }
}

#[test]
fn overlap_at_the_ends_of_the_number_range() {
    let a = quad(i64::MAX, i64::MAX, i64::MAX);
    let b = quad(i64::MIN, i64::MIN, i64::MAX);
    assert!(!a.overlap(&b));
    assert!(a.overlap(&quad(0, 0, 1)));
}

#[test]
fn contains_excludes_the_edge() {
    let q = quad(100, 200, 10);
    assert!(q.contains(Vector2::new(100, 200)));
    assert!(q.contains(Vector2::new(109, 191)));
    assert!(q.contains(Vector2::new(91, 209)));
    assert!(!q.contains(Vector2::new(110, 200)));
    assert!(!q.contains(Vector2::new(90, 200)));
    assert!(!q.contains(Vector2::new(100, 210)));
    assert!(!q.contains(Vector2::new(100, 190)));
    assert!(!q.contains(Vector2::new(i64::MIN, i64::MAX)));
}

#[test]
fn find_quadrant_follows_the_labels() {
    let q = quad(10, 10, 8);
    assert_eq!(q.find_quadrant(Vector2::new(5, 5)), 0);
    assert_eq!(q.find_quadrant(Vector2::new(5, 15)), 1);
    assert_eq!(q.find_quadrant(Vector2::new(15, 5)), 2);
    assert_eq!(q.find_quadrant(Vector2::new(15, 15)), 3);
    // A point on a line through the centre counts to the high side.
    assert_eq!(q.find_quadrant(Vector2::new(10, 10)), 3);
    assert_eq!(q.find_quadrant(Vector2::new(10, 5)), 2);
    assert_eq!(q.find_quadrant(Vector2::new(5, 10)), 1);
    // Points outside the square are classified all the same.
    assert_eq!(q.find_quadrant(Vector2::new(-1000, 1000)), 1);
    assert_eq!(q.find_quadrant(Vector2::new(i64::MAX, i64::MIN)), 2);
}

#[test]
fn split_quadrants_come_in_label_order() {
    let q = quad(100, 200, 40);
    let parts = q.split_quadrants();
    assert_eq!(parts[0], quad(80, 180, 20));
    assert_eq!(parts[1], quad(80, 220, 20));
    assert_eq!(parts[2], quad(120, 180, 20));
    assert_eq!(parts[3], quad(120, 220, 20));
    for i in 0..4 {
        assert_eq!(parts[i], q.get_quadrant(i));
    }
}

#[test]
fn quadrants_have_exactly_half_the_half_size() {
    for half_size in [2i64, 4, 6, 10, 64, 900, 460_800] {
        let q = quad(-7, 11, half_size);
        let parts = q.split_quadrants();
        for i in 0..4 {
            assert_eq!(2 * parts[i].half_size, half_size);
            let dx = if i >= 2 { parts[i].half_size } else { -parts[i].half_size };
            let dy = if i % 2 == 1 { parts[i].half_size } else { -parts[i].half_size };
            assert_eq!(parts[i].center, Vector2::new(-7 + dx, 11 + dy));
        }
    }
    let smallest = quad(7, 7, 2).split_quadrants();
    assert_eq!(smallest[0], quad(6, 6, 1));
    assert_eq!(smallest[3], quad(8, 8, 1));
}

#[test]
fn quadrants_lie_inside_the_square_and_do_not_overlap() {
    for half_size in [2i64, 4, 6, 8, 10] {
        let q = quad(3, -2, half_size);
        let parts = q.split_quadrants();
        for i in 0..4 {
            for j in 0..4 {
                assert_eq!(parts[i].overlap(&parts[j]), i == j);
            }
            assert!(parts[i].overlap(&q));
        }
        for x in (3 - half_size - 2)..(3 + half_size + 3) {
            for y in (-2 - half_size - 2)..(-2 + half_size + 3) {
                let p = Vector2::new(x, y);
                for i in 0..4 {
                    if parts[i].contains(p) {
                        assert!(q.contains(p));
                    }
                }
            }
        }
    }
}

#[test]
fn every_point_off_the_centre_lines_is_in_one_quadrant() {
    for half_size in [2i64, 4, 6, 8, 10] {
        let q = quad(3, -2, half_size);
        let parts = q.split_quadrants();
        for x in (3 - half_size - 1)..(3 + half_size + 2) {
            for y in (-2 - half_size - 1)..(-2 + half_size + 2) {
                let p = Vector2::new(x, y);
                let holders: Vec<usize> = (0..4).filter(|&i| parts[i].contains(p)).collect();
                if q.contains(p) && x != 3 && y != -2 {
                    assert_eq!(holders, vec![q.find_quadrant(p)]);
                } else {
                    // On a line through the centre, or outside the square.
                    assert!(holders.is_empty());
                }
            }
        }
    }
}
