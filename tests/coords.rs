use bees::coords::{distance_between, round_root, Coords};

fn at(x: i32, y: i32) -> Coords {
    Coords { x, y }
}

#[test]
fn magnitude_rounds_to_nearest() {
    assert_eq!(at(3, 4).magnitude(), 5);
    assert_eq!(at(100, 100).magnitude(), 141);
    assert_eq!(at(-100, 100).magnitude(), 141);
    assert_eq!(at(1, 1).magnitude(), 1);
    assert_eq!(at(0, 0).magnitude(), 0);
    assert_eq!(at(46341, 0).magnitude(), 46341);
}

#[test]
fn round_root_values() {
    assert_eq!(round_root(0), 0);
    assert_eq!(round_root(2), 1);
    assert_eq!(round_root(3), 2);
    assert_eq!(round_root(6), 2);
    assert_eq!(round_root(7), 3);
    assert_eq!(round_root(25), 5);
}

#[test]
fn distance_between_extreme_corners() {
    let d = distance_between(at(i32::MIN, i32::MIN), at(i32::MAX, i32::MAX));
    assert_eq!(d, 6074000999);
    assert_eq!(distance_between(at(0, 0), at(100, 100)), 141);
    assert_eq!(distance_between(at(100, 100), at(0, 0)), 141);
}

#[test]
fn clamp_holds_points_inside() {
    let min = at(-256, -256);
    let max = at(256, 256);
    assert_eq!(at(300, -300).clamp(&min, &max), at(256, -256));
    assert_eq!(at(10, -20).clamp(&min, &max), at(10, -20));
    assert_eq!(at(-257, 257).clamp(&min, &max), at(-256, 256));
}

#[test]
fn vector_arithmetic() {
    assert_eq!(at(1, 2).add(at(3, -5)), at(4, -3));
    assert_eq!(at(1, 2).sub(at(3, -5)), at(-2, 7));
    assert_eq!(at(3, -4).mul(-2), at(-6, 8));
    assert_eq!(at(7, -7).div(2), at(3, -3));
    assert_eq!(at(-9, 9).div(-4), at(2, -2));
}

#[test]
fn random_stays_in_rectangle() {
    let min = at(-3, 10);
    let max = at(2, 12);
    for _ in 0..200 {
        let c = Coords::random(&min, &max);
        assert!(-3 <= c.x && c.x <= 2);
        assert!(10 <= c.y && c.y <= 12);
    }
    let single = Coords::random(&at(5, -5), &at(5, -5));
    assert_eq!(single, at(5, -5));
}
