use bees::coords::Coords;
use bees::state::State;
use bees::visual::{fitness_range, shade};

fn at(x: i32, y: i32) -> Coords {
    Coords { x, y }
}

#[test]
fn shade_blends_between_the_end_colours() {
    assert_eq!(shade(0, 0, 10), (5, 20, 9));
    assert_eq!(shade(10, 0, 10), (50, 200, 90));
    assert_eq!(shade(5, 0, 10), (27, 110, 49));
    assert_eq!(shade(u64::MAX, 0, u64::MAX), (50, 200, 90));
}

#[test]
fn shade_of_a_flat_landscape_is_the_low_colour() {
    assert_eq!(shade(7, 7, 7), (5, 20, 9));
}

#[test]
fn fitness_range_scans_the_whole_domain() {
    let state = State::new(at(-3, -2), at(4, 5), 1, |c: Coords| ((c.x + 10) * (c.y + 10)) as u64);
    assert_eq!(fitness_range(&state), (56, 210));
    let flat = State::new(at(0, 0), at(2, 2), 1, |_c: Coords| 9u64);
    assert_eq!(fitness_range(&flat), (9, 9));
}
