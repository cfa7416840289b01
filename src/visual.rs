//! What the heat-map of the fitness landscape is computed from: the range of
//! fitness over the domain, and the colour of each fitness within that range.
use crate::coords::Coords;
use crate::state::{fitness_at, is_fitness_function, State};
use vstd::prelude::*;

verus! {

/// The colour of the lowest fitness, channel by channel.
pub const LOW_RED: u8 = 5;
pub const LOW_GREEN: u8 = 20;
pub const LOW_BLUE: u8 = 9;

/// The colour of the highest fitness, channel by channel.
pub const HIGH_RED: u8 = 50;
pub const HIGH_GREEN: u8 = 200;
pub const HIGH_BLUE: u8 = 90;

/// The channel value for fitness `f` on a scale from `lowest` (colour
/// `low`) to `highest` (colour `high`), rounded down; a flat landscape, where
/// `highest <= lowest`, is drawn in `low` throughout.
pub open spec fn blended(low: int, high: int, f: int, lowest: int, highest: int) -> int {
    if highest <= lowest {
        low
    } else {
        low + (high - low) * (f - lowest) / (highest - lowest)
    }
}

/// `c` lies in the rectangle from `min` to `max`.
pub open spec fn in_domain(c: Coords, min: Coords, max: Coords) -> bool {
    min.x <= c.x <= max.x && min.y <= c.y <= max.y
}

fn blend(low: u8, high: u8, f: u64, lowest: u64, highest: u64) -> (r: u8)
    requires
        low <= high,
        lowest <= f <= highest,
    ensures
        r == blended(low as int, high as int, f as int, lowest as int, highest as int),
{
    if highest <= lowest {
        low
    } else {
        let span: u128 = (highest - lowest) as u128;
        let part: u128 = (f - lowest) as u128;
        let scale: u128 = (high - low) as u128;
        assert(scale * part <= 255 * span) by (nonlinear_arith)
            requires scale <= 255, part <= span;
        let step: u128 = scale * part / span;
        assert(step <= scale) by (nonlinear_arith)
            requires step == (scale * part) / (span as int), part <= span, span > 0, scale >= 0;
        (low as u128 + step) as u8
    }
}

/// The heat-map colour of fitness `f` when the landscape ranges from
/// `lowest` to `highest`.
pub fn shade(f: u64, lowest: u64, highest: u64) -> (r: (u8, u8, u8))
    requires
        lowest <= f <= highest,
    ensures
        r.0 == blended(LOW_RED as int, HIGH_RED as int, f as int, lowest as int, highest as int),
        r.1 == blended(LOW_GREEN as int, HIGH_GREEN as int, f as int, lowest as int, highest as int),
        r.2 == blended(LOW_BLUE as int, HIGH_BLUE as int, f as int, lowest as int, highest as int),
{
    (
        blend(LOW_RED, HIGH_RED, f, lowest, highest),
        blend(LOW_GREEN, HIGH_GREEN, f, lowest, highest),
        blend(LOW_BLUE, HIGH_BLUE, f, lowest, highest),
    )
}

/// The lowest and the highest fitness over the whole domain, each attained at
/// some point of it.
pub fn fitness_range<F: Fn(Coords) -> u64>(state: &State<F>) -> (r: (u64, u64))
    requires
        is_fitness_function(state.fitness),
        state.field.min.x <= state.field.max.x,
        state.field.min.y <= state.field.max.y,
    ensures
        forall|c: Coords|
            in_domain(c, state.field.min, state.field.max) ==> r.0 <= #[trigger] fitness_at(state.fitness, c)
                <= r.1,
        exists|c: Coords| in_domain(c, state.field.min, state.field.max) && fitness_at(state.fitness, c) == r.0,
        exists|c: Coords| in_domain(c, state.field.min, state.field.max) && fitness_at(state.fitness, c) == r.1,
{
    let min = state.field.min;
    let max = state.field.max;
    let first = (state.fitness)(min);
    let mut lowest = first;
    let mut highest = first;
    let ghost mut at_lowest = min;
    let ghost mut at_highest = min;
    let mut x: i64 = min.x as i64;
    while x <= max.x as i64
        invariant
            min == state.field.min,
            max == state.field.max,
            min.x <= max.x,
            min.y <= max.y,
            is_fitness_function(state.fitness),
            min.x <= x <= max.x + 1,
            forall|c: Coords|
                in_domain(c, min, max) && c.x < x ==> lowest <= #[trigger] fitness_at(state.fitness, c) <= highest,
            in_domain(at_lowest, min, max) && fitness_at(state.fitness, at_lowest) == lowest,
            in_domain(at_highest, min, max) && fitness_at(state.fitness, at_highest) == highest,
        decreases max.x + 1 - x,
    {
        let mut y: i64 = min.y as i64;
        while y <= max.y as i64
            invariant
                min == state.field.min,
                max == state.field.max,
                min.x <= x <= max.x,
                min.y <= max.y,
                min.y <= y <= max.y + 1,
                is_fitness_function(state.fitness),
                forall|c: Coords|
                    in_domain(c, min, max) && (c.x < x || (c.x == x && c.y < y)) ==> lowest
                        <= #[trigger] fitness_at(state.fitness, c) <= highest,
                in_domain(at_lowest, min, max) && fitness_at(state.fitness, at_lowest) == lowest,
                in_domain(at_highest, min, max) && fitness_at(state.fitness, at_highest) == highest,
            decreases max.y + 1 - y,
        {
            let point = Coords { x: x as i32, y: y as i32 };
            let f = (state.fitness)(point);
            if f < lowest {
                lowest = f;
                proof {
                    at_lowest = point;
                }
            }
            if f > highest {
                highest = f;
                proof {
                    at_highest = point;
                }
            }
            y = y + 1;
        }
        x = x + 1;
    }
    (lowest, highest)
}

} // verus!
