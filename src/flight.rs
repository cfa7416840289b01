//! The whole trip of one forager, tick by tick, and what it delivers.
use crate::coords::{distance, lemma_length_bound, Coords};
use crate::state::{bee_after, delivery, fitness_at, fresh_bee, slots_after, Activity, Bee};
use vstd::prelude::*;

verus! {

/// The forager `b` after `n` ticks, or `None` once it has reached the hive
/// and left the live set.
pub open spec fn flight(b: Bee, hive: Coords, v: u64, speed: u64, rate: u64, n: nat) -> Option<Bee>
    decreases n,
{
    if n == 0 {
        Some(b)
    } else {
        match flight(b, hive, v, speed, rate, (n - 1) as nat) {
            Some(c) => bee_after(c, hive, v, speed, rate),
            None => None,
        }
    }
}

/// The number of ticks needed to cover `amount` at `per_tick` a tick; every
/// phase takes at least one tick.
pub open spec fn ticks_for(amount: int, per_tick: int) -> int {
    if amount <= per_tick {
        1
    } else {
        (amount + per_tick - 1) / per_tick
    }
}

/// The length in ticks of the whole trip from the hive to `assignment` and
/// back, with fitness `v` there.
pub open spec fn trip_ticks(hive: Coords, assignment: Coords, v: u64, speed: u64, rate: u64) -> int {
    ticks_for(distance(hive, assignment), speed as int) + ticks_for(v as int, rate as int)
        + ticks_for(distance(assignment, hive), speed as int)
}

/// A bound on the ticks `c` still needs to reach the hive, with fitness `v`
/// at its assignment.
pub open spec fn ticks_left(c: Bee, hive: Coords, v: u64, speed: u64, rate: u64) -> int {
    let home = ticks_for(distance(c.assignment, hive), speed as int);
    match c.activity {
        Activity::Seeking => ticks_for(distance(hive, c.assignment) - c.travelled, speed as int)
            + ticks_for(v as int, rate as int) + home,
        Activity::Gathering(acc) => ticks_for(v - acc, rate as int) + home,
        Activity::Returning(_) => ticks_for(distance(c.assignment, hive) - c.travelled, speed as int),
    }
}

/// A forager on its way home carries `v`.
pub open spec fn carries(c: Bee, v: u64) -> bool {
    c.activity matches Activity::Returning(r) ==> r == v
}

/// Taking `per_tick` off an amount larger than it takes one tick off.
proof fn lemma_ticks_for_step(amount: int, per_tick: int)
    requires
        per_tick >= 1,
        amount > per_tick,
    ensures
        ticks_for(amount - per_tick, per_tick) == ticks_for(amount, per_tick) - 1,
        ticks_for(amount, per_tick) >= 2,
{
    let x = amount - 1;
    let q = x / per_tick;
    let m = x % per_tick;
    vstd::arithmetic::div_mod::lemma_fundamental_div_mod(x, per_tick);
    assert(x + per_tick == (q + 1) * per_tick + m) by (nonlinear_arith)
        requires x == per_tick * q + m;
    vstd::arithmetic::div_mod::lemma_fundamental_div_mod_converse(x + per_tick, per_tick, q + 1, m);
    assert(q >= 1) by (nonlinear_arith)
        requires x == per_tick * q + m, 0 <= m < per_tick, x >= per_tick;
    if amount - per_tick > per_tick {
        vstd::arithmetic::div_mod::lemma_fundamental_div_mod_converse(x, per_tick, q, m);
    } else {
        assert(q == 1) by (nonlinear_arith)
            requires x == per_tick * q + m, 0 <= m < per_tick, x < 2 * per_tick, q >= 1;
    }
}

proof fn lemma_ticks_for_positive(amount: int, per_tick: int)
    requires
        per_tick >= 1,
    ensures
        ticks_for(amount, per_tick) >= 1,
{
    if amount > per_tick {
        lemma_ticks_for_step(amount, per_tick);
    }
}

/// Every tick that leaves the forager flying lowers `ticks_left` by at least
/// one, keeps its assignment, and keeps it carrying `v`.
proof fn lemma_tick_progress(c: Bee, hive: Coords, v: u64, speed: u64, rate: u64)
    requires
        speed >= 1,
        rate >= 1,
        carries(c, v),
    ensures
        ticks_left(c, hive, v, speed, rate) >= 1,
        bee_after(c, hive, v, speed, rate) matches Some(e) ==> ticks_left(e, hive, v, speed, rate)
            <= ticks_left(c, hive, v, speed, rate) - 1 && e.assignment == c.assignment && carries(e, v),
{
    let out = distance(hive, c.assignment);
    let home = distance(c.assignment, hive);
    lemma_ticks_for_positive(out - c.travelled, speed as int);
    lemma_ticks_for_positive(v as int, rate as int);
    lemma_ticks_for_positive(home, speed as int);
    lemma_ticks_for_positive(home - c.travelled, speed as int);
    lemma_length_bound(c.assignment.x - hive.x, c.assignment.y - hive.y);
    lemma_length_bound(hive.x - c.assignment.x, hive.y - c.assignment.y);
    match c.activity {
        Activity::Seeking => {
            if !(distance(c.location, c.assignment) <= speed || out <= c.travelled + speed) {
                lemma_ticks_for_step(out - c.travelled, speed as int);
                let e = bee_after(c, hive, v, speed, rate)->Some_0;
                assert(e.travelled == c.travelled + speed);
                assert(out - e.travelled == (out - c.travelled) - speed);
            } else {
                let e = bee_after(c, hive, v, speed, rate)->Some_0;
                assert(e.activity == Activity::Gathering(0));
                assert(ticks_left(e, hive, v, speed, rate) == ticks_for(v as int, rate as int) + ticks_for(
                    home,
                    speed as int,
                ));
            }
        },
        Activity::Gathering(acc) => {
            lemma_ticks_for_positive(v - acc, rate as int);
            if acc + rate < v {
                lemma_ticks_for_step(v - acc, rate as int);
                assert(v - (acc + rate) == (v - acc) - rate);
            }
        },
        Activity::Returning(_) => {
            if !(distance(c.location, hive) <= speed || home <= c.travelled + speed) {
                lemma_ticks_for_step(home - c.travelled, speed as int);
                let e = bee_after(c, hive, v, speed, rate)->Some_0;
                assert(e.travelled == c.travelled + speed);
                assert(home - e.travelled == (home - c.travelled) - speed);
            }
        },
    }
}

proof fn lemma_flight_progress(c: Bee, hive: Coords, v: u64, speed: u64, rate: u64, k: nat)
    requires
        speed >= 1,
        rate >= 1,
        carries(c, v),
    ensures
        flight(c, hive, v, speed, rate, k) matches Some(e) ==> ticks_left(e, hive, v, speed, rate)
            <= ticks_left(c, hive, v, speed, rate) - k && e.assignment == c.assignment && carries(e, v),
    decreases k,
{
    if k > 0 {
        lemma_flight_progress(c, hive, v, speed, rate, (k - 1) as nat);
        if let Some(d) = flight(c, hive, v, speed, rate, (k - 1) as nat) {
            lemma_tick_progress(d, hive, v, speed, rate);
        }
    }
}

/// A forager hands a result in exactly in the tick in which it leaves the
/// live set.
proof fn lemma_delivery_iff_leaving(c: Bee, hive: Coords, v: u64, speed: u64, rate: u64)
    ensures
        delivery(c, hive, speed) is Some <==> bee_after(c, hive, v, speed, rate) is None,
{
}

/// A forager whose bound is `ticks_left` has left the live set after that
/// many ticks.
proof fn lemma_leaves_within(c: Bee, hive: Coords, v: u64, speed: u64, rate: u64)
    requires
        speed >= 1,
        rate >= 1,
        carries(c, v),
    ensures
        flight(c, hive, v, speed, rate, ticks_left(c, hive, v, speed, rate) as nat) is None,
{
    let n = ticks_left(c, hive, v, speed, rate);
    lemma_tick_progress(c, hive, v, speed, rate);
    let k = (n - 1) as nat;
    lemma_flight_progress(c, hive, v, speed, rate, k);
    assert(n as nat == k + 1);
    assert(flight(c, hive, v, speed, rate, k + 1) == match flight(c, hive, v, speed, rate, k) {
        Some(e) => bee_after(e, hive, v, speed, rate),
        None => None,
    });
    if let Some(e) = flight(c, hive, v, speed, rate, k) {
        lemma_tick_progress(e, hive, v, speed, rate);
        if let Some(f) = bee_after(e, hive, v, speed, rate) {
            lemma_tick_progress(f, hive, v, speed, rate);
        }
    }
}

proof fn lemma_delivers_when_leaving(b: Bee, hive: Coords, v: u64, speed: u64, rate: u64)
    ensures
        forall|k: nat|
            #[trigger] flight(b, hive, v, speed, rate, k) matches Some(c) ==> (delivery(c, hive, speed) is Some
                <==> flight(b, hive, v, speed, rate, k + 1) is None),
{
    assert forall|k: nat| (#[trigger] flight(b, hive, v, speed, rate, k)) is Some implies (delivery(
        flight(b, hive, v, speed, rate, k)->Some_0,
        hive,
        speed,
    ) is Some <==> flight(b, hive, v, speed, rate, k + 1) is None) by {
        assert(((k + 1) as nat - 1) as nat == k);
        lemma_delivery_iff_leaving(flight(b, hive, v, speed, rate, k)->Some_0, hive, v, speed, rate);
        assert(flight(b, hive, v, speed, rate, k + 1) == bee_after(
            flight(b, hive, v, speed, rate, k)->Some_0,
            hive,
            v,
            speed,
            rate,
        ));
    }
}

/// A forager sent out with `speed` and `rate` of at least one has reached the
/// hive and left the live set within `trip_ticks` ticks (distance over speed,
/// plus fitness over rate, plus distance over speed, each at least one); and
/// in every tick it hands a result in exactly when it leaves, so it hands in
/// exactly one.
pub proof fn lemma_trip_completes(
    id: usize,
    hive: Coords,
    assignment: Coords,
    v: u64,
    speed: u64,
    rate: u64,
)
    requires
        speed >= 1,
        rate >= 1,
    ensures
        ({
            let b = fresh_bee(id, hive, assignment);
            &&& flight(b, hive, v, speed, rate, trip_ticks(hive, assignment, v, speed, rate) as nat) is None
            &&& forall|k: nat|
                #[trigger] flight(b, hive, v, speed, rate, k) matches Some(c) ==> (delivery(c, hive, speed) is Some
                    <==> flight(b, hive, v, speed, rate, k + 1) is None)
        }),
{
    let b = fresh_bee(id, hive, assignment);
    assert(ticks_left(b, hive, v, speed, rate) == trip_ticks(hive, assignment, v, speed, rate));
    lemma_leaves_within(b, hive, v, speed, rate);
    lemma_delivers_when_leaving(b, hive, v, speed, rate);
}

/// Whatever the speed and the gather rate, the only result a forager ever
/// hands in is `v`, the fitness at its assignment: tick granularity changes
/// when the result arrives, never what it is.
pub proof fn lemma_delivers_fitness(
    id: usize,
    hive: Coords,
    assignment: Coords,
    v: u64,
    speed: u64,
    rate: u64,
    k: nat,
)
    requires
        speed >= 1,
        rate >= 1,
    ensures
        flight(fresh_bee(id, hive, assignment), hive, v, speed, rate, k) matches Some(c) ==> delivery(
            c,
            hive,
            speed,
        ) matches Some(r) ==> r == v,
{
    lemma_flight_progress(fresh_bee(id, hive, assignment), hive, v, speed, rate, k);
}

/// The slots after `n` ticks in which no new task arrived.
pub open spec fn slots_after_ticks<F: Fn(Coords) -> u64>(
    bees: Seq<Option<Bee>>,
    hive: Coords,
    f: F,
    speed: u64,
    rate: u64,
    n: nat,
) -> Seq<Option<Bee>>
    decreases n,
{
    if n == 0 {
        bees
    } else {
        slots_after(slots_after_ticks(bees, hive, f, speed, rate, (n - 1) as nat), hive, f, speed, rate)
    }
}

proof fn lemma_flight_keeps_assignment(b: Bee, hive: Coords, v: u64, speed: u64, rate: u64, n: nat)
    ensures
        flight(b, hive, v, speed, rate, n) matches Some(c) ==> c.assignment == b.assignment,
    decreases n,
{
    if n > 0 {
        lemma_flight_keeps_assignment(b, hive, v, speed, rate, (n - 1) as nat);
    }
}

/// In a state ticked with no new tasks, the forager in each slot follows its
/// own flight, gathering the fitness at its assignment: the laws above on a
/// single forager hold of every slot.
pub proof fn lemma_slot_follows_flight<F: Fn(Coords) -> u64>(
    bees: Seq<Option<Bee>>,
    hive: Coords,
    f: F,
    speed: u64,
    rate: u64,
    i: int,
    n: nat,
)
    requires
        0 <= i < bees.len(),
        bees[i] is Some,
    ensures
        slots_after_ticks(bees, hive, f, speed, rate, n).len() == bees.len(),
        slots_after_ticks(bees, hive, f, speed, rate, n)[i] == flight(
            bees[i]->Some_0,
            hive,
            fitness_at(f, bees[i]->Some_0.assignment),
            speed,
            rate,
            n,
        ),
    decreases n,
{
    if n > 0 {
        let b = bees[i]->Some_0;
        let v = fitness_at(f, b.assignment);
        lemma_slot_follows_flight(bees, hive, f, speed, rate, i, (n - 1) as nat);
        lemma_flight_keeps_assignment(b, hive, v, speed, rate, (n - 1) as nat);
    }
}

} // verus!
