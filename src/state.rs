//! The simulation state owned by the stepper: the hive, the fixed set of
//! forager slots, the fitness landscape and the best result seen so far,
//! with the per-tick state machine of a single forager.
use crate::coords::{distance, distance_between, Coords};
use crate::context::NewBee;
use vstd::prelude::*;

verus! {

/// What a forager is doing.
#[derive(Clone, Copy, Debug, PartialEq, Eq, Structural)]
pub enum Activity {
    /// Flying from the hive to its assignment.
    Seeking,
    /// Standing at its assignment, with the amount gathered so far.
    Gathering(u64),
    /// Flying home with the fitness it found.
    Returning(u64),
}

/// One in-flight fitness evaluation.
///
/// Fitness values, gather amounts and rates are in thousandths of a fitness
/// unit. `travelled` is the distance covered on the current leg of the trip:
/// each tick the location becomes the grid point nearest to `travelled` units
/// along the leg, so that a forager advances by exactly its speed along its
/// line every tick although its location stays on the integer grid. Arrival
/// goes by the location: a forager within its speed of its target snaps onto
/// it.
#[derive(Clone, Copy, Debug, PartialEq, Eq, Structural)]
pub struct Bee {
    pub id: usize,
    pub location: Coords,
    pub assignment: Coords,
    pub activity: Activity,
    pub travelled: u64,
}

/// The rectangular sampling domain, corners included.
#[derive(Clone, Copy, Debug, PartialEq, Eq, Structural)]
pub struct Field {
    pub min: Coords,
    pub max: Coords,
}

/// Why a new forager could not be placed.
#[derive(Clone, Copy, Debug, PartialEq, Eq, Structural)]
pub enum SlotError {
    /// A live forager already carries this identity.
    DuplicateIdentity,
    /// Every slot is taken: the slots were provisioned for fewer concurrent
    /// evaluations than were requested.
    NoFreeSlot,
}

/// Everything the stepper owns.
pub struct State<F> {
    pub fitness: F,
    pub hive_location: Coords,
    pub bees: Vec<Option<Bee>>,
    pub best: Option<(Coords, u64)>,
    pub field: Field,
}

/// `l * t / d` rounded to the nearest integer, halves away from zero.
pub open spec fn rounded_ratio(l: int, t: int, d: int) -> int {
    if l >= 0 {
        (2 * l * t + d) / (2 * d)
    } else {
        -((2 * (-l) * t + d) / (2 * d))
    }
}

/// The grid point nearest to the place `t` units along the straight line from
/// `from` to `to`, whose length is `d`.
pub open spec fn point_along(from: Coords, to: Coords, t: int, d: int) -> Coords {
    Coords {
        x: (from.x + rounded_ratio(to.x - from.x, t, d)) as i32,
        y: (from.y + rounded_ratio(to.y - from.y, t, d)) as i32,
    }
}

/// A forager that has just been sent from the hive to `assignment`.
pub open spec fn fresh_bee(id: usize, hive: Coords, assignment: Coords) -> Bee {
    Bee { id, location: hive, assignment, activity: Activity::Seeking, travelled: 0 }
}

/// The forager `b` after one tick, or `None` when it reached the hive this
/// tick and left the live set. A flying forager arrives, and snaps onto its
/// target, once the target is within `speed` of where it stands, or once the
/// leg's length is used up. `hive` is the hive's location, `v` the fitness
/// at the assignment, `speed` the distance flown per tick and `rate` the
/// amount gathered per tick.
pub open spec fn bee_after(b: Bee, hive: Coords, v: u64, speed: u64, rate: u64) -> Option<Bee> {
    match b.activity {
        Activity::Seeking => {
            let d = distance(hive, b.assignment);
            if distance(b.location, b.assignment) <= speed || d <= b.travelled + speed {
                Some(Bee { location: b.assignment, activity: Activity::Gathering(0), travelled: 0, ..b })
            } else {
                let t = b.travelled + speed;
                Some(Bee { location: point_along(hive, b.assignment, t, d), travelled: t as u64, ..b })
            }
        },
        Activity::Gathering(acc) => {
            if acc + rate >= v {
                Some(Bee { activity: Activity::Returning(v), travelled: 0, ..b })
            } else {
                Some(Bee { activity: Activity::Gathering((acc + rate) as u64), ..b })
            }
        },
        Activity::Returning(_) => {
            let d = distance(b.assignment, hive);
            if distance(b.location, hive) <= speed || d <= b.travelled + speed {
                None
            } else {
                let t = b.travelled + speed;
                Some(Bee { location: point_along(b.assignment, hive, t, d), travelled: t as u64, ..b })
            }
        },
    }
}

/// The result that `b` hands in during its next tick: what it carries, if it
/// reaches the hive in that tick.
pub open spec fn delivery(b: Bee, hive: Coords, speed: u64) -> Option<u64> {
    match b.activity {
        Activity::Returning(r) => if distance(b.location, hive) <= speed || distance(b.assignment, hive)
            <= b.travelled + speed {
            Some(r)
        } else {
            None
        },
        _ => None,
    }
}

/// The fitness that `f` gives at `c`.
pub open spec fn fitness_at<F: Fn(Coords) -> u64>(f: F, c: Coords) -> u64 {
    choose|v: u64| call_ensures(f, (c,), v)
}

/// `f` is defined everywhere and gives one value per point.
pub open spec fn is_fitness_function<F: Fn(Coords) -> u64>(f: F) -> bool {
    &&& forall|c: Coords| call_requires(f, (c,))
    &&& forall|c: Coords, v: u64| #[trigger] call_ensures(f, (c,), v) ==> v == fitness_at(f, c)
}

/// A slot holds a live forager with identity `id`.
pub open spec fn holds_identity(bees: Seq<Option<Bee>>, id: usize) -> bool {
    exists|i: int| 0 <= i < bees.len() && #[trigger] bees[i] is Some && bees[i]->Some_0.id == id
}

/// No two live foragers share an identity.
pub open spec fn identities_unique(bees: Seq<Option<Bee>>) -> bool {
    forall|i: int, j: int|
        0 <= i < bees.len() && 0 <= j < bees.len() && i != j && #[trigger] bees[i] is Some
            && #[trigger] bees[j] is Some ==> bees[i]->Some_0.id != bees[j]->Some_0.id
}

/// `i` is the first free slot.
pub open spec fn first_free(bees: Seq<Option<Bee>>, i: int) -> bool {
    &&& 0 <= i < bees.len()
    &&& bees[i] is None
    &&& forall|j: int| 0 <= j < i ==> #[trigger] bees[j] is Some
}

/// The slots after one tick of every live forager.
pub open spec fn slots_after<F: Fn(Coords) -> u64>(
    bees: Seq<Option<Bee>>,
    hive: Coords,
    f: F,
    speed: u64,
    rate: u64,
) -> Seq<Option<Bee>> {
    Seq::new(
        bees.len(),
        |i: int|
            match bees[i] {
                Some(b) => bee_after(b, hive, fitness_at(f, b.assignment), speed, rate),
                None => None,
            },
    )
}

/// The `(identity, result)` pairs handed in during one tick, in slot order.
pub open spec fn deliveries(bees: Seq<Option<Bee>>, hive: Coords, speed: u64) -> Seq<(usize, u64)>
    decreases bees.len(),
{
    if bees.len() == 0 {
        Seq::empty()
    } else {
        let earlier = deliveries(bees.drop_last(), hive, speed);
        match bees.last() {
            Some(b) => match delivery(b, hive, speed) {
                Some(r) => earlier.push((b.id, r)),
                None => earlier,
            },
            None => earlier,
        }
    }
}

/// Where a forager for task `id` at `coords` goes: the slots with it placed
/// in the first free one, or why it cannot be placed.
pub open spec fn placement(bees: Seq<Option<Bee>>, id: usize, hive: Coords, coords: Coords) -> Result<
    Seq<Option<Bee>>,
    SlotError,
> {
    if holds_identity(bees, id) {
        Err(SlotError::DuplicateIdentity)
    } else if exists|i: int| first_free(bees, i) {
        let i = choose|i: int| first_free(bees, i);
        Ok(bees.update(i, Some(fresh_bee(id, hive, coords))))
    } else {
        Err(SlotError::NoFreeSlot)
    }
}

/// The slots once the task that arrived this tick, if any, is placed.
pub open spec fn arrival_placed(bees: Seq<Option<Bee>>, arrival: Option<NewBee>, hive: Coords) -> Result<
    Seq<Option<Bee>>,
    SlotError,
> {
    match arrival {
        Some(task) => placement(bees, task.id, hive, task.coords),
        None => Ok(bees),
    }
}

proof fn lemma_first_free_unique(bees: Seq<Option<Bee>>, i: int, j: int)
    requires
        first_free(bees, i),
        first_free(bees, j),
    ensures
        i == j,
{
    if i < j {
        assert(bees[i] is Some);
    } else if j < i {
        assert(bees[j] is Some);
    }
}

/// One tick keeps every surviving forager's identity, so identities stay
/// unique.
proof fn lemma_slots_after_unique<F: Fn(Coords) -> u64>(
    bees: Seq<Option<Bee>>,
    hive: Coords,
    f: F,
    speed: u64,
    rate: u64,
)
    requires
        identities_unique(bees),
    ensures
        identities_unique(slots_after(bees, hive, f, speed, rate)),
{
    let after = slots_after(bees, hive, f, speed, rate);
    assert forall|i: int, j: int|
        0 <= i < after.len() && 0 <= j < after.len() && i != j && #[trigger] after[i] is Some
            && #[trigger] after[j] is Some implies after[i]->Some_0.id != after[j]->Some_0.id by {
        assert(bees[i] is Some && bees[j] is Some);
    }
}

/// The integer `(2 * l * t + d) / (2 * d)` lies between zero and `l`.
proof fn lemma_ratio_bound(l: int, t: int, d: int)
    requires
        0 <= l,
        0 <= t <= d,
        0 < d,
    ensures
        0 <= (2 * l * t + d) / (2 * d) <= l,
{
    let x = 2 * l * t + d;
    let y = 2 * d;
    assert(0 <= x) by (nonlinear_arith)
        requires 0 <= l, 0 <= t, 0 < d, x == 2 * l * t + d;
    assert(x < (l + 1) * y) by (nonlinear_arith)
        requires 0 <= l, 0 <= t <= d, 0 < d, x == 2 * l * t + d, y == 2 * d;
    let q = x / y;
    assert(q * y <= x) by (nonlinear_arith)
        requires q == x / y, y > 0, x >= 0;
    assert(q <= l) by (nonlinear_arith)
        requires q * y <= x, x < (l + 1) * y, y > 0;
    assert(0 <= q) by (nonlinear_arith)
        requires q == x / y, y > 0, x >= 0;
}

/// One axis of `point_along`.
fn along(a: i32, b: i32, t: u64, d: u64) -> (r: i32)
    requires
        0 < d <= 0x1_8000_0000,
        t <= d,
    ensures
        r == a + rounded_ratio(b - a, t as int, d as int),
{
    let l: i64 = b as i64 - a as i64;
    let la: u128 = if l >= 0 { l as u128 } else { (-l) as u128 };
    assert(2 * la * t <= 0x2_0000_0000 * 0x1_8000_0000) by (nonlinear_arith)
        requires la <= 0x1_0000_0000, t <= 0x1_8000_0000;
    let q: u128 = (2 * la * (t as u128) + (d as u128)) / (2 * (d as u128));
    proof {
        lemma_ratio_bound(la as int, t as int, d as int);
    }
    if l >= 0 {
        (a as i64 + q as i64) as i32
    } else {
        (a as i64 - q as i64) as i32
    }
}

/// The exec counterpart of `point_along`.
fn locate(from: Coords, to: Coords, t: u64, d: u64) -> (r: Coords)
    requires
        0 < d <= 0x1_8000_0000,
        t <= d,
    ensures
        r == point_along(from, to, t as int, d as int),
{
    Coords { x: along(from.x, to.x, t, d), y: along(from.y, to.y, t, d) }
}

/// One tick of one forager; the fitness function is sampled only while the
/// forager gathers.
fn step_bee<F: Fn(Coords) -> u64>(b: Bee, hive: Coords, fitness: &F, speed: u64, rate: u64) -> (r:
    Option<Bee>)
    requires
        is_fitness_function(*fitness),
    ensures
        r == bee_after(b, hive, fitness_at(*fitness, b.assignment), speed, rate),
{
    match b.activity {
        Activity::Seeking => {
            let d = distance_between(hive, b.assignment);
            let near = distance_between(b.location, b.assignment);
            if near <= speed || b.travelled >= d || d - b.travelled <= speed {
                Some(
                    Bee {
                        id: b.id,
                        location: b.assignment,
                        assignment: b.assignment,
                        activity: Activity::Gathering(0),
                        travelled: 0,
                    },
                )
            } else {
                let t = b.travelled + speed;
                Some(
                    Bee {
                        id: b.id,
                        location: locate(hive, b.assignment, t, d),
                        assignment: b.assignment,
                        activity: b.activity,
                        travelled: t,
                    },
                )
            }
        },
        Activity::Gathering(acc) => {
            let v = fitness(b.assignment);
            if acc >= v || v - acc <= rate {
                Some(
                    Bee {
                        id: b.id,
                        location: b.location,
                        assignment: b.assignment,
                        activity: Activity::Returning(v),
                        travelled: 0,
                    },
                )
            } else {
                Some(
                    Bee {
                        id: b.id,
                        location: b.location,
                        assignment: b.assignment,
                        activity: Activity::Gathering(acc + rate),
                        travelled: b.travelled,
                    },
                )
            }
        },
        Activity::Returning(_) => {
            let d = distance_between(b.assignment, hive);
            let near = distance_between(b.location, hive);
            if near <= speed || b.travelled >= d || d - b.travelled <= speed {
                None
            } else {
                let t = b.travelled + speed;
                Some(
                    Bee {
                        id: b.id,
                        location: locate(b.assignment, hive, t, d),
                        assignment: b.assignment,
                        activity: b.activity,
                        travelled: t,
                    },
                )
            }
        },
    }
}

/// What a forager hands in during its next tick, computed before the tick.
fn delivery_of(b: &Bee, hive: Coords, speed: u64) -> (r: Option<u64>)
    ensures
        r == delivery(*b, hive, speed),
{
    match b.activity {
        Activity::Returning(result) => {
            let d = distance_between(b.assignment, hive);
            let near = distance_between(b.location, hive);
            if near <= speed || b.travelled >= d || d - b.travelled <= speed {
                Some(result)
            } else {
                None
            }
        },
        _ => None,
    }
}

impl Field {
    pub fn new(min: Coords, max: Coords) -> (r: Field)
        ensures
            r == (Field { min, max }),
    {
        Field { min, max }
    }
}

} // verus!

verus! {

impl<F: Fn(Coords) -> u64> State<F> {
    /// A state with `threads` empty forager slots and the hive at a random
    /// point of the domain.
    pub fn new(min: Coords, max: Coords, threads: usize, fitness: F) -> (r: State<F>)
        requires
            min.x <= max.x,
            min.y <= max.y,
        ensures
            r.fitness == fitness,
            r.field == (Field { min, max }),
            r.best is None,
            r.bees@.len() == threads,
            forall|i: int| 0 <= i < threads ==> #[trigger] r.bees@[i] is None,
            min.x <= r.hive_location.x <= max.x,
            min.y <= r.hive_location.y <= max.y,
    {
        let field = Field::new(min, max);
        let hive_coords = Coords::random(&field.min, &field.max);
        let mut bees: Vec<Option<Bee>> = Vec::new();
        let mut i: usize = 0;
        while i < threads
            invariant
                i <= threads,
                bees@.len() == i,
                forall|j: int| 0 <= j < i ==> #[trigger] bees@[j] is None,
            decreases threads - i,
        {
            bees.push(None);
            i = i + 1;
        }
        State { fitness, field, hive_location: hive_coords, bees, best: None }
    }

    /// The corners of the sampling domain.
    pub fn corners(&self) -> (r: (Coords, Coords))
        ensures
            r == (self.field.min, self.field.max),
    {
        (self.field.min, self.field.max)
    }

    /// Places a new forager for task `id` at the hive, in the first free
    /// slot, and returns that slot.
    pub fn add_bee(&mut self, id: usize, coords: Coords) -> (r: Result<usize, SlotError>)
        ensures
            match r {
                Ok(i) => {
                    &&& !holds_identity(old(self).bees@, id)
                    &&& first_free(old(self).bees@, i as int)
                    &&& final(self).bees@ == old(self).bees@.update(
                        i as int,
                        Some(fresh_bee(id, old(self).hive_location, coords)),
                    )
                },
                Err(SlotError::DuplicateIdentity) => holds_identity(old(self).bees@, id),
                Err(SlotError::NoFreeSlot) => {
                    &&& !holds_identity(old(self).bees@, id)
                    &&& forall|j: int| 0 <= j < old(self).bees@.len() ==> #[trigger] old(self).bees@[j] is Some
                },
            },
            r is Err ==> final(self).bees@ == old(self).bees@,
            placement(old(self).bees@, id, old(self).hive_location, coords) == match r {
                Ok(_) => Ok::<Seq<Option<Bee>>, SlotError>(final(self).bees@),
                Err(e) => Err(e),
            },
            final(self).fitness == old(self).fitness,
            final(self).hive_location == old(self).hive_location,
            final(self).best == old(self).best,
            final(self).field == old(self).field,
            identities_unique(old(self).bees@) ==> identities_unique(final(self).bees@),
    {
        let mut free: Option<usize> = None;
        let mut i: usize = 0;
        while i < self.bees.len()
            invariant
                i <= self.bees@.len(),
                *self == *old(self),
                forall|j: int| 0 <= j < i ==> (#[trigger] self.bees@[j] matches Some(b) ==> b.id != id),
                match free {
                    None => forall|j: int| 0 <= j < i ==> #[trigger] self.bees@[j] is Some,
                    Some(k) => k < i && first_free(self.bees@, k as int),
                },
            decreases self.bees@.len() - i,
        {
            match &self.bees[i] {
                Some(b) => {
                    if b.id == id {
                        proof {
                            let k = i as int;
                            assert(self.bees@[k] is Some && self.bees@[k]->Some_0.id == id);
                        }
                        return Err(SlotError::DuplicateIdentity);
                    }
                },
                None => {
                    if free.is_none() {
                        free = Some(i);
                    }
                },
            }
            i = i + 1;
        }
        proof {
            assert(!holds_identity(old(self).bees@, id));
        }
        match free {
            None => {
                proof {
                    assert forall|k: int| !first_free(old(self).bees@, k) by {
                        if first_free(old(self).bees@, k) {
                            assert(old(self).bees@[k] is Some);
                        }
                    }
                }
                Err(SlotError::NoFreeSlot)
            },
            Some(k) => {
                let hive = self.hive_location;
                self.bees.set(
                    k,
                    Some(
                        Bee {
                            id,
                            location: hive,
                            assignment: coords,
                            activity: Activity::Seeking,
                            travelled: 0,
                        },
                    ),
                );
                proof {
                    let bees = old(self).bees@;
                    let c = choose|c: int| first_free(bees, c);
                    lemma_first_free_unique(bees, c, k as int);
                    if identities_unique(bees) {
                        let after = self.bees@;
                        assert forall|a: int, b: int|
                            0 <= a < after.len() && 0 <= b < after.len() && a != b
                                && #[trigger] after[a] is Some && #[trigger] after[b] is Some implies after[a]->Some_0.id
                            != after[b]->Some_0.id by {
                            if a == k {
                                assert(bees[b] is Some);
                            } else if b == k {
                                assert(bees[a] is Some);
                            }
                        }
                    }
                }
                Ok(k)
            },
        }
    }

    /// One tick of the simulation: places the task that arrived, if any,
    /// records the newest best result, if any, and advances every live
    /// forager once. Returns the `(identity, result)` pairs of the foragers
    /// that reached the hive, in slot order; their slots are free again.
    /// When the task cannot be placed, nothing changes.
    pub fn advance(
        &mut self,
        arrival: Option<NewBee>,
        best: Option<(Coords, u64)>,
        speed: u64,
        rate: u64,
    ) -> (r: Result<Vec<(usize, u64)>, SlotError>)
        requires
            is_fitness_function(old(self).fitness),
        ensures
            match arrival_placed(old(self).bees@, arrival, old(self).hive_location) {
                Err(e) => {
                    &&& r is Err && r->Err_0 == e
                    &&& final(self).bees@ == old(self).bees@
                    &&& final(self).best == old(self).best
                },
                Ok(placed) => {
                    &&& r is Ok
                    &&& r->Ok_0@ == deliveries(placed, old(self).hive_location, speed)
                    &&& final(self).bees@ == slots_after(
                        placed,
                        old(self).hive_location,
                        old(self).fitness,
                        speed,
                        rate,
                    )
                    &&& final(self).best == match best {
                        Some(b) => Some(b),
                        None => old(self).best,
                    }
                },
            },
            final(self).fitness == old(self).fitness,
            final(self).hive_location == old(self).hive_location,
            final(self).field == old(self).field,
            identities_unique(old(self).bees@) ==> identities_unique(final(self).bees@),
    {
        if let Some(task) = arrival {
            match self.add_bee(task.id, task.coords) {
                Ok(_) => {},
                Err(e) => {
                    return Err(e);
                },
            }
        }
        if let Some(b) = best {
            self.best = Some(b);
        }
        let ghost placed = self.bees@;
        let hive = self.hive_location;
        let mut delivered: Vec<(usize, u64)> = Vec::new();
        let mut i: usize = 0;
        while i < self.bees.len()
            invariant
                i <= self.bees@.len(),
                self.bees@.len() == placed.len(),
                self.fitness == old(self).fitness,
                self.hive_location == hive,
                hive == old(self).hive_location,
                self.field == old(self).field,
                self.best == match best {
                    Some(b) => Some(b),
                    None => old(self).best,
                },
                is_fitness_function(self.fitness),
                forall|j: int|
                    0 <= j < i ==> #[trigger] self.bees@[j] == slots_after(
                        placed,
                        hive,
                        self.fitness,
                        speed,
                        rate,
                    )[j],
                forall|j: int| i <= j < placed.len() ==> #[trigger] self.bees@[j] == placed[j],
                delivered@ == deliveries(placed.subrange(0, i as int), hive, speed),
            decreases self.bees@.len() - i,
        {
            let slot = self.bees[i];
            match slot {
                Some(b) => {
                    if let Some(result) = delivery_of(&b, hive, speed) {
                        delivered.push((b.id, result));
                    }
                    let next = step_bee(b, hive, &self.fitness, speed, rate);
                    self.bees.set(i, next);
                },
                None => {},
            }
            proof {
                assert(placed.subrange(0, i + 1).drop_last() =~= placed.subrange(0, i as int));
            }
            i = i + 1;
        }
        proof {
            assert(placed.subrange(0, placed.len() as int) =~= placed);
            assert(self.bees@ =~= slots_after(placed, hive, self.fitness, speed, rate));
            if identities_unique(old(self).bees@) {
                lemma_slots_after_unique(placed, hive, self.fitness, speed, rate);
            }
        }
        Ok(delivered)
    }
}

} // verus!
