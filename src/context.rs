//! The bridge between the optimizer and the simulation: it issues an identity
//! for every evaluation request, announces the task to the stepper, and blocks
//! the requesting worker until the stepper posts the result.
use crate::coords::{clamped, Coords};
use crate::spmc::{acquire, guarded, new_lock, Queue};
use std::sync::mpsc::Sender;
use std::sync::{Arc, Mutex};
use vstd::prelude::*;

verus! {

/// `std::sync::mpsc::Sender`, held opaque.
#[verifier::external_type_specification]
#[verifier::external_body]
#[verifier::reject_recursive_types(T)]
pub struct ExSender<T>(Sender<T>);

/// A new evaluation task: the identity it was issued and the candidate to
/// evaluate.
#[derive(Clone, Copy, Debug, PartialEq, Eq, Structural)]
pub struct NewBee {
    pub id: usize,
    pub coords: Coords,
}

impl NewBee {
    /// The task of evaluating `coords` under identity `id`.
    pub fn new(id: usize, coords: Coords) -> (r: NewBee)
        ensures
            r == (NewBee { id, coords }),
    {
        NewBee { id, coords }
    }
}

/// The rendezvous on which fitness results (in thousandths) travel back to
/// the workers that asked for them.
pub type FitnessMover = Queue;

/// How far, on each axis, `explore` may move away from a candidate.
pub const EXPLORE_REACH: i32 = 20;

/// The source of identities: the last one issued, zero before the first.
#[derive(Clone, Copy, Debug, PartialEq, Eq, Structural)]
pub struct Identities {
    pub last: usize,
}

/// What issuing an identity from the counter `last` returns, and the counter
/// afterwards.
pub open spec fn next_issue(last: usize) -> (Option<usize>, usize) {
    if last < usize::MAX {
        (Some((last + 1) as usize), (last + 1) as usize)
    } else {
        (None, last)
    }
}

/// The identities returned by `n` issues in a row from the counter `last`.
pub open spec fn issued_run(last: usize, n: nat) -> Seq<Option<usize>>
    decreases n,
{
    if n == 0 {
        Seq::empty()
    } else {
        let (first, rest) = next_issue(last);
        seq![first] + issued_run(rest, (n - 1) as nat)
    }
}

impl Identities {
    pub fn new() -> (r: Identities)
        ensures
            r.last == 0,
    {
        Identities { last: 0 }
    }

    /// The next identity, one above the last; `None` once the counter is
    /// exhausted, so that no identity is ever issued twice.
    pub fn issue(&mut self) -> (r: Option<usize>)
        ensures
            (r, final(self).last) == next_issue(old(self).last),
    {
        if self.last < usize::MAX {
            self.last = self.last + 1;
            Some(self.last)
        } else {
            None
        }
    }

    /// The task for evaluating `solution` under the next identity; fails,
    /// issuing nothing, once the identities are exhausted.
    pub fn task_for(&mut self, solution: Coords) -> (r: Result<NewBee, BridgeError>)
        ensures
            match next_issue(old(self).last) {
                (Some(id), last) => r == Ok::<NewBee, BridgeError>(NewBee { id, coords: solution })
                    && final(self).last == last,
                (None, _) => r == Err::<NewBee, BridgeError>(BridgeError::IdentitiesExhausted) && *final(self)
                    == *old(self),
            },
    {
        match self.issue() {
            Some(id) => Ok(NewBee::new(id, solution)),
            None => Err(BridgeError::IdentitiesExhausted),
        }
    }
}

/// Issues in a row from one counter give `last + 1, last + 2, ...`: a strictly
/// increasing run with no duplicates and no gaps, for as long as the counter
/// lasts.
pub proof fn lemma_issuance_monotonic(last: usize, n: nat)
    requires
        last + n <= usize::MAX,
    ensures
        issued_run(last, n).len() == n,
        forall|k: int| 0 <= k < n ==> #[trigger] issued_run(last, n)[k] == Some((last + k + 1) as usize),
        forall|j: int, k: int|
            0 <= j < k < n ==> (#[trigger] issued_run(last, n)[j])->Some_0 < (#[trigger] issued_run(
                last,
                n,
            )[k])->Some_0,
    decreases n,
{
    if n > 0 {
        let rest = (last + 1) as usize;
        lemma_issuance_monotonic(rest, (n - 1) as nat);
        let run = issued_run(last, n);
        assert(run == seq![Some(rest)] + issued_run(rest, (n - 1) as nat));
        assert forall|k: int| 0 <= k < n implies #[trigger] run[k] == Some((last + k + 1) as usize) by {
            if k > 0 {
                assert(run[k] == issued_run(rest, (n - 1) as nat)[k - 1]);
            }
        }
    }
}

/// Why an evaluation produced no fitness. Each is fatal to the program.
#[derive(Clone, Copy, Debug, PartialEq, Eq, Structural)]
pub enum BridgeError {
    /// Every identity has been issued.
    IdentitiesExhausted,
    /// The stepper's end of the task channel is gone.
    EventsClosed,
    /// The lock of the rendezvous was poisoned by a thread that panicked
    /// while holding it, and the wait ended without a result.
    LockPoisoned,
}

/// `c` moved by `(dx, dy)` and held inside the domain from `min` to `max`.
pub open spec fn nudged(c: Coords, dx: int, dy: int, min: Coords, max: Coords) -> Coords {
    Coords {
        x: clamped(c.x + dx, min.x as int, max.x as int) as i32,
        y: clamped(c.y + dy, min.y as int, max.y as int) as i32,
    }
}

/// Relies on `Sender::send`: hands `task` to the receiving end, and fails only
/// when that end has been dropped.
#[verifier::external_body]
fn announce(events: &Sender<NewBee>, task: NewBee) -> bool {
    events.send(task).is_ok()
}

/// The optimizer's view of the world: random candidates, neighbours of
/// candidates, and fitness evaluations that block for a forager's whole trip.
pub struct Ctx {
    id: Mutex<Identities>,
    new_bees: Mutex<Sender<NewBee>>,
    fitness_mover: Arc<FitnessMover>,
    min: Coords,
    max: Coords,
}

impl Ctx {
    #[verifier::type_invariant]
    spec fn domain_ordered(self) -> bool {
        self.min.x <= self.max.x && self.min.y <= self.max.y
    }

    /// The corners of the sampling domain.
    pub closed spec fn domain(self) -> (Coords, Coords) {
        (self.min, self.max)
    }

    pub fn new(mover: Arc<FitnessMover>, new_bees: Sender<NewBee>, min: Coords, max: Coords) -> (r: Ctx)
        requires
            min.x <= max.x,
            min.y <= max.y,
        ensures
            r.domain() == (min, max),
    {
        Ctx {
            id: new_lock(Identities::new()),
            new_bees: new_lock(new_bees),
            fitness_mover: mover,
            min,
            max,
        }
    }

    /// A random candidate anywhere in the domain.
    pub fn make(&self) -> (r: Coords)
        ensures
            self.domain().0.x <= r.x <= self.domain().1.x,
            self.domain().0.y <= r.y <= self.domain().1.y,
    {
        proof {
            use_type_invariant(self);
        }
        Coords::random(&self.min, &self.max)
    }

    /// The candidate `around` moved by `(dx, dy)` and held inside the domain.
    pub fn explore_by(&self, around: Coords, dx: i32, dy: i32) -> (r: Coords)
        ensures
            r == nudged(around, dx as int, dy as int, self.domain().0, self.domain().1),
    {
        proof {
            use_type_invariant(self);
        }
        Coords {
            x: clamp_wide(around.x as i64 + dx as i64, self.min.x, self.max.x),
            y: clamp_wide(around.y as i64 + dy as i64, self.min.y, self.max.y),
        }
    }

    /// A random neighbour of candidate `n`: moved by at most `EXPLORE_REACH`
    /// on each axis and held inside the domain.
    pub fn explore(&self, field: &[Coords], n: usize) -> (r: Coords)
        requires
            n < field@.len(),
        ensures
            exists|dx: int, dy: int|
                -EXPLORE_REACH <= dx <= EXPLORE_REACH && -EXPLORE_REACH <= dy <= EXPLORE_REACH && r
                    == nudged(field@[n as int], dx, dy, self.domain().0, self.domain().1),
    {
        let dx = Coords::random_coord(-EXPLORE_REACH, EXPLORE_REACH);
        let dy = Coords::random_coord(-EXPLORE_REACH, EXPLORE_REACH);
        self.explore_by(field[n], dx, dy)
    }

    /// Takes the task for `solution` under the next identity
    /// (`Identities::task_for`), announces it to the stepper, and blocks until
    /// the stepper posts the fitness (in thousandths) under that identity,
    /// which it returns. What each outcome of the announcement and of the
    /// wait becomes is stated by `announced` and `answered`.
    pub fn evaluate_fitness(&self, solution: &Coords) -> Result<u64, BridgeError> {
        let task = {
            let mut guard = acquire(&self.id);
            guarded(&mut guard).task_for(*solution)
        };
        let task = match task {
            Ok(task) => task,
            Err(e) => {
                return Err(e);
            },
        };
        let sent = {
            let mut guard = acquire(&self.new_bees);
            announce(guarded(&mut guard), task)
        };
        match announced(sent) {
            Ok(()) => {},
            Err(e) => {
                return Err(e);
            },
        }
        answered(self.fitness_mover.wait_for(task.id))
    }
}

/// What the announcement of a task decides: go on to wait when the stepper
/// received it, fail with `EventsClosed` (and wait for nothing) when its end
/// of the channel is gone.
pub fn announced(sent: bool) -> (r: Result<(), BridgeError>)
    ensures
        r == if sent {
            Ok::<(), BridgeError>(())
        } else {
            Err(BridgeError::EventsClosed)
        },
{
    if sent {
        Ok(())
    } else {
        Err(BridgeError::EventsClosed)
    }
}

/// What the end of the wait gives: the posted fitness, or `LockPoisoned` when
/// the wait ended without one.
pub fn answered(reply: Option<u64>) -> (r: Result<u64, BridgeError>)
    ensures
        r == match reply {
            Some(v) => Ok::<u64, BridgeError>(v),
            None => Err(BridgeError::LockPoisoned),
        },
{
    match reply {
        Some(v) => Ok(v),
        None => Err(BridgeError::LockPoisoned),
    }
}

/// `v` held between `lo` and `hi`.
fn clamp_wide(v: i64, lo: i32, hi: i32) -> (r: i32)
    requires
        lo <= hi,
    ensures
        r == clamped(v as int, lo as int, hi as int),
{
    if v > hi as i64 {
        hi
    } else if v < lo as i64 {
        lo
    } else {
        v as i32
    }
}

} // verus!
