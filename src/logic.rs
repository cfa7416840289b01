//! The stepper: once per tick it takes at most one newly announced task,
//! advances every forager, and posts the results of those that came home.
use crate::context::{FitnessMover, NewBee};
use crate::coords::Coords;
use crate::state::{
    arrival_placed, deliveries, identities_unique, is_fitness_function, slots_after, Bee, SlotError, State,
};
use std::sync::mpsc::{Receiver, TryRecvError};
use vstd::prelude::*;

verus! {

/// `std::sync::mpsc::Receiver`, held opaque.
#[verifier::external_type_specification]
#[verifier::external_body]
#[verifier::reject_recursive_types(T)]
pub struct ExReceiver<T>(Receiver<T>);

/// Fitness a gathering forager collects per tick, in thousandths.
pub const BEE_GATHER_RATE: u64 = 600;

/// Distance a forager flies per tick.
pub const BEE_SPEED: u64 = 5;

/// What a look at the task channel found.
pub enum Received<T> {
    Item(T),
    Nothing,
    Closed,
}

/// Why a tick could not be completed. Each is fatal to the program.
#[derive(Clone, Copy, Debug, PartialEq, Eq, Structural)]
pub enum TickError {
    /// The task that arrived could not be given a forager.
    Slot(SlotError),
    /// Every sender of tasks is gone.
    EventsClosed,
}

/// Relies on `Receiver::try_recv`: the oldest task waiting, without blocking;
/// `Empty` when none waits, `Disconnected` when none is waiting and every
/// sender is gone.
#[verifier::external_body]
fn poll_events(events: &Receiver<NewBee>) -> Received<NewBee> {
    match events.try_recv() {
        Ok(task) => Received::Item(task),
        Err(TryRecvError::Empty) => Received::Nothing,
        Err(TryRecvError::Disconnected) => Received::Closed,
    }
}

/// The newest of the best results drained from the optimizer, in the order
/// they arrived: the last one, if any.
pub fn latest_best(drained: &Vec<(Coords, u64)>) -> (r: Option<(Coords, u64)>)
    ensures
        drained@.len() == 0 ==> r is None,
        drained@.len() > 0 ==> r == Some(drained@.last()),
{
    if drained.len() == 0 {
        None
    } else {
        Some(drained[drained.len() - 1])
    }
}

pub struct Logic<'a> {
    events: Receiver<NewBee>,
    mover: &'a FitnessMover,
}

impl<'a> Logic<'a> {
    pub fn new(events: Receiver<NewBee>, mover: &'a FitnessMover) -> Logic<'a> {
        Logic { events, mover }
    }

    /// One tick: takes at most one announced task and places a forager for
    /// it, records `best` (the newest best result, if any), advances every
    /// forager by `BEE_SPEED` or `BEE_GATHER_RATE`, and posts the result of
    /// each forager that reached the hive under its identity. Returns the
    /// `(identity, result)` pairs it posted, in the order it posted them.
    pub fn tick<F: Fn(Coords) -> u64>(&self, state: &mut State<F>, best: Option<(Coords, u64)>) -> (r:
        Result<Vec<(usize, u64)>, TickError>)
        requires
            is_fitness_function(old(state).fitness),
        ensures
            final(state).fitness == old(state).fitness,
            final(state).hive_location == old(state).hive_location,
            final(state).field == old(state).field,
            identities_unique(old(state).bees@) ==> identities_unique(final(state).bees@),
            match r {
                Ok(posted) => exists|arrival: Option<NewBee>|
                    #[trigger] arrival_placed(old(state).bees@, arrival, old(state).hive_location) matches Ok(
                        placed,
                    ) && posted@ == deliveries(placed, old(state).hive_location, BEE_SPEED)
                        && final(state).bees@ == slots_after(
                        placed,
                        old(state).hive_location,
                        old(state).fitness,
                        BEE_SPEED,
                        BEE_GATHER_RATE,
                    ) && final(state).best == match best {
                        Some(b) => Some(b),
                        None => old(state).best,
                    },
                Err(TickError::EventsClosed) => final(state).bees@ == old(state).bees@ && final(state).best
                    == old(state).best,
                Err(TickError::Slot(e)) => {
                    &&& exists|arrival: Option<NewBee>|
                        #[trigger] arrival_placed(old(state).bees@, arrival, old(state).hive_location)
                            == Err::<Seq<Option<Bee>>, SlotError>(e)
                    &&& final(state).bees@ == old(state).bees@
                    &&& final(state).best == old(state).best
                },
            },
    {
        let arrival = match poll_events(&self.events) {
            Received::Item(task) => Some(task),
            Received::Nothing => None,
            Received::Closed => {
                return Err(TickError::EventsClosed);
            },
        };
        let delivered = match state.advance(arrival, best, BEE_SPEED, BEE_GATHER_RATE) {
            Ok(delivered) => delivered,
            Err(e) => {
                return Err(TickError::Slot(e));
            },
        };
        let mut i: usize = 0;
        while i < delivered.len()
            invariant
                i <= delivered@.len(),
            decreases delivered@.len() - i,
        {
            let (id, result) = delivered[i];
            self.mover.send(id, result);
            i = i + 1;
        }
        Ok(delivered)
    }
}

} // verus!
