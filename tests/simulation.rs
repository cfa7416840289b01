use bees::context::NewBee;
use bees::coords::Coords;
use bees::logic::{latest_best, Logic, TickError, BEE_GATHER_RATE, BEE_SPEED};
use bees::spmc::Queue;
use bees::state::{Activity, Bee, Field, SlotError, State};
use std::sync::mpsc::channel;

fn at(x: i32, y: i32) -> Coords {
    Coords { x, y }
}

fn scenario_state<F: Fn(Coords) -> u64>(slots: usize, fitness: F) -> State<F> {
    let mut state = State::new(at(-256, -256), at(256, 256), slots, fitness);
    state.hive_location = at(0, 0);
    state
}

fn only_bee<F>(state: &State<F>) -> Bee {
    let live: Vec<Bee> = state.bees.iter().filter_map(|b| *b).collect();
    assert_eq!(live.len(), 1);
    live[0]
}

#[test]
fn concrete_trip_takes_29_20_29_ticks() {
    let mut state = scenario_state(4, |_c: Coords| 12000u64);
    let task = NewBee { id: 1, coords: at(100, 100) };
    let mut delivered = state.advance(Some(task), None, 5, 600).unwrap();
    assert!(delivered.is_empty());
    assert_eq!(only_bee(&state).location, at(4, 4));
    for _ in 2..=28 {
        delivered = state.advance(None, None, 5, 600).unwrap();
        assert!(delivered.is_empty());
        assert_eq!(only_bee(&state).activity, Activity::Seeking);
    }
    assert_eq!(only_bee(&state).location, at(99, 99));
    state.advance(None, None, 5, 600).unwrap();
    let bee = only_bee(&state);
    assert_eq!(bee.location, at(100, 100));
    assert_eq!(bee.activity, Activity::Gathering(0));
    for k in 1..=19u64 {
        assert!(state.advance(None, None, 5, 600).unwrap().is_empty());
        assert_eq!(only_bee(&state).activity, Activity::Gathering(600 * k));
    }
    state.advance(None, None, 5, 600).unwrap();
    assert_eq!(only_bee(&state).activity, Activity::Returning(12000));
    for _ in 1..=28 {
        assert!(state.advance(None, None, 5, 600).unwrap().is_empty());
        assert_eq!(only_bee(&state).activity, Activity::Returning(12000));
    }
    let delivered = state.advance(None, None, 5, 600).unwrap();
    assert_eq!(delivered, vec![(1usize, 12000u64)]);
    assert!(state.bees.iter().all(|b| b.is_none()));
}

#[test]
fn concrete_scenario_through_the_stepper() {
    let (send, receive) = channel::<NewBee>();
    let mover = Queue::new();
    let logic = Logic::new(receive, &mover);
    let mut state = scenario_state(4, |_c: Coords| 12000u64);
    assert_eq!(BEE_SPEED, 5);
    assert_eq!(BEE_GATHER_RATE, 600);
    send.send(NewBee { id: 1, coords: at(100, 100) }).unwrap();
    for _ in 0..77 {
        assert!(logic.tick(&mut state, None).unwrap().is_empty());
        assert!(state.bees.iter().any(|b| b.is_some()));
    }
    assert_eq!(logic.tick(&mut state, None).unwrap(), vec![(1usize, 12000u64)]);
    assert!(state.bees.iter().all(|b| b.is_none()));
    assert_eq!(mover.wait_for(1), Some(12000));
}

#[test]
fn trip_to_the_hive_itself_takes_three_ticks() {
    let mut state = scenario_state(1, |_c: Coords| 0u64);
    let task = NewBee { id: 4, coords: at(0, 0) };
    assert!(state.advance(Some(task), None, 5, 600).unwrap().is_empty());
    assert_eq!(only_bee(&state).activity, Activity::Gathering(0));
    assert!(state.advance(None, None, 5, 600).unwrap().is_empty());
    assert_eq!(only_bee(&state).activity, Activity::Returning(0));
    assert_eq!(state.advance(None, None, 5, 600).unwrap(), vec![(4usize, 0u64)]);
}

#[test]
fn result_is_the_fitness_at_the_assignment_whatever_the_pace() {
    for (speed, rate) in [(1u64, 1u64), (5, 600), (7, 333), (1000, 5000)] {
        let mut state = scenario_state(2, |c: Coords| (c.x as u64) * 100 + 7);
        let mut arrival = Some(NewBee { id: 11, coords: at(10, 3) });
        let mut ticks = 0;
        let result = loop {
            ticks += 1;
            let delivered = state.advance(arrival.take(), None, speed, rate).unwrap();
            if !delivered.is_empty() {
                break delivered;
            }
        };
        assert_eq!(result, vec![(11usize, 1007u64)]);
        let legs = if 10 <= speed { 1 } else { (10 + speed - 1) / speed };
        let gather = if 1007 <= rate { 1 } else { (1007 + rate - 1) / rate };
        assert_eq!(ticks, 2 * legs + gather);
    }
}

#[test]
fn best_is_last_write_wins() {
    let mut state = scenario_state(1, |_c: Coords| 1u64);
    assert_eq!(state.best, None);
    state.advance(None, Some((at(1, 2), 30)), 5, 600).unwrap();
    assert_eq!(state.best, Some((at(1, 2), 30)));
    state.advance(None, None, 5, 600).unwrap();
    assert_eq!(state.best, Some((at(1, 2), 30)));
    state.advance(None, Some((at(-4, 0), 10)), 5, 600).unwrap();
    assert_eq!(state.best, Some((at(-4, 0), 10)));
}

#[test]
fn add_bee_uses_first_free_slot() {
    let mut state = scenario_state(3, |_c: Coords| 1u64);
    assert_eq!(state.add_bee(1, at(5, 5)), Ok(0));
    assert_eq!(state.add_bee(2, at(6, 6)), Ok(1));
    state.bees[0] = None;
    assert_eq!(state.add_bee(3, at(7, 7)), Ok(0));
    let bee = state.bees[0].unwrap();
    assert_eq!(bee, Bee { id: 3, location: at(0, 0), assignment: at(7, 7), activity: Activity::Seeking, travelled: 0 });
}

#[test]
fn add_bee_errors() {
    let mut state = scenario_state(2, |_c: Coords| 1u64);
    assert_eq!(state.add_bee(1, at(5, 5)), Ok(0));
    assert_eq!(state.add_bee(1, at(6, 6)), Err(SlotError::DuplicateIdentity));
    assert_eq!(state.add_bee(2, at(6, 6)), Ok(1));
    assert_eq!(state.add_bee(3, at(7, 7)), Err(SlotError::NoFreeSlot));
    assert_eq!(state.advance(Some(NewBee { id: 3, coords: at(1, 1) }), None, 5, 600), Err(SlotError::NoFreeSlot));
}

#[test]
fn tick_reports_closed_channel_and_full_slots() {
    let mover = Queue::new();
    let (send, receive) = channel::<NewBee>();
    let logic = Logic::new(receive, &mover);
    let mut state = scenario_state(1, |_c: Coords| 100000u64);
    send.send(NewBee { id: 1, coords: at(50, 0) }).unwrap();
    send.send(NewBee { id: 2, coords: at(60, 0) }).unwrap();
    logic.tick(&mut state, None).unwrap();
    assert_eq!(logic.tick(&mut state, None), Err(TickError::Slot(SlotError::NoFreeSlot)));
    drop(send);
    assert_eq!(logic.tick(&mut state, None), Err(TickError::EventsClosed));
}

#[test]
fn state_new_and_corners() {
    let state = State::new(at(-10, 0), at(10, 5), 6, |_c: Coords| 1u64);
    assert_eq!(state.bees.len(), 6);
    assert!(state.bees.iter().all(|b| b.is_none()));
    assert_eq!(state.corners(), (at(-10, 0), at(10, 5)));
    assert_eq!(state.field, Field::new(at(-10, 0), at(10, 5)));
    let hive = state.hive_location;
    assert!(-10 <= hive.x && hive.x <= 10 && 0 <= hive.y && hive.y <= 5);
}

#[test]
fn seeking_forager_within_speed_snaps_to_its_assignment() {
    let mut state = scenario_state(1, |_c: Coords| 600u64);
    state.bees[0] = Some(Bee {
        id: 8,
        location: at(97, 96),
        assignment: at(100, 100),
        activity: Activity::Seeking,
        travelled: 0,
    });
    assert!(state.advance(None, None, 5, 600).unwrap().is_empty());
    let bee = only_bee(&state);
    assert_eq!(bee.location, at(100, 100));
    assert_eq!(bee.activity, Activity::Gathering(0));
}

#[test]
fn returning_forager_within_speed_of_the_hive_delivers() {
    let mut state = scenario_state(1, |_c: Coords| 600u64);
    state.bees[0] = Some(Bee {
        id: 9,
        location: at(3, -4),
        assignment: at(100, 100),
        activity: Activity::Returning(600),
        travelled: 0,
    });
    assert_eq!(state.advance(None, None, 5, 600).unwrap(), vec![(9usize, 600u64)]);
    assert!(state.bees[0].is_none());
}

#[test]
fn latest_best_is_the_last_drained() {
    assert_eq!(latest_best(&vec![]), None);
    assert_eq!(latest_best(&vec![(at(1, 1), 5), (at(2, 2), 3)]), Some((at(2, 2), 3)));
}
