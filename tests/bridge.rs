use bees::context::{announced, answered, BridgeError, Ctx, Identities, NewBee, EXPLORE_REACH};
use bees::coords::Coords;
use bees::spmc::Queue;
use std::sync::mpsc::channel;
use std::sync::Arc;

fn at(x: i32, y: i32) -> Coords {
    Coords { x, y }
}

#[test]
fn identities_increase_without_gaps() {
    let mut ids = Identities::new();
    let issued: Vec<Option<usize>> = (0..5).map(|_| ids.issue()).collect();
    assert_eq!(issued, vec![Some(1), Some(2), Some(3), Some(4), Some(5)]);
    let mut last = Identities { last: usize::MAX - 1 };
    assert_eq!(last.issue(), Some(usize::MAX));
    assert_eq!(last.issue(), None);
    assert_eq!(last.last, usize::MAX);
}

#[test]
fn explore_by_moves_and_clamps() {
    let (send, _receive) = channel::<NewBee>();
    let ctx = Ctx::new(Arc::new(Queue::new()), send, at(-256, -256), at(256, 256));
    assert_eq!(ctx.explore_by(at(10, -10), 20, -20), at(30, -30));
    assert_eq!(ctx.explore_by(at(250, -250), 20, -20), at(256, -256));
    assert_eq!(ctx.explore_by(at(i32::MAX, i32::MIN), 20, -20), at(256, -256));
}

#[test]
fn explore_and_make_stay_in_domain() {
    let (send, _receive) = channel::<NewBee>();
    let ctx = Ctx::new(Arc::new(Queue::new()), send, at(-5, -5), at(5, 5));
    let field = vec![at(0, 0), at(5, -5)];
    for _ in 0..100 {
        let c = ctx.explore(&field, 1);
        assert!(5 - EXPLORE_REACH <= c.x && c.x <= 5 && -5 <= c.y && c.y <= -5 + EXPLORE_REACH);
        assert!(-5 <= c.y && c.y <= 5 && -5 <= c.x);
        let m = ctx.make();
        assert!(-5 <= m.x && m.x <= 5 && -5 <= m.y && m.y <= 5);
    }
}

#[test]
fn evaluate_fitness_fails_when_stepper_is_gone() {
    let (send, receive) = channel::<NewBee>();
    drop(receive);
    let ctx = Ctx::new(Arc::new(Queue::new()), send, at(0, 0), at(1, 1));
    assert_eq!(ctx.evaluate_fitness(&at(1, 1)), Err(BridgeError::EventsClosed));
}

#[test]
fn new_bee_carries_identity_and_candidate() {
    assert_eq!(NewBee::new(3, at(4, -5)), NewBee { id: 3, coords: at(4, -5) });
}

#[test]
fn evaluate_fitness_announces_then_waits() {
    let (send, receive) = channel::<NewBee>();
    let mover = Arc::new(Queue::new());
    mover.send(1, 4321);
    let ctx = Ctx::new(mover.clone(), send, at(-256, -256), at(256, 256));
    assert_eq!(ctx.evaluate_fitness(&at(7, 8)), Ok(4321));
    assert_eq!(receive.try_recv(), Ok(NewBee { id: 1, coords: at(7, 8) }));
    mover.send(2, 99);
    assert_eq!(ctx.evaluate_fitness(&at(-1, 0)), Ok(99));
    assert_eq!(receive.try_recv(), Ok(NewBee { id: 2, coords: at(-1, 0) }));
}

#[test]
fn task_for_issues_the_next_identity() {
    let mut ids = Identities::new();
    assert_eq!(ids.task_for(at(1, 2)), Ok(NewBee { id: 1, coords: at(1, 2) }));
    assert_eq!(ids.task_for(at(3, 4)), Ok(NewBee { id: 2, coords: at(3, 4) }));
    let mut spent = Identities { last: usize::MAX };
    assert_eq!(spent.task_for(at(0, 0)), Err(BridgeError::IdentitiesExhausted));
    assert_eq!(spent.last, usize::MAX);
}

#[test]
fn announcement_and_answer_outcomes() {
    assert_eq!(announced(true), Ok(()));
    assert_eq!(announced(false), Err(BridgeError::EventsClosed));
    assert_eq!(answered(Some(12000)), Ok(12000));
    assert_eq!(answered(None), Err(BridgeError::LockPoisoned));
}
