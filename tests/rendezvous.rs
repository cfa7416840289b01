use bees::spmc::{Mailbox, Queue};

#[test]
fn mailbox_take_is_exactly_once() {
    let mut m: Mailbox<u64> = Mailbox::new();
    assert!(m.lacks(7));
    assert_eq!(m.take(7), None);
    m.post(7, 42);
    assert!(!m.lacks(7));
    assert_eq!(m.take(7), Some(42));
    assert_eq!(m.take(7), None);
}

#[test]
fn mailbox_identities_do_not_interfere() {
    let mut m: Mailbox<&str> = Mailbox::new();
    m.post(1, "a");
    m.post(2, "b");
    assert_eq!(m.take(2), Some("b"));
    assert!(!m.lacks(1));
    assert_eq!(m.take(1), Some("a"));
    assert!(m.lacks(1) && m.lacks(2));
}

#[test]
fn queue_delivers_posted_value() {
    let q = Queue::new();
    q.send(3, 12000);
    assert_eq!(q.wait_for(3), Some(12000));
}

#[test]
fn queue_non_interference() {
    let q = Queue::new();
    q.send(1, 10);
    q.send(2, 20);
    assert_eq!(q.wait_for(2), Some(20));
    assert_eq!(q.wait_for(1), Some(10));
    q.send(1, 30);
    assert_eq!(q.wait_for(1), Some(30));
}
