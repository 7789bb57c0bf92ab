use poll_engine::wake::{Status, WakeRegistry, WakeToken};

#[test]
fn new_registry_is_empty() {
    let mut r = WakeRegistry::new();
    assert_eq!(r.len(), 0);
    assert_eq!(r.queued(), 0);
    assert_eq!(r.capacity(), 0);
    assert_eq!(r.next(), None);
}

#[test]
fn token_goes_from_idle_to_armed_to_queued_and_back() {
    let mut r = WakeRegistry::new();
    let t = r.allocate();
    assert_eq!(t, WakeToken { index: 0, generation: 0 });
    assert_eq!(r.status(t), Some(Status::Idle));
    assert!(r.register(t));
    assert_eq!(r.status(t), Some(Status::Armed));
    assert!(r.fire(t));
    assert_eq!(r.status(t), Some(Status::Queued));
    assert_eq!(r.queued(), 1);
    assert_eq!(r.next(), Some(t));
    assert_eq!(r.status(t), Some(Status::Idle));
    assert_eq!(r.queued(), 0);
}

#[test]
fn firing_an_unregistered_token_does_nothing() {
    let mut r = WakeRegistry::new();
    let t = r.allocate();
    // Not registered yet.
    assert!(!r.fire(t));
    assert_eq!(r.status(t), Some(Status::Idle));
    assert_eq!(r.queued(), 0);
    // Registered and fired: delivered once.
    assert!(r.register(t));
    assert!(r.fire(t));
    // Fired already: no second delivery.
    assert!(!r.fire(t));
    assert_eq!(r.queued(), 1);
    assert_eq!(r.next(), Some(t));
    assert_eq!(r.next(), None);
}

#[test]
fn registering_twice_changes_nothing() {
    let mut r = WakeRegistry::new();
    let t = r.allocate();
    assert!(r.register(t));
    assert!(!r.register(t));
    assert_eq!(r.status(t), Some(Status::Armed));
    assert!(r.fire(t));
    assert!(!r.register(t));
    assert_eq!(r.status(t), Some(Status::Queued));
}

#[test]
fn queue_is_first_in_first_out() {
    let mut r = WakeRegistry::new();
    let a = r.allocate();
    let b = r.allocate();
    let c = r.allocate();
    for t in [a, b, c] {
        assert!(r.register(t));
    }
    assert!(r.fire(b));
    assert!(r.fire(c));
    assert!(r.fire(a));
    assert_eq!(r.next(), Some(b));
    assert_eq!(r.next(), Some(c));
    assert_eq!(r.next(), Some(a));
    assert_eq!(r.next(), None);
}

#[test]
fn released_token_is_dead_and_its_slot_comes_back_under_a_new_generation() {
    let mut r = WakeRegistry::new();
    let a = r.allocate();
    let b = r.allocate();
    assert!(r.register(a));
    assert!(r.fire(a));
    assert!(r.release(a));
    assert_eq!(r.status(a), None);
    assert_eq!(r.queued(), 0);
    assert_eq!(r.len(), 1);
    // Every operation on the dead token is a no-op.
    assert!(!r.release(a));
    assert!(!r.register(a));
    assert!(!r.fire(a));
    let c = r.allocate();
    assert_eq!(c, WakeToken { index: 0, generation: 1 });
    assert_eq!(r.capacity(), 2);
    assert_eq!(r.status(c), Some(Status::Idle));
    assert_eq!(r.status(a), None);
    assert_eq!(r.status(b), Some(Status::Idle));
}

#[test]
fn release_takes_the_token_out_of_the_middle_of_the_queue() {
    let mut r = WakeRegistry::new();
    let a = r.allocate();
    let b = r.allocate();
    let c = r.allocate();
    for t in [a, b, c] {
        assert!(r.register(t));
        assert!(r.fire(t));
    }
    assert!(r.release(b));
    assert_eq!(r.queued(), 2);
    assert_eq!(r.next(), Some(a));
    assert_eq!(r.next(), Some(c));
    assert_eq!(r.next(), None);
}

#[test]
fn unknown_token_is_ignored() {
    let mut r = WakeRegistry::new();
    let ghost = WakeToken { index: 7, generation: 3 };
    assert_eq!(r.status(ghost), None);
    assert!(!r.register(ghost));
    assert!(!r.fire(ghost));
    assert!(!r.release(ghost));
    assert_eq!(r.len(), 0);
}
