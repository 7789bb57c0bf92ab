use poll_engine::poll::{Context, Poll, Unit};
use poll_engine::task_set::TaskSet;
use poll_engine::wake::{Status, WakeToken};

/// A unit that answers `Ready(value)` at its `polls`-th poll and fires its
/// own handle at every poll before that.
struct Countdown {
    polls: u32,
    value: u32,
}

impl Unit for Countdown {
    type Output = u32;

    fn poll(&mut self, cx: &mut Context) -> Poll<u32> {
        if self.polls <= 1 {
            Poll::Ready(self.value)
        } else {
            self.polls -= 1;
            cx.wake();
            Poll::Pending
        }
    }
}

/// A unit that answers `Pending` until it is told to finish, and never fires
/// its own handle.
struct Gate {
    open: bool,
    value: u32,
    polled: u32,
}

impl Unit for Gate {
    type Output = u32;

    fn poll(&mut self, _cx: &mut Context) -> Poll<u32> {
        self.polled += 1;
        if self.open {
            Poll::Ready(self.value)
        } else {
            Poll::Pending
        }
    }
}

fn driver() -> Context {
    Context::new(WakeToken { index: 99, generation: 0 })
}

#[test]
fn completion_order_follows_readiness() {
    let mut set = TaskSet::new();
    let t1 = set.insert(Countdown { polls: 3, value: 1 });
    let t2 = set.insert(Countdown { polls: 1, value: 2 });
    let t3 = set.insert(Countdown { polls: 2, value: 3 });
    let mut order = Vec::new();
    let mut rounds = 0;
    loop {
        let mut cx = driver();
        match set.poll_next(&mut cx) {
            Poll::Ready(Some((t, v))) => order.push((t, v)),
            Poll::Ready(None) => break,
            Poll::Pending => assert!(cx.was_woken()),
        }
        rounds += 1;
        assert!(rounds < 20);
    }
    assert_eq!(order, vec![(t2, 2), (t3, 3), (t1, 1)]);
    assert_eq!(set.len(), 0);
}

/// Remembers the handle it is polled with.
struct Witness {
    seen: Option<WakeToken>,
    woken_at_entry: bool,
}

impl Unit for Witness {
    type Output = u32;

    fn poll(&mut self, cx: &mut Context) -> Poll<u32> {
        self.seen = Some(cx.token());
        self.woken_at_entry = cx.was_woken();
        Poll::Pending
    }
}

#[test]
fn unit_is_polled_with_its_own_handle() {
    let mut set = TaskSet::new();
    let a = set.insert(Witness { seen: None, woken_at_entry: true });
    let b = set.insert(Witness { seen: None, woken_at_entry: true });
    let mut cx = driver();
    cx.wake();
    assert!(matches!(set.poll_next(&mut cx), Poll::Pending));
    let first = set.remove(a).unwrap();
    let second = set.remove(b).unwrap();
    assert_eq!(first.seen, Some(a));
    assert_eq!(second.seen, Some(b));
    assert!(!first.woken_at_entry && !second.woken_at_entry);
}

#[test]
fn empty_set_is_finished() {
    let mut set: TaskSet<Countdown> = TaskSet::new();
    let mut cx = driver();
    assert!(matches!(set.poll_next(&mut cx), Poll::Ready(None)));
    assert!(!cx.was_woken());
    assert!(set.is_empty());
}

#[test]
fn pending_unit_waits_for_its_wake() {
    let mut set = TaskSet::new();
    let t = set.insert(Gate { open: false, value: 5, polled: 0 });
    assert_eq!(set.status(t), Some(Status::Queued));
    let mut cx = driver();
    assert!(matches!(set.poll_next(&mut cx), Poll::Pending));
    assert!(!cx.was_woken());
    assert_eq!(set.status(t), Some(Status::Armed));
    assert_eq!(set.ready_len(), 0);
    // Without a wake the unit is not polled again.
    let mut cx = driver();
    assert!(matches!(set.poll_next(&mut cx), Poll::Pending));
    let gate = set.remove(t).unwrap();
    assert_eq!(gate.polled, 1);
}

#[test]
fn wake_is_delivered_once_and_notifies_the_driver() {
    let mut set = TaskSet::new();
    let t = set.insert(Gate { open: false, value: 5, polled: 0 });
    let mut cx = driver();
    assert!(matches!(set.poll_next(&mut cx), Poll::Pending));
    // The first wake queues the unit and hands back the driver's handle.
    assert_eq!(set.wake(t), Some(WakeToken { index: 99, generation: 0 }));
    assert_eq!(set.status(t), Some(Status::Queued));
    assert_eq!(set.ready_len(), 1);
    // A second wake finds the unit queued already: nothing happens.
    assert_eq!(set.wake(t), None);
    assert_eq!(set.ready_len(), 1);
    let mut cx = driver();
    assert!(matches!(set.poll_next(&mut cx), Poll::Pending));
    let gate = set.remove(t).unwrap();
    assert_eq!(gate.polled, 2);
}

#[test]
fn stale_handle_is_ignored() {
    let mut set = TaskSet::new();
    let t = set.insert(Countdown { polls: 1, value: 8 });
    let mut cx = driver();
    assert!(matches!(set.poll_next(&mut cx), Poll::Ready(Some((u, 8))) if u == t));
    assert!(!set.contains(t));
    // The slot is reused under a new generation; the old handle stays dead.
    let u = set.insert(Countdown { polls: 2, value: 9 });
    assert_eq!(u.index, t.index);
    assert_ne!(u, t);
    assert_eq!(set.wake(t), None);
    assert!(set.remove(t).is_none());
    assert_eq!(set.settle(t, Poll::Ready(0u32), false), None);
    assert_eq!(set.len(), 1);
    assert!(set.contains(u));
}

#[test]
fn settle_follows_the_outcome() {
    let mut set: TaskSet<u8> = TaskSet::new();
    let a = set.insert(10);
    let b = set.insert(20);
    assert_eq!(set.begin_poll(), Some(a));
    assert_eq!(set.status(a), Some(Status::Armed));
    assert_eq!(set.settle(a, Poll::<u32>::Pending, true), None);
    assert_eq!(set.status(a), Some(Status::Queued));
    assert_eq!(set.begin_poll(), Some(b));
    assert_eq!(set.settle(b, Poll::Ready(7u32), false), Some((b, 7)));
    assert!(!set.contains(b));
    assert_eq!(set.begin_poll(), Some(a));
    assert_eq!(set.settle(a, Poll::<u32>::Pending, false), None);
    assert_eq!(set.status(a), Some(Status::Armed));
    assert_eq!(set.begin_poll(), None);
    assert_eq!(set.remove(a), Some(10));
    assert!(set.is_empty());
}

#[test]
fn removing_a_queued_unit_keeps_the_queue_in_order() {
    let mut set: TaskSet<u8> = TaskSet::new();
    let a = set.insert(1);
    let b = set.insert(2);
    let c = set.insert(3);
    assert_eq!(set.remove(b), Some(2));
    assert_eq!(set.ready_len(), 2);
    assert_eq!(set.begin_poll(), Some(a));
    assert_eq!(set.begin_poll(), Some(c));
    assert_eq!(set.begin_poll(), None);
}
