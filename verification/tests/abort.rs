use poll_engine::abort::{abortable, AbortState, Abortable, Aborted, CancelFlag, Gate};
use poll_engine::poll::{Context, Poll, Unit};
use poll_engine::task_set::TaskSet;
use poll_engine::wake::{Status, WakeToken};

/// Answers `Ready(value)` at its `polls`-th poll; counts its polls.
struct Countdown {
    polls: u32,
    value: u32,
    polled: u32,
}

impl Countdown {
    fn new(polls: u32, value: u32) -> Self {
        Countdown { polls, value, polled: 0 }
    }
}

impl Unit for Countdown {
    type Output = u32;

    fn poll(&mut self, _cx: &mut Context) -> Poll<u32> {
        self.polled += 1;
        if self.polled >= self.polls {
            Poll::Ready(self.value)
        } else {
            Poll::Pending
        }
    }
}

fn driver() -> Context {
    Context::new(WakeToken { index: 42, generation: 0 })
}

#[test]
fn fresh_state_is_active() {
    let s = AbortState::new();
    assert_eq!(s.flag, CancelFlag::Active);
    assert!(!s.completed);
    assert_eq!(s.waiter, None);
    assert!(!s.is_finished());
    assert!(!s.is_aborted());
    assert_eq!(s.check(), Gate::Delegate);
}

#[test]
fn unit_that_is_not_aborted_yields_its_value() {
    let mut a = abortable(Countdown::new(2, 7));
    let mut cx = driver();
    assert!(matches!(a.poll(&mut cx), Poll::Pending));
    assert_eq!(a.state.waiter, Some(cx.token()));
    assert!(!a.is_finished());
    assert!(matches!(a.poll(&mut cx), Poll::Ready(Ok(7))));
    assert!(a.is_finished());
    assert!(!a.is_aborted());
    assert_eq!(a.state.waiter, None);
}

#[test]
fn abort_mid_flight_yields_aborted_exactly_once() {
    let mut a = abortable(Countdown::new(3, 7));
    let mut cx = driver();
    assert!(matches!(a.poll(&mut cx), Poll::Pending));
    // The request hands back the waiter's handle.
    assert_eq!(a.abort(), Some(cx.token()));
    assert!(a.is_aborted());
    assert_eq!(a.state.flag, CancelFlag::CancelRequested);
    assert!(matches!(a.poll(&mut cx), Poll::Ready(Err(Aborted))));
    assert_eq!(a.state.flag, CancelFlag::Cancelled);
    assert!(a.is_finished());
    // The unit inside was not polled again, and `Aborted` does not come twice.
    assert_eq!(a.unit.polled, 1);
    assert!(matches!(a.poll(&mut cx), Poll::Pending));
    assert!(matches!(a.poll(&mut cx), Poll::Pending));
    assert_eq!(a.unit.polled, 1);
}

#[test]
fn abort_once_or_many_times_is_the_same() {
    let mut once = abortable(Countdown::new(3, 7));
    let mut many = abortable(Countdown::new(3, 7));
    let mut cx = driver();
    assert!(matches!(once.poll(&mut cx), Poll::Pending));
    assert!(matches!(many.poll(&mut cx), Poll::Pending));
    assert_eq!(once.abort(), Some(cx.token()));
    assert_eq!(many.abort(), Some(cx.token()));
    for _ in 0..5 {
        assert_eq!(many.abort(), None);
    }
    assert_eq!(once.state, many.state);
    assert!(matches!(once.poll(&mut cx), Poll::Ready(Err(Aborted))));
    assert!(matches!(many.poll(&mut cx), Poll::Ready(Err(Aborted))));
    assert_eq!(once.state, many.state);
    assert_eq!(many.abort(), None);
    assert_eq!(once.state, many.state);
}

#[test]
fn abort_before_the_first_poll_has_no_one_to_wake() {
    let mut a = Abortable::new(Countdown::new(1, 7));
    assert_eq!(a.abort(), None);
    let mut cx = driver();
    assert!(matches!(a.poll(&mut cx), Poll::Ready(Err(Aborted))));
    assert_eq!(a.unit.polled, 0);
}

#[test]
fn abort_after_completion_keeps_the_value() {
    let mut a = abortable(Countdown::new(1, 7));
    let mut cx = driver();
    assert!(matches!(a.poll(&mut cx), Poll::Ready(Ok(7))));
    let before = a.state;
    assert_eq!(a.abort(), None);
    assert_eq!(a.state, before);
    assert!(!a.is_aborted());
    assert_eq!(a.state.check(), Gate::Finished);
    // Nothing more comes, and certainly not `Aborted`.
    assert!(matches!(a.poll(&mut cx), Poll::Pending));
}

#[test]
fn state_steps_by_hand() {
    let t = WakeToken { index: 1, generation: 2 };
    let mut s = AbortState::new();
    s.settle(false, t);
    assert_eq!(s.waiter, Some(t));
    assert_eq!(s.check(), Gate::Delegate);
    assert_eq!(s.abort(), Some(t));
    assert_eq!(s.check(), Gate::Abort);
    s.cancel();
    assert_eq!(s, AbortState { flag: CancelFlag::Cancelled, completed: false, waiter: None });
    assert_eq!(s.check(), Gate::Finished);
    let mut d = AbortState::new();
    d.settle(true, t);
    assert_eq!(d, AbortState { flag: CancelFlag::Active, completed: true, waiter: None });
    assert_eq!(d.check(), Gate::Finished);
}

#[test]
fn aborted_member_leaves_its_set() {
    let mut set = TaskSet::new();
    let a = set.insert(abortable(Countdown::new(5, 1)));
    let b = set.insert(abortable(Countdown::new(2, 2)));
    let mut cx = driver();
    // First round: both are polled once and wait.
    assert!(matches!(set.poll_next(&mut cx), Poll::Pending));
    assert_eq!(set.status(a), Some(Status::Armed));
    // Abort `a` before its second poll: it is queued, and the driver is told.
    assert_eq!(set.abort(a), Some(cx.token()));
    assert_eq!(set.status(a), Some(Status::Queued));
    assert_eq!(set.abort(a), None);
    let mut cx = driver();
    assert!(matches!(set.poll_next(&mut cx), Poll::Ready(Some((t, Err(Aborted)))) if t == a));
    assert!(!set.contains(a));
    assert_eq!(set.len(), 1);
    // `Aborted` came once; the other member goes on as before.
    let mut cx = driver();
    assert!(matches!(set.poll_next(&mut cx), Poll::Pending));
    assert_eq!(set.wake(b), Some(cx.token()));
    let mut cx = driver();
    assert!(matches!(set.poll_next(&mut cx), Poll::Ready(Some((t, Ok(2)))) if t == b));
    let mut cx = driver();
    assert!(matches!(set.poll_next(&mut cx), Poll::Ready(None)));
    // A handle that has left the set cannot be aborted.
    assert_eq!(set.abort(a), None);
}
