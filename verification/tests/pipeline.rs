use std::cell::Cell;
use std::rc::Rc;

use poll_engine::pipeline::{Limit, Order, Pipeline};
use poll_engine::poll::{Context, Poll, Sequence, Unit};
use poll_engine::wake::WakeToken;

/// Answers `Ready(value)` at its `polls`-th poll and fires its own handle at
/// every poll before that.
struct Countdown {
    polls: u32,
    value: u32,
}

impl Unit for Countdown {
    type Output = u32;

    fn poll(&mut self, cx: &mut Context) -> Poll<u32> {
        if self.polls <= 1 {
            Poll::Ready(self.value)
        } else {
            self.polls -= 1;
            cx.wake();
            Poll::Pending
        }
    }
}

/// A unit that waits until its handle has been fired from outside.
struct Sleeper {
    value: u32,
    polled: bool,
}

impl Unit for Sleeper {
    type Output = u32;

    fn poll(&mut self, _cx: &mut Context) -> Poll<u32> {
        if self.polled {
            Poll::Ready(self.value)
        } else {
            self.polled = true;
            Poll::Pending
        }
    }
}

/// Hands out units with the given latencies, numbered from 1, and counts how
/// many it has handed out.
struct Source {
    latencies: Vec<u32>,
    given: u32,
}

impl Source {
    fn new(latencies: Vec<u32>) -> Self {
        Source { latencies, given: 0 }
    }
}

impl Sequence for Source {
    type Item = Countdown;

    fn poll_next(&mut self, _cx: &mut Context) -> Poll<Option<Countdown>> {
        if self.latencies.is_empty() {
            Poll::Ready(None)
        } else {
            self.given += 1;
            Poll::Ready(Some(Countdown { polls: self.latencies.remove(0), value: self.given }))
        }
    }
}

/// One sleeper, then the end.
struct OneSleeper {
    given: bool,
}

impl Sequence for OneSleeper {
    type Item = Sleeper;

    fn poll_next(&mut self, _cx: &mut Context) -> Poll<Option<Sleeper>> {
        if self.given {
            Poll::Ready(None)
        } else {
            self.given = true;
            Poll::Ready(Some(Sleeper { value: 9, polled: false }))
        }
    }
}

fn cx() -> Context {
    Context::new(WakeToken { index: 77, generation: 0 })
}

/// Drives the pipeline to its end; returns what it handed on and the largest
/// number of units that were in progress after any step.
fn run(p: &mut Pipeline<Source, Countdown>) -> (Vec<u32>, usize) {
    let mut out = Vec::new();
    let mut most = 0;
    let mut steps = 0;
    loop {
        let r = p.poll_next(&mut cx());
        most = most.max(p.in_flight());
        match r {
            Poll::Ready(Some(v)) => out.push(v),
            Poll::Ready(None) => return (out, most),
            Poll::Pending => {},
        }
        steps += 1;
        assert!(steps < 100);
    }
}

#[test]
fn ordered_pipeline_releases_in_admission_order() {
    let mut p = Pipeline::new(Source::new(vec![3, 1, 2, 1]), Limit::AtMost(2), Order::Admission);
    let (out, most) = run(&mut p);
    assert_eq!(out, vec![1, 2, 3, 4]);
    assert_eq!(most, 2);
    assert_eq!(p.admitted(), 4);
    assert_eq!(p.in_flight(), 0);
    assert!(p.source_done());
}

#[test]
fn unordered_pipeline_releases_in_completion_order() {
    let mut p = Pipeline::new(Source::new(vec![3, 1, 2, 1]), Limit::AtMost(2), Order::Completion);
    let (out, most) = run(&mut p);
    assert_eq!(out, vec![2, 1, 3, 4]);
    assert_eq!(most, 2);
}

#[test]
fn limit_of_one_runs_the_units_one_after_the_other() {
    let mut p = Pipeline::new(Source::new(vec![2, 1, 3]), Limit::AtMost(1), Order::Completion);
    let (out, most) = run(&mut p);
    assert_eq!(out, vec![1, 2, 3]);
    assert_eq!(most, 1);
}

#[test]
fn unlimited_pipeline_admits_everything_at_once() {
    let mut p = Pipeline::new(Source::new(vec![3, 2, 1]), Limit::Unlimited, Order::Completion);
    assert!(matches!(p.poll_next(&mut cx()), Poll::Ready(Some(3))));
    assert_eq!(p.admitted(), 3);
    assert_eq!(p.in_flight(), 2);
    let (out, _) = run(&mut p);
    assert_eq!(out, vec![2, 1]);
}

#[test]
fn input_is_pulled_only_when_there_is_room() {
    let mut p = Pipeline::new(Source::new(vec![2, 2, 2]), Limit::AtMost(2), Order::Admission);
    assert!(matches!(p.poll_next(&mut cx()), Poll::Pending));
    // Two admitted, the third still with the input.
    assert_eq!(p.admitted(), 2);
    assert_eq!(p.in_flight(), 2);
    assert!(!p.source_done());
    assert!(matches!(p.poll_next(&mut cx()), Poll::Ready(Some(1))));
    assert_eq!(p.admitted(), 2);
    assert_eq!(p.in_flight(), 1);
    assert!(matches!(p.poll_next(&mut cx()), Poll::Ready(Some(2))));
    assert_eq!(p.admitted(), 3);
    assert_eq!(p.in_flight(), 1);
}

#[test]
fn empty_input_finishes_at_once() {
    let mut p = Pipeline::new(Source::new(vec![]), Limit::AtMost(3), Order::Admission);
    assert!(matches!(p.poll_next(&mut cx()), Poll::Ready(None)));
    assert!(p.source_done());
    assert_eq!(p.admitted(), 0);
    assert!(matches!(p.poll_next(&mut cx()), Poll::Ready(None)));
}

#[test]
fn sleeping_unit_needs_its_wake() {
    let mut p = Pipeline::new(OneSleeper { given: false }, Limit::AtMost(1), Order::Admission);
    let mut first = cx();
    assert!(matches!(p.poll_next(&mut first), Poll::Pending));
    assert!(!first.was_woken());
    assert!(matches!(p.poll_next(&mut cx()), Poll::Pending));
    // The first unit of a fresh set sits in slot 0 under generation 0.
    let unit = WakeToken { index: 0, generation: 0 };
    assert_eq!(p.wake(unit), Some(cx().token()));
    assert_eq!(p.wake(unit), None);
    assert!(matches!(p.poll_next(&mut cx()), Poll::Ready(Some(9))));
    assert!(matches!(p.poll_next(&mut cx()), Poll::Ready(None)));
}

/// A source that is never asked.
struct Nothing;

impl Sequence for Nothing {
    type Item = Sleeper;

    fn poll_next(&mut self, _cx: &mut Context) -> Poll<Option<Sleeper>> {
        Poll::Pending
    }
}

fn sleeper(value: u32) -> Sleeper {
    Sleeper { value, polled: false }
}

#[test]
fn entering_by_hand_respects_the_limit() {
    let mut p = Pipeline::new(Nothing, Limit::AtMost(2), Order::Admission);
    let a = p.enter(sleeper(1));
    let b = p.enter(sleeper(2));
    assert!(a.is_ok() && b.is_ok());
    assert_eq!(p.in_flight(), 2);
    assert_eq!(p.admitted(), 2);
    // No room: the unit comes back.
    match p.enter(sleeper(3)) {
        Err(unit) => assert_eq!(unit.value, 3),
        Ok(_) => panic!("admitted beyond the limit"),
    }
    assert_eq!(p.in_flight(), 2);
    assert_eq!(p.admitted(), 2);
}

#[test]
fn settling_by_hand_in_admission_order() {
    let mut p = Pipeline::new(Nothing, Limit::AtMost(3), Order::Admission);
    let a = p.enter(sleeper(0)).ok().unwrap();
    let b = p.enter(sleeper(0)).ok().unwrap();
    let c = p.enter(sleeper(0)).ok().unwrap();
    assert_eq!(p.begin_poll(), Some(a));
    assert_eq!(p.settle(a, Poll::Pending, false), None);
    assert_eq!(p.begin_poll(), Some(b));
    // The second unit completes first: its result waits.
    assert_eq!(p.settle(b, Poll::Ready(20), false), None);
    assert_eq!(p.take_ready(), None);
    assert_eq!(p.in_flight(), 2);
    assert_eq!(p.begin_poll(), Some(c));
    assert_eq!(p.settle(c, Poll::Ready(30), false), None);
    // The first unit completes: its result leaves at once, the others follow.
    assert_eq!(p.settle(a, Poll::Ready(10), false), Some(10));
    assert_eq!(p.take_ready(), Some(20));
    assert_eq!(p.take_ready(), Some(30));
    assert_eq!(p.take_ready(), None);
    assert_eq!(p.in_flight(), 0);
    // A unit that has left cannot complete again.
    assert_eq!(p.settle(b, Poll::Ready(99), false), None);
    assert_eq!(p.take_ready(), None);
}

#[test]
fn settling_by_hand_in_completion_order() {
    let mut p = Pipeline::new(Nothing, Limit::Unlimited, Order::Completion);
    let a = p.enter(sleeper(0)).ok().unwrap();
    let b = p.enter(sleeper(0)).ok().unwrap();
    assert_eq!(p.settle(b, Poll::Ready(20), false), Some(20));
    assert_eq!(p.take_ready(), None);
    assert_eq!(p.settle(a, Poll::Ready(10), false), Some(10));
    assert_eq!(p.in_flight(), 0);
}

/// Hands out sleepers without end and counts how often it is asked.
struct Counted {
    asked: Rc<Cell<u32>>,
}

impl Sequence for Counted {
    type Item = Sleeper;

    fn poll_next(&mut self, _cx: &mut Context) -> Poll<Option<Sleeper>> {
        self.asked.set(self.asked.get() + 1);
        Poll::Ready(Some(sleeper(self.asked.get())))
    }
}

#[test]
fn input_is_not_asked_while_the_limit_is_reached() {
    let asked = Rc::new(Cell::new(0));
    let mut p = Pipeline::new(Counted { asked: asked.clone() }, Limit::AtMost(2), Order::Completion);
    assert!(matches!(p.poll_next(&mut cx()), Poll::Pending));
    assert_eq!(asked.get(), 2);
    assert_eq!(p.in_flight(), 2);
    // Full: further calls leave the input alone.
    assert!(matches!(p.poll_next(&mut cx()), Poll::Pending));
    assert!(matches!(p.poll_next(&mut cx()), Poll::Pending));
    assert_eq!(asked.get(), 2);
    // One unit completes: there is room for one more, and one is asked for.
    let first = WakeToken { index: 0, generation: 0 };
    assert_eq!(p.wake(first), Some(cx().token()));
    assert!(matches!(p.poll_next(&mut cx()), Poll::Ready(Some(1))));
    assert_eq!(asked.get(), 2);
    assert!(matches!(p.poll_next(&mut cx()), Poll::Pending));
    assert_eq!(asked.get(), 3);
    assert_eq!(p.in_flight(), 2);
}

/// An input that is not ready and fires the handle it is polled with.
struct Restless {
    seen: Rc<Cell<Option<WakeToken>>>,
}

impl Sequence for Restless {
    type Item = Sleeper;

    fn poll_next(&mut self, cx: &mut Context) -> Poll<Option<Sleeper>> {
        self.seen.set(Some(cx.token()));
        cx.wake();
        Poll::Pending
    }
}

#[test]
fn input_is_polled_with_the_callers_handle() {
    let seen = Rc::new(Cell::new(None));
    let mut p = Pipeline::new(Restless { seen: seen.clone() }, Limit::AtMost(1), Order::Admission);
    let mut driver = cx();
    assert!(matches!(p.poll_next(&mut driver), Poll::Pending));
    assert_eq!(seen.get(), Some(driver.token()));
    // The input's wake reaches the caller.
    assert!(driver.was_woken());
}

#[test]
fn result_next_in_line_is_handed_on_before_anything_is_polled() {
    let mut p = Pipeline::new(Nothing, Limit::AtMost(3), Order::Admission);
    let a = p.enter(sleeper(0)).ok().unwrap();
    let b = p.enter(sleeper(0)).ok().unwrap();
    assert_eq!(p.settle(b, Poll::Ready(20), false), None);
    assert_eq!(p.settle(a, Poll::Ready(10), false), Some(10));
    // The second result is held and next in line.
    assert!(matches!(p.poll_next(&mut cx()), Poll::Ready(Some(20))));
    assert_eq!(p.in_flight(), 0);
}

#[test]
fn limit_knows_its_room() {
    assert!(Limit::AtMost(2).admits(1));
    assert!(!Limit::AtMost(2).admits(2));
    assert!(Limit::Unlimited.admits(usize::MAX));
    assert!(Limit::AtMost(1).is_valid());
    assert!(!Limit::AtMost(0).is_valid());
    assert!(Limit::Unlimited.is_valid());
}
