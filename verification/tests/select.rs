use poll_engine::poll::{Context, Poll, Sequence};
use poll_engine::select::{Arbiter, Arm, Ending, Select, SelectAll, Signal, Strategy, Turn};
use poll_engine::wake::WakeToken;

/// A sequence that plays back a list of answers and counts its polls.
struct Script {
    answers: Vec<Poll<Option<u32>>>,
    polled: usize,
}

impl Script {
    fn new(answers: Vec<Poll<Option<u32>>>) -> Self {
        Script { answers, polled: 0 }
    }

    fn items(items: Vec<u32>) -> Self {
        let mut answers: Vec<Poll<Option<u32>>> = Vec::new();
        for i in items {
            answers.push(Poll::Ready(Some(i)));
        }
        answers.push(Poll::Ready(None));
        Script::new(answers)
    }
}

impl Sequence for Script {
    type Item = u32;

    fn poll_next(&mut self, _cx: &mut Context) -> Poll<Option<u32>> {
        self.polled += 1;
        if self.answers.is_empty() {
            panic!("polled after the end");
        }
        self.answers.remove(0)
    }
}

/// A sequence that always has an item.
struct Always(u32);

impl Sequence for Always {
    type Item = u32;

    fn poll_next(&mut self, _cx: &mut Context) -> Poll<Option<u32>> {
        Poll::Ready(Some(self.0))
    }
}

fn cx() -> Context {
    Context::new(WakeToken { index: 0, generation: 0 })
}

fn drain(s: &mut Select<Script, Script>) -> Vec<(Arm, u32)> {
    let mut out = Vec::new();
    loop {
        match s.poll_next(&mut cx()) {
            Poll::Ready(Some(pair)) => out.push(pair),
            Poll::Ready(None) => return out,
            Poll::Pending => panic!("unexpected pending"),
        }
    }
}

#[test]
fn round_robin_alternates_between_two_ready_arms() {
    let mut s = Select::new(Always(1), Always(2), Strategy::RoundRobin, Ending::WhenAll);
    let mut got = Vec::new();
    for _ in 0..6 {
        match s.poll_next(&mut cx()) {
            Poll::Ready(Some(pair)) => got.push(pair),
            _ => panic!("an arm was ready"),
        }
    }
    assert_eq!(
        got,
        vec![
            (Arm::Left, 1),
            (Arm::Right, 2),
            (Arm::Left, 1),
            (Arm::Right, 2),
            (Arm::Left, 1),
            (Arm::Right, 2)
        ]
    );
}

#[test]
fn priority_always_takes_the_first_arm() {
    let mut s = Select::new(Always(1), Always(2), Strategy::Priority, Ending::WhenAll);
    for _ in 0..4 {
        assert!(matches!(s.poll_next(&mut cx()), Poll::Ready(Some((Arm::Left, 1)))));
    }
}

#[test]
fn ended_arm_is_dropped_and_the_other_goes_on() {
    let mut s = Select::new(
        Script::items(vec![1]),
        Script::items(vec![10, 20, 30]),
        Strategy::RoundRobin,
        Ending::WhenAll,
    );
    assert_eq!(
        drain(&mut s),
        vec![(Arm::Left, 1), (Arm::Right, 10), (Arm::Right, 20), (Arm::Right, 30)]
    );
    assert!(s.is_ended());
    // Ended for good, and no arm is polled again.
    assert!(matches!(s.poll_next(&mut cx()), Poll::Ready(None)));
}

#[test]
fn when_any_ends_with_the_first_arm_that_ends() {
    let mut s = Select::new(
        Script::items(vec![1]),
        Script::items(vec![10, 20, 30]),
        Strategy::RoundRobin,
        Ending::WhenAny,
    );
    assert_eq!(drain(&mut s), vec![(Arm::Left, 1), (Arm::Right, 10)]);
    assert!(s.is_ended());
}

#[test]
fn pending_arm_lets_the_other_through() {
    let mut s = Select::new(
        Script::new(vec![Poll::Pending, Poll::Pending, Poll::Ready(Some(1)), Poll::Ready(None)]),
        Script::new(vec![Poll::Ready(Some(10)), Poll::Pending, Poll::Ready(None)]),
        Strategy::Priority,
        Ending::WhenAll,
    );
    assert!(matches!(s.poll_next(&mut cx()), Poll::Ready(Some((Arm::Right, 10)))));
    assert!(matches!(s.poll_next(&mut cx()), Poll::Pending));
    assert!(matches!(s.poll_next(&mut cx()), Poll::Ready(Some((Arm::Left, 1)))));
    // Left ends, right ends: the whole ends within one cycle.
    assert!(matches!(s.poll_next(&mut cx()), Poll::Ready(None)));
    assert!(s.is_ended());
}

#[test]
fn many_arms_take_turns() {
    let arms = vec![Always(0), Always(1), Always(2)];
    let mut s = SelectAll::new(arms, Strategy::RoundRobin, Ending::WhenAll);
    let mut got = Vec::new();
    for _ in 0..7 {
        match s.poll_next(&mut cx()) {
            Poll::Ready(Some(pair)) => got.push(pair),
            _ => panic!("an arm was ready"),
        }
    }
    assert_eq!(got, vec![(0, 0), (1, 1), (2, 2), (0, 0), (1, 1), (2, 2), (0, 0)]);
}

#[test]
fn many_arms_drain_to_the_end() {
    let arms = vec![Script::items(vec![1, 2]), Script::items(vec![]), Script::items(vec![3])];
    let mut s = SelectAll::new(arms, Strategy::RoundRobin, Ending::WhenAll);
    let mut got = Vec::new();
    loop {
        match s.poll_next(&mut cx()) {
            Poll::Ready(Some(pair)) => got.push(pair),
            Poll::Ready(None) => break,
            Poll::Pending => panic!("unexpected pending"),
        }
    }
    // Cycle 1 starts at arm 0; cycle 2 at arm 1, which ends, so arm 2 is
    // next; cycle 3 starts at arm 2, which ends, so arm 0 is next.
    assert_eq!(got, vec![(0, 1), (2, 3), (0, 2)]);
    assert!(s.is_ended());
}

#[test]
fn no_arms_is_ended_at_once() {
    let arms: Vec<Always> = Vec::new();
    let mut s = SelectAll::new(arms, Strategy::RoundRobin, Ending::WhenAll);
    assert!(s.is_ended());
    assert!(matches!(s.poll_next(&mut cx()), Poll::Ready(None)));
}

#[test]
fn arbiter_steps_by_hand() {
    let mut a = Arbiter::new(3, Strategy::RoundRobin, Ending::WhenAll);
    assert_eq!(a.arms(), 3);
    assert!(!a.is_ended());
    assert_eq!(a.turn(), Turn::Poll(0));
    assert!(!a.answer(Signal::Pending));
    assert_eq!(a.turn(), Turn::Poll(1));
    assert!(!a.answer(Signal::End));
    assert!(a.is_done(1));
    assert_eq!(a.turn(), Turn::Poll(2));
    assert!(!a.answer(Signal::Pending));
    // The cycle is over without an item.
    assert_eq!(a.turn(), Turn::Pending);
    // The next cycle starts one arm further, and passes over the ended arm.
    assert_eq!(a.turn(), Turn::Poll(2));
    assert!(a.answer(Signal::Item));
    // After the item the first place has moved on again, to arm 2.
    assert_eq!(a.turn(), Turn::Poll(2));
    assert!(!a.answer(Signal::End));
    assert_eq!(a.turn(), Turn::Poll(0));
    assert!(!a.answer(Signal::End));
    assert!(a.is_ended());
    assert_eq!(a.turn(), Turn::Ended);
    assert!(a.is_done(0) && a.is_done(1) && a.is_done(2));
    assert!(a.is_done(3));
}

#[test]
fn preferred_arm_goes_first() {
    let mut s = Select::new(Always(1), Always(2), Strategy::Priority, Ending::WhenAll);
    assert!(s.prefer(Arm::Right));
    for _ in 0..3 {
        assert!(matches!(s.poll_next(&mut cx()), Poll::Ready(Some((Arm::Right, 2)))));
    }
    // A strategy of the caller's own: left twice, then right once.
    let mut got = Vec::new();
    for arm in [Arm::Left, Arm::Left, Arm::Right] {
        assert!(s.prefer(arm));
        match s.poll_next(&mut cx()) {
            Poll::Ready(Some((from, _))) => got.push(from),
            _ => panic!("an arm was ready"),
        }
    }
    assert_eq!(got, vec![Arm::Left, Arm::Left, Arm::Right]);
}

#[test]
fn prefer_is_refused_in_mid_cycle_and_for_a_missing_arm() {
    let mut a = Arbiter::new(2, Strategy::Priority, Ending::WhenAll);
    assert!(!a.prefer(2));
    assert_eq!(a.turn(), Turn::Poll(0));
    assert!(!a.answer(Signal::Pending));
    assert!(!a.prefer(1));
    assert_eq!(a.turn(), Turn::Poll(1));
    assert!(a.answer(Signal::Item));
    assert!(a.prefer(1));
    assert_eq!(a.turn(), Turn::Poll(1));
    let arms = vec![Always(0), Always(1), Always(2)];
    let mut all = SelectAll::new(arms, Strategy::Priority, Ending::WhenAll);
    assert!(all.prefer(2));
    assert!(!all.prefer(3));
    assert!(matches!(all.poll_next(&mut cx()), Poll::Ready(Some((2, 2)))));
}

#[test]
fn item_is_tagged_with_the_arm_it_came_from() {
    let mut s = Select::new(Always(1), Always(2), Strategy::RoundRobin, Ending::WhenAll);
    for _ in 0..4 {
        match s.poll_next(&mut cx()) {
            Poll::Ready(Some((Arm::Left, item))) => assert_eq!(item, 1),
            Poll::Ready(Some((Arm::Right, item))) => assert_eq!(item, 2),
            _ => panic!("an arm was ready"),
        }
    }
    let arms = vec![Always(10), Always(11), Always(12)];
    let mut all = SelectAll::new(arms, Strategy::RoundRobin, Ending::WhenAll);
    for _ in 0..6 {
        match all.poll_next(&mut cx()) {
            Poll::Ready(Some((arm, item))) => assert_eq!(item as usize, 10 + arm),
            _ => panic!("an arm was ready"),
        }
    }
}

#[test]
fn arm_names_its_other() {
    assert_eq!(Arm::Left.other(), Arm::Right);
    assert_eq!(Arm::Right.other(), Arm::Left);
}
