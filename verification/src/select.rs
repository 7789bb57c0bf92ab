//! Multiplexing: several sequences polled as one.
//!
//! Each call of a multiplexer is one *cycle*: it polls the arms that have
//! not ended, in an order that starts at the arm the strategy puts first,
//! and yields the first item it finds, tagged with the arm it came from.
//! An arm that signals its end is never polled again.

use vstd::prelude::*;
use crate::poll::Context;
use crate::poll::Poll;
use crate::poll::Sequence;

verus! {

/// Which arm goes first in a cycle.
#[derive(Clone, Copy, PartialEq, Eq, Structural, Debug)]
pub enum Strategy {
    /// The first place moves on by one arm with every cycle, so that no arm
    /// is starved by another that is always ready.
    RoundRobin,
    /// The same arm goes first in every cycle, arm 0 unless another was
    /// preferred: ties are settled the same way every time, at the price of
    /// fairness.
    Priority,
}

/// When the multiplexer itself ends.
#[derive(Clone, Copy, PartialEq, Eq, Structural, Debug)]
pub enum Ending {
    /// When every arm has ended.
    WhenAll,
    /// As soon as one arm has ended.
    WhenAny,
}

/// What an arm answered to a poll, without the item.
#[derive(Clone, Copy, PartialEq, Eq, Structural, Debug)]
pub enum Signal {
    Pending,
    Item,
    End,
}

/// What the multiplexer does next.
#[derive(Clone, Copy, PartialEq, Eq, Structural, Debug)]
pub enum Turn {
    /// Poll this arm and report its answer.
    Poll(usize),
    /// The item that this arm just gave is the result of the cycle.
    Yield(usize),
    /// The cycle is over and no arm had an item.
    Pending,
    /// The multiplexer has ended.
    Ended,
}

/// The number of `true` entries.
pub open spec fn count_true(s: Seq<bool>) -> nat
    decreases s.len(),
{
    if s.len() == 0 {
        0
    } else {
        count_true(s.drop_last()) + if s.last() {
            1nat
        } else {
            0nat
        }
    }
}

pub proof fn lemma_count_true(s: Seq<bool>)
    ensures
        count_true(s) <= s.len(),
        count_true(s) == s.len() <==> forall|i: int| 0 <= i < s.len() ==> s[i],
        count_true(s) > 0 <==> exists|i: int| 0 <= i < s.len() && s[i],
    decreases s.len(),
{
    if s.len() > 0 {
        let f = s.drop_last();
        lemma_count_true(f);
        if count_true(s) == s.len() {
            assert forall|i: int| 0 <= i < s.len() implies s[i] by {
                if i < f.len() {
                    assert(f[i]);
                }
            }
        }
        if forall|i: int| 0 <= i < s.len() ==> s[i] {
            assert forall|i: int| 0 <= i < f.len() implies f[i] by {
                assert(s[i]);
            }
            assert(s.last());
        }
        if count_true(s) > 0 {
            if s.last() {
                assert(s[s.len() - 1]);
            } else {
                let i = choose|i: int| 0 <= i < f.len() && f[i];
                assert(s[i]);
            }
        }
        if exists|i: int| 0 <= i < s.len() && s[i] {
            let i = choose|i: int| 0 <= i < s.len() && s[i];
            if i < f.len() {
                assert(f[i]);
            }
        }
    }
}

pub proof fn lemma_count_update(s: Seq<bool>, i: int)
    requires
        0 <= i < s.len(),
        !s[i],
    ensures
        count_true(s.update(i, true)) == count_true(s) + 1,
    decreases s.len(),
{
    let u = s.update(i, true);
    if i == s.len() - 1 {
        assert(u.drop_last() =~= s.drop_last());
    } else {
        assert(u.drop_last() =~= s.drop_last().update(i, true));
        lemma_count_update(s.drop_last(), i);
    }
}

/// The bookkeeping of a multiplexer, as a mathematical value.
pub struct ArbiterView {
    /// For each arm, whether it has ended.
    pub done: Seq<bool>,
    /// The arm that goes first in the current cycle.
    pub start: nat,
    /// How many places of the current cycle have been dealt with.
    pub cursor: nat,
    pub strategy: Strategy,
    pub ending: Ending,
}

impl ArbiterView {
    pub open spec fn fresh(arms: nat, strategy: Strategy, ending: Ending) -> Self {
        ArbiterView { done: Seq::new(arms, |i: int| false), start: 0, cursor: 0, strategy, ending }
    }

    pub open spec fn arms(self) -> nat {
        self.done.len()
    }

    pub open spec fn wf(self) -> bool {
        &&& self.arms() <= usize::MAX
        &&& self.cursor <= self.arms()
        &&& self.start < self.arms() || (self.arms() == 0 && self.start == 0)
    }

    /// Whether the multiplexer has ended.
    pub open spec fn ended(self) -> bool {
        match self.ending {
            Ending::WhenAll => count_true(self.done) == self.arms(),
            Ending::WhenAny => count_true(self.done) > 0 || self.arms() == 0,
        }
    }

    /// The arm at place `k` of the current cycle.
    pub open spec fn arm_at(self, k: nat) -> nat {
        if self.start + k < self.arms() {
            self.start + k
        } else {
            (self.start + k - self.arms()) as nat
        }
    }

    /// The arm that goes first in the next cycle.
    pub open spec fn next_start(self) -> nat {
        match self.strategy {
            Strategy::RoundRobin => if self.start + 1 < self.arms() {
                self.start + 1
            } else {
                0
            },
            Strategy::Priority => self.start,
        }
    }

    /// Between two cycles, `arm` is put first for the next one.
    pub open spec fn prefer(self, arm: nat) -> Self {
        if self.cursor == 0 && arm < self.arms() {
            ArbiterView { start: arm, ..self }
        } else {
            self
        }
    }

    /// The cycle is over: the next one begins.
    pub open spec fn reset(self) -> Self {
        ArbiterView { start: self.next_start(), cursor: 0, ..self }
    }

    /// The places of arms that have ended are passed over.
    pub open spec fn skip(self) -> Self
        decreases self.arms() - self.cursor,
    {
        if self.cursor < self.arms() && self.done[self.arm_at(self.cursor) as int] {
            (ArbiterView { cursor: self.cursor + 1, ..self }).skip()
        } else {
            self
        }
    }

    /// What to do next, and the state after deciding so.
    pub open spec fn turn(self) -> (Self, Turn) {
        if self.ended() {
            (self, Turn::Ended)
        } else {
            let s = self.skip();
            if s.cursor >= s.arms() {
                (s.reset(), Turn::Pending)
            } else {
                (s, Turn::Poll(s.arm_at(s.cursor) as usize))
            }
        }
    }

    /// The state after the arm at the current place answered `sig`.
    pub open spec fn answer(self, sig: Signal) -> Self {
        if self.cursor >= self.arms() {
            self
        } else {
            let arm = self.arm_at(self.cursor) as int;
            match sig {
                Signal::Item => self.reset(),
                Signal::Pending => ArbiterView { cursor: self.cursor + 1, ..self },
                Signal::End => ArbiterView {
                    done: self.done.update(arm, true),
                    cursor: self.cursor + 1,
                    ..self
                },
            }
        }
    }

    /// The state after the polls of a cycle so far came back with `sigs`,
    /// in this order.
    pub open spec fn after(self, sigs: Seq<Signal>) -> Self
        decreases sigs.len(),
    {
        if sigs.len() == 0 {
            self
        } else {
            self.after(sigs.drop_last()).turn().0.answer(sigs.last())
        }
    }

    /// What one call of a multiplexer does, given what the polls it made
    /// came back with: it polls arm after arm, as `turn` says, until one
    /// gives an item or `turn` says that the cycle is over. `end` is the
    /// state after the call and `verdict` its result.
    pub open spec fn plays(self, sigs: Seq<Signal>, end: Self, verdict: Turn) -> bool {
        &&& forall|k: int|
            0 <= k < sigs.len() ==> (#[trigger] self.after(sigs.take(k))).turn().1 is Poll
        &&& forall|k: int| 0 <= k < sigs.len() - 1 ==> #[trigger] sigs[k] != Signal::Item
        &&& if sigs.len() > 0 && sigs.last() == Signal::Item {
            &&& end == self.after(sigs)
            &&& verdict == Turn::Yield(self.after(sigs.drop_last()).turn().1->Poll_0)
        } else {
            &&& end == self.after(sigs).turn().0
            &&& verdict == self.after(sigs).turn().1
            &&& !(verdict is Poll)
        }
    }

    /// Whether the cycle that came back with `sigs` polled the arm `arm`.
    pub open spec fn polled(self, sigs: Seq<Signal>, arm: nat) -> bool {
        exists|k: int|
            0 <= k < sigs.len() && (#[trigger] self.after(sigs.take(k))).turn().1 == Turn::Poll(
                arm as usize,
            )
    }

    /// One more poll of a cycle: the arm that `turn` names is polled and
    /// answers `sig`.
    pub proof fn lemma_one_more(self, sigs: Seq<Signal>, sig: Signal)
        requires
            forall|k: int|
                0 <= k < sigs.len() ==> (#[trigger] self.after(sigs.take(k))).turn().1 is Poll,
            self.after(sigs).turn().1 is Poll,
        ensures
            sigs.push(sig).drop_last() == sigs,
            self.after(sigs.push(sig)) == self.after(sigs).turn().0.answer(sig),
            forall|k: int|
                0 <= k < sigs.len() + 1 ==> (#[trigger] self.after(sigs.push(sig).take(k))).turn().1 is Poll,
            forall|arm: nat|
                arm <= usize::MAX ==> (#[trigger] self.polled(sigs.push(sig), arm) <==> (self.polled(
                    sigs,
                    arm,
                ) || self.after(sigs).turn().1 == Turn::Poll(arm as usize))),
    {
        let more = sigs.push(sig);
        assert(more.drop_last() =~= sigs);
        assert(more.take(sigs.len() as int) =~= sigs);
        assert forall|k: int| 0 <= k < sigs.len() implies #[trigger] more.take(k) == sigs.take(k) by {
            assert(more.take(k) =~= sigs.take(k));
        }
        assert forall|k: int| 0 <= k < more.len() implies (#[trigger] self.after(more.take(k))).turn().1 is Poll by {
            if k < sigs.len() {
                assert(more.take(k) == sigs.take(k));
            }
        }
        assert forall|arm: nat| arm <= usize::MAX implies (#[trigger] self.polled(more, arm) <==> (
        self.polled(sigs, arm) || self.after(sigs).turn().1 == Turn::Poll(arm as usize))) by {
            if self.polled(more, arm) {
                let k = choose|k: int|
                    0 <= k < more.len() && (#[trigger] self.after(more.take(k))).turn().1
                        == Turn::Poll(arm as usize);
                if k < sigs.len() {
                    assert(more.take(k) == sigs.take(k));
                    assert(self.after(sigs.take(k)).turn().1 == Turn::Poll(arm as usize));
                }
            }
            if self.polled(sigs, arm) {
                let k = choose|k: int|
                    0 <= k < sigs.len() && (#[trigger] self.after(sigs.take(k))).turn().1
                        == Turn::Poll(arm as usize);
                assert(more.take(k) == sigs.take(k));
                assert(self.after(more.take(k)).turn().1 == Turn::Poll(arm as usize));
            }
            if self.after(sigs).turn().1 == Turn::Poll(arm as usize) {
                assert(self.after(more.take(sigs.len() as int)).turn().1 == Turn::Poll(
                    arm as usize,
                ));
            }
        }
    }

    pub proof fn lemma_skip(self)
        requires
            self.wf(),
        ensures
            self.skip().wf(),
            self.skip().done == self.done,
            self.skip().start == self.start,
            self.skip().strategy == self.strategy,
            self.skip().ending == self.ending,
            self.cursor <= self.skip().cursor,
            self.skip().cursor < self.arms() ==> !self.done[self.skip().arm_at(
                self.skip().cursor,
            ) as int],
            forall|k: nat|
                self.cursor <= k < self.skip().cursor ==> #[trigger] self.done[self.arm_at(
                    k,
                ) as int],
        decreases self.arms() - self.cursor,
    {
        if self.cursor < self.arms() && self.done[self.arm_at(self.cursor) as int] {
            let n = ArbiterView { cursor: self.cursor + 1, ..self };
            n.lemma_skip();
            assert forall|k: nat| self.cursor <= k < self.skip().cursor implies #[trigger] self.done[self.arm_at(
                k,
            ) as int] by {
                if k > self.cursor {
                    assert(n.done[n.arm_at(k) as int]);
                }
            }
        }
    }

    pub proof fn lemma_turn_wf(self)
        requires
            self.wf(),
        ensures
            self.turn().0.wf(),
            self.turn().0.arms() == self.arms(),
            self.turn().1 matches Turn::Poll(arm) ==> arm < self.arms() && !self.done[arm as int]
                && self.turn().0.cursor < self.arms() && self.turn().0.arm_at(self.turn().0.cursor)
                == arm && self.turn().0.cursor >= self.cursor && self.turn().0.done == self.done,
            !(self.turn().1 is Yield),
            self.turn().1 is Ended <==> self.ended(),
    {
        self.lemma_skip();
    }

    pub proof fn lemma_answer_wf(self, sig: Signal)
        requires
            self.wf(),
        ensures
            self.answer(sig).wf(),
            self.answer(sig).arms() == self.arms(),
            self.ended() ==> self.answer(sig).ended(),
    {
        if self.cursor < self.arms() && sig == Signal::End {
            let arm = self.arm_at(self.cursor) as int;
            if self.done[arm] {
                assert(self.done.update(arm, true) =~= self.done);
            } else {
                lemma_count_update(self.done, arm);
                lemma_count_true(self.done);
            }
        }
    }

    /// Round robin is fair: where no arm has ended and every arm has an item
    /// whenever it is polled, each cycle yields the item of the arm after the
    /// one that the cycle before yielded. With two arms the cycles alternate
    /// between them.
    pub proof fn lemma_round_robin_alternates(self)
        requires
            self.wf(),
            self.strategy == Strategy::RoundRobin,
            self.cursor == 0,
            self.arms() > 0,
            forall|i: int| 0 <= i < self.arms() ==> !self.done[i],
        ensures
            self.turn().1 == Turn::Poll(self.start as usize),
            self.turn().0.answer(Signal::Item) == self.reset(),
            self.reset().turn().1 == Turn::Poll(self.next_start() as usize),
            self.arms() == 2 ==> self.next_start() == 1 - self.start,
            self.arms() > 1 ==> self.next_start() != self.start,
            self.reset().wf() && self.reset().cursor == 0 && self.reset().done == self.done
                && self.reset().strategy == self.strategy,
    {
        lemma_count_true(self.done);
        assert(!self.ended()) by {
            assert(!self.done[0]);
        }
        assert(self.skip() == self);
        let r = self.reset();
        assert(!r.ended());
        assert(!r.done[r.arm_at(0) as int]);
        assert(r.skip() == r);
    }

    /// Priority is deterministic: as long as the preferred arm has not
    /// ended, every cycle polls it first, and an item of it is the result
    /// whatever the other arms hold.
    pub proof fn lemma_priority_prefers_first(self)
        requires
            self.wf(),
            self.strategy == Strategy::Priority,
            self.cursor == 0,
            self.arms() > 0,
            !self.done[self.start as int],
            !self.ended(),
        ensures
            self.turn().1 == Turn::Poll(self.start as usize),
            self.turn().0.answer(Signal::Item) == self,
    {
        assert(self.skip() == self);
    }

    /// An arm that has ended stays ended and is never polled again.
    pub proof fn lemma_ended_arm_is_left_alone(self, sig: Signal, arm: int)
        requires
            self.wf(),
            0 <= arm < self.arms(),
            self.done[arm],
        ensures
            self.turn().1 != Turn::Poll(arm as usize),
            self.turn().0.done[arm],
            self.answer(sig).done[arm],
            self.answer(sig).arms() == self.arms(),
    {
        self.lemma_turn_wf();
        self.lemma_skip();
    }
}

/// The bookkeeping of a multiplexer: which arms have ended, which arm goes
/// first, and how far the current cycle has come.
pub struct Arbiter {
    done: Vec<bool>,
    ended_arms: usize,
    start: usize,
    cursor: usize,
    strategy: Strategy,
    ending: Ending,
}

impl Arbiter {
    pub closed spec fn view(&self) -> ArbiterView {
        ArbiterView {
            done: self.done@,
            start: self.start as nat,
            cursor: self.cursor as nat,
            strategy: self.strategy,
            ending: self.ending,
        }
    }

    pub closed spec fn wf(&self) -> bool {
        &&& self@.wf()
        &&& self.done@.len() == self.done.len()
        &&& self.ended_arms == count_true(self.done@)
    }

    pub proof fn lemma_view_wf(&self)
        requires
            self.wf(),
        ensures
            self@.wf(),
    {
    }

    /// An arbiter for `arms` arms, none of which has ended.
    pub fn new(arms: usize, strategy: Strategy, ending: Ending) -> (a: Self)
        ensures
            a.wf(),
            a@ == ArbiterView::fresh(arms as nat, strategy, ending),
    {
        let mut done: Vec<bool> = Vec::new();
        let mut i: usize = 0;
        while i < arms
            invariant
                i <= arms,
                done@.len() == i,
                forall|k: int| 0 <= k < i ==> !done@[k],
            decreases arms - i,
        {
            done.push(false);
            i = i + 1;
        }
        proof {
            lemma_count_true(done@);
            if count_true(done@) > 0 {
                let k = choose|k: int| 0 <= k < done@.len() && done@[k];
                assert(!done@[k]);
            }
            assert(done@ =~= Seq::new(arms as nat, |i: int| false));
        }
        Arbiter { done, ended_arms: 0, start: 0, cursor: 0, strategy, ending }
    }

    /// The number of arms.
    pub fn arms(&self) -> (n: usize)
        ensures
            n == self@.arms(),
    {
        self.done.len()
    }

    /// Whether the multiplexer has ended.
    pub fn is_ended(&self) -> (e: bool)
        requires
            self.wf(),
        ensures
            e == self@.ended(),
    {
        match self.ending {
            Ending::WhenAll => self.ended_arms == self.done.len(),
            Ending::WhenAny => self.ended_arms > 0 || self.done.len() == 0,
        }
    }

    /// Whether arm `arm` has ended; `true` for an arm that does not exist.
    pub fn is_done(&self, arm: usize) -> (d: bool)
        ensures
            d == (arm >= self@.arms() || self@.done[arm as int]),
    {
        arm >= self.done.len() || self.done[arm]
    }

    fn arm_here(&self) -> (arm: usize)
        requires
            self.wf(),
            self.cursor < self.done@.len(),
        ensures
            arm == self@.arm_at(self@.cursor),
            arm < self.done@.len(),
    {
        let n = self.done.len();
        if self.cursor < n - self.start {
            self.start + self.cursor
        } else {
            self.cursor - (n - self.start)
        }
    }

    fn reset(&mut self)
        requires
            old(self).wf(),
        ensures
            final(self).wf(),
            final(self)@ == old(self)@.reset(),
    {
        self.cursor = 0;
        match self.strategy {
            Strategy::RoundRobin => {
                if self.start < self.done.len() && self.start + 1 < self.done.len() {
                    self.start = self.start + 1;
                } else {
                    self.start = 0;
                }
            },
            Strategy::Priority => {},
        }
    }

    /// Between two cycles, puts `arm` first for the next cycle; this is how a
    /// strategy of the caller's own has its say. Returns whether it did: in
    /// the middle of a cycle, and for an arm that does not exist, nothing
    /// changes.
    pub fn prefer(&mut self, arm: usize) -> (changed: bool)
        requires
            old(self).wf(),
        ensures
            final(self).wf(),
            final(self)@ == old(self)@.prefer(arm as nat),
            changed == (old(self)@.cursor == 0 && arm < old(self)@.arms()),
    {
        if self.cursor == 0 && arm < self.done.len() {
            self.start = arm;
            true
        } else {
            false
        }
    }

    /// Decides what the multiplexer does next: poll an arm, or end the call
    /// with `Pending` or with the end of the whole.
    pub fn turn(&mut self) -> (t: Turn)
        requires
            old(self).wf(),
        ensures
            final(self).wf(),
            final(self)@ == old(self)@.turn().0,
            t == old(self)@.turn().1,
    {
        if self.is_ended() {
            return Turn::Ended;
        }
        let n = self.done.len();
        proof {
            self@.lemma_skip();
        }
        while self.cursor < n && self.done[self.arm_here()]
            invariant
                self.wf(),
                n == self.done@.len(),
                self@.skip() == old(self)@.skip(),
                self@.done == old(self)@.done,
            decreases n - self.cursor,
        {
            self.cursor = self.cursor + 1;
        }
        if self.cursor >= n {
            assert(self@ == old(self)@.skip());
            self.reset();
            Turn::Pending
        } else {
            assert(self@ == old(self)@.skip());
            Turn::Poll(self.arm_here())
        }
    }

    /// Records the answer of the arm that `turn` said to poll, as `answer`
    /// does with its signal.
    pub fn record<T>(&mut self, answer: &Poll<Option<T>>) -> (yielded: bool)
        requires
            old(self).wf(),
        ensures
            final(self).wf(),
            final(self)@ == old(self)@.answer(signal_of(*answer)),
            yielded == (signal_of(*answer) == Signal::Item && old(self)@.cursor < old(self)@.arms()),
    {
        match answer {
            Poll::Ready(Some(_)) => self.answer(Signal::Item),
            Poll::Ready(None) => self.answer(Signal::End),
            Poll::Pending => self.answer(Signal::Pending),
        }
    }

    /// Records what the arm that `turn` said to poll answered. Returns
    /// whether the answer was an item, which ends the cycle.
    pub fn answer(&mut self, sig: Signal) -> (yielded: bool)
        requires
            old(self).wf(),
        ensures
            final(self).wf(),
            final(self)@ == old(self)@.answer(sig),
            yielded == (sig == Signal::Item && old(self)@.cursor < old(self)@.arms()),
    {
        if self.cursor >= self.done.len() {
            return false;
        }
        proof {
            self@.lemma_answer_wf(sig);
        }
        let arm = self.arm_here();
        match sig {
            Signal::Item => {
                self.reset();
                true
            },
            Signal::Pending => {
                self.cursor = self.cursor + 1;
                false
            },
            Signal::End => {
                if !self.done[arm] {
                    proof {
                        lemma_count_update(self.done@, arm as int);
                        lemma_count_true(self.done@.update(arm as int, true));
                    }
                    self.done.set(arm, true);
                    self.ended_arms = self.ended_arms + 1;
                } else {
                    proof {
                        assert(self.done@.update(arm as int, true) =~= self.done@);
                    }
                }
                self.cursor = self.cursor + 1;
                false
            },
        }
    }
}

/// The signal that the answer `p` of an arm stands for.
pub open spec fn signal_of<T>(p: Poll<Option<T>>) -> Signal {
    match p {
        Poll::Ready(Some(_)) => Signal::Item,
        Poll::Ready(None) => Signal::End,
        Poll::Pending => Signal::Pending,
    }
}

/// The two arms of [`Select`].
#[derive(Clone, Copy, PartialEq, Eq, Structural, Debug)]
pub enum Arm {
    Left,
    Right,
}

impl Arm {
    pub open spec fn index(self) -> usize {
        match self {
            Arm::Left => 0,
            Arm::Right => 1,
        }
    }

    pub open spec fn opposite(self) -> Arm {
        match self {
            Arm::Left => Arm::Right,
            Arm::Right => Arm::Left,
        }
    }

    /// The other arm.
    pub fn other(self) -> (o: Arm)
        ensures
            o == self.opposite(),
    {
        match self {
            Arm::Left => Arm::Right,
            Arm::Right => Arm::Left,
        }
    }
}

/// The verdict that the result `r` of a two-arm multiplexer stands for.
pub open spec fn verdict_of_pair<T>(r: Poll<Option<(Arm, T)>>) -> Turn {
    match r {
        Poll::Ready(Some((arm, _))) => Turn::Yield(arm.index()),
        Poll::Ready(None) => Turn::Ended,
        Poll::Pending => Turn::Pending,
    }
}

/// The verdict that the result `r` of a many-arm multiplexer stands for.
pub open spec fn verdict_of<T>(r: Poll<Option<(usize, T)>>) -> Turn {
    match r {
        Poll::Ready(Some((arm, _))) => Turn::Yield(arm),
        Poll::Ready(None) => Turn::Ended,
        Poll::Pending => Turn::Pending,
    }
}

/// Two sequences of the same item type polled as one.
pub struct Select<A, B> {
    left: A,
    right: B,
    arbiter: Arbiter,
}

impl<A: Sequence, B: Sequence<Item = A::Item>> Select<A, B> {
    /// The bookkeeping of this multiplexer; the left arm has index 0, the
    /// right arm index 1.
    pub closed spec fn arbiter(&self) -> ArbiterView {
        self.arbiter@
    }

    /// The left arm.
    pub closed spec fn left(&self) -> A {
        self.left
    }

    /// The right arm.
    pub closed spec fn right(&self) -> B {
        self.right
    }

    pub closed spec fn wf(&self) -> bool {
        &&& self.arbiter.wf()
        &&& self.arbiter@.arms() == 2
    }

    pub proof fn lemma_arbiter_wf(&self)
        requires
            self.wf(),
        ensures
            self.arbiter().wf(),
            self.arbiter().arms() == 2,
    {
    }

    /// What one call does: the arbiter plays the cycle that came back with
    /// `sigs`, and an arm that the cycle did not poll is as it was.
    pub open spec fn cycle(
        &self,
        sigs: Seq<Signal>,
        end: &Self,
        r: Poll<Option<(Arm, A::Item)>>,
    ) -> bool {
        &&& self.arbiter().plays(sigs, end.arbiter(), verdict_of_pair(r))
        &&& !self.arbiter().polled(sigs, 0) ==> end.left() == self.left()
        &&& !self.arbiter().polled(sigs, 1) ==> end.right() == self.right()
    }

    /// Joins two sequences, neither of which has ended: `left` as the left
    /// arm, `right` as the right arm.
    pub fn new(left: A, right: B, strategy: Strategy, ending: Ending) -> (s: Self)
        ensures
            s.wf(),
            s.arbiter() == ArbiterView::fresh(2, strategy, ending),
            s.left() == left,
            s.right() == right,
    {
        Select { left, right, arbiter: Arbiter::new(2, strategy, ending) }
    }

    /// Whether the multiplexer has ended.
    pub fn is_ended(&self) -> (e: bool)
        requires
            self.wf(),
        ensures
            e == self.arbiter().ended(),
    {
        self.arbiter.is_ended()
    }

    /// Between two cycles, puts `arm` first for the next cycle; see
    /// [`Arbiter::prefer`].
    pub fn prefer(&mut self, arm: Arm) -> (changed: bool)
        requires
            old(self).wf(),
        ensures
            final(self).wf(),
            final(self).arbiter() == old(self).arbiter().prefer(arm.index() as nat),
            changed == (old(self).arbiter().cursor == 0),
            final(self).left() == old(self).left(),
            final(self).right() == old(self).right(),
    {
        let index: usize = match arm {
            Arm::Left => 0,
            Arm::Right => 1,
        };
        self.arbiter.prefer(index)
    }

    /// Polls the arm with the index `arm` and leaves the other arm and the
    /// bookkeeping alone.
    fn poll_arm(&mut self, arm: usize, cx: &mut Context) -> (r: Poll<Option<A::Item>>)
        requires
            arm < 2,
        ensures
            final(self).arbiter == old(self).arbiter,
            arm == 0 ==> final(self).right == old(self).right,
            arm == 1 ==> final(self).left == old(self).left,
    {
        if arm == 0 {
            self.left.poll_next(cx)
        } else {
            self.right.poll_next(cx)
        }
    }

    /// One cycle: polls the arms that have not ended, the strategy's choice
    /// first, and returns the first item found with the arm it came from;
    /// `Ready(None)` once the multiplexer has ended, and `Pending` if no arm
    /// had an item.
    pub fn poll_next(&mut self, cx: &mut Context) -> (r: Poll<Option<(Arm, A::Item)>>)
        requires
            old(self).wf(),
        ensures
            final(self).wf(),
            exists|sigs: Seq<Signal>| old(self).cycle(sigs, final(self), r),
    {
        let ghost start = self.arbiter@;
        let ghost mut sigs: Seq<Signal> = Seq::empty();
        loop
            invariant
                self.wf(),
                start == old(self).arbiter(),
                self.arbiter@ == start.after(sigs),
                forall|k: int|
                    0 <= k < sigs.len() ==> (#[trigger] start.after(sigs.take(k))).turn().1 is Poll,
                forall|k: int| 0 <= k < sigs.len() ==> #[trigger] sigs[k] != Signal::Item,
                !start.polled(sigs, 0) ==> self.left == old(self).left,
                !start.polled(sigs, 1) ==> self.right == old(self).right,
            decreases self.arbiter@.arms() - self.arbiter@.cursor,
        {
            proof {
                self.arbiter@.lemma_turn_wf();
            }
            let arm = match self.arbiter.turn() {
                Turn::Poll(arm) => arm,
                Turn::Pending => {
                    proof {
                        assert(old(self).cycle(sigs, self, Poll::Pending));
                    }
                    return Poll::Pending;
                },
                _ => {
                    proof {
                        assert(old(self).cycle(sigs, self, Poll::Ready(None)));
                    }
                    return Poll::Ready(None);
                },
            };
            let answer = self.poll_arm(arm, cx);
            proof {
                self.arbiter@.lemma_answer_wf(signal_of(answer));
                start.lemma_one_more(sigs, signal_of(answer));
                sigs = sigs.push(signal_of(answer));
            }
            let _ = self.arbiter.record(&answer);
            match answer {
                Poll::Ready(Some(item)) => {
                    let side = if arm == 0 {
                        Arm::Left
                    } else {
                        Arm::Right
                    };
                    proof {
                        assert(old(self).cycle(sigs, self, Poll::Ready(Some((side, item)))));
                    }
                    return Poll::Ready(Some((side, item)));
                },
                _ => {},
            }
        }
    }
}

/// Any number of sequences of one type polled as one.
pub struct SelectAll<S> {
    arms: Vec<S>,
    arbiter: Arbiter,
}

impl<S: Sequence> SelectAll<S> {
    /// The bookkeeping of this multiplexer.
    pub closed spec fn arbiter(&self) -> ArbiterView {
        self.arbiter@
    }

    /// The arms, each at its index.
    pub closed spec fn arms(&self) -> Seq<S> {
        self.arms@
    }

    pub closed spec fn wf(&self) -> bool {
        &&& self.arbiter.wf()
        &&& self.arbiter@.arms() == self.arms@.len()
    }

    pub proof fn lemma_arbiter_wf(&self)
        requires
            self.wf(),
        ensures
            self.arbiter().wf(),
            self.arbiter().arms() == self.arms().len(),
    {
    }

    /// What one call does: the arbiter plays the cycle that came back with
    /// `sigs`, and an arm that the cycle did not poll is as it was.
    pub open spec fn cycle(
        &self,
        sigs: Seq<Signal>,
        end: &Self,
        r: Poll<Option<(usize, S::Item)>>,
    ) -> bool {
        &&& self.arbiter().plays(sigs, end.arbiter(), verdict_of(r))
        &&& end.arms().len() == self.arms().len()
        &&& forall|i: nat|
            i < self.arms().len() && !(#[trigger] self.arbiter().polled(sigs, i)) ==> end.arms()[i as int]
                == self.arms()[i as int]
    }

    /// Joins the sequences of `arms`, none of which has ended; the index of
    /// an arm is its place in `arms`.
    pub fn new(arms: Vec<S>, strategy: Strategy, ending: Ending) -> (s: Self)
        ensures
            s.wf(),
            s.arbiter() == ArbiterView::fresh(arms@.len(), strategy, ending),
            s.arms() == arms@,
    {
        let arbiter = Arbiter::new(arms.len(), strategy, ending);
        SelectAll { arms, arbiter }
    }

    /// Whether the multiplexer has ended.
    pub fn is_ended(&self) -> (e: bool)
        requires
            self.wf(),
        ensures
            e == self.arbiter().ended(),
    {
        self.arbiter.is_ended()
    }

    /// Between two cycles, puts `arm` first for the next cycle; see
    /// [`Arbiter::prefer`].
    pub fn prefer(&mut self, arm: usize) -> (changed: bool)
        requires
            old(self).wf(),
        ensures
            final(self).wf(),
            final(self).arbiter() == old(self).arbiter().prefer(arm as nat),
            changed == (old(self).arbiter().cursor == 0 && arm < old(self).arbiter().arms()),
            final(self).arms() == old(self).arms(),
    {
        self.arbiter.prefer(arm)
    }

    /// Polls the arm with the index `arm` and leaves the other arms and the
    /// bookkeeping alone.
    fn poll_arm(&mut self, arm: usize, cx: &mut Context) -> (r: Poll<Option<S::Item>>)
        requires
            arm < old(self).arms@.len(),
        ensures
            final(self).arbiter == old(self).arbiter,
            final(self).arms@.len() == old(self).arms@.len(),
            forall|i: int|
                0 <= i < old(self).arms@.len() && i != arm ==> final(self).arms@[i] == old(
                    self,
                ).arms@[i],
    {
        self.arms[arm].poll_next(cx)
    }

    /// One cycle: polls the arms that have not ended, the strategy's choice
    /// first, and returns the first item found with the index of the arm it
    /// came from; `Ready(None)` once the multiplexer has ended, and `Pending`
    /// if no arm had an item.
    pub fn poll_next(&mut self, cx: &mut Context) -> (r: Poll<Option<(usize, S::Item)>>)
        requires
            old(self).wf(),
        ensures
            final(self).wf(),
            exists|sigs: Seq<Signal>| old(self).cycle(sigs, final(self), r),
    {
        let ghost start = self.arbiter@;
        let ghost mut sigs: Seq<Signal> = Seq::empty();
        loop
            invariant
                self.wf(),
                start == old(self).arbiter(),
                self.arbiter@ == start.after(sigs),
                forall|k: int|
                    0 <= k < sigs.len() ==> (#[trigger] start.after(sigs.take(k))).turn().1 is Poll,
                forall|k: int| 0 <= k < sigs.len() ==> #[trigger] sigs[k] != Signal::Item,
                self.arms@.len() == old(self).arms@.len(),
                forall|i: nat|
                    i < self.arms@.len() && !(#[trigger] start.polled(sigs, i)) ==> self.arms@[i as int]
                        == old(self).arms@[i as int],
            decreases self.arbiter@.arms() - self.arbiter@.cursor,
        {
            proof {
                self.arbiter@.lemma_turn_wf();
            }
            let arm = match self.arbiter.turn() {
                Turn::Poll(arm) => arm,
                Turn::Pending => {
                    proof {
                        assert(old(self).cycle(sigs, self, Poll::Pending));
                    }
                    return Poll::Pending;
                },
                _ => {
                    proof {
                        assert(old(self).cycle(sigs, self, Poll::Ready(None)));
                    }
                    return Poll::Ready(None);
                },
            };
            let answer = self.poll_arm(arm, cx);
            proof {
                self.arbiter@.lemma_answer_wf(signal_of(answer));
                start.lemma_one_more(sigs, signal_of(answer));
                sigs = sigs.push(signal_of(answer));
            }
            let _ = self.arbiter.record(&answer);
            match answer {
                Poll::Ready(Some(item)) => {
                    proof {
                        assert(old(self).cycle(sigs, self, Poll::Ready(Some((arm, item)))));
                    }
                    return Poll::Ready(Some((arm, item)));
                },
                _ => {},
            }
        }
    }
}

} // verus!
