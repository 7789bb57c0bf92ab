//! The bounded concurrency pipeline: units are pulled from an input
//! sequence only while the number of units in progress is below a limit,
//! driven together, and their results handed on, in completion order or in
//! the order in which the units were admitted.

use vstd::prelude::*;
use crate::poll::Context;
use crate::poll::Fuse;
use crate::poll::Poll;
use crate::poll::Sequence;
use crate::poll::Unit;
use crate::reorder::BufferView;
use crate::reorder::ReorderBuffer;
use crate::task_set::Outcome;
use crate::task_set::TaskSet;
use crate::task_set::TaskSetView;
use crate::wake::WakeToken;

verus! {

/// How many units may be in progress at once.
#[derive(Clone, Copy, PartialEq, Eq, Structural, Debug)]
pub enum Limit {
    /// Any number: every unit is admitted as soon as the input gives it.
    Unlimited,
    /// At most this many; the number is positive.
    AtMost(usize),
}

impl Limit {
    pub open spec fn valid(self) -> bool {
        match self {
            Limit::AtMost(n) => n > 0,
            Limit::Unlimited => true,
        }
    }

    /// Whether `in_flight` units in progress are within the limit.
    pub open spec fn allows(self, in_flight: nat) -> bool {
        match self {
            Limit::AtMost(n) => in_flight <= n,
            Limit::Unlimited => true,
        }
    }

    /// Whether one more unit may be admitted beside `in_flight` in progress.
    pub open spec fn has_room(self, in_flight: nat) -> bool {
        match self {
            Limit::AtMost(n) => in_flight < n,
            Limit::Unlimited => true,
        }
    }

    pub fn is_valid(&self) -> (v: bool)
        ensures
            v == self.valid(),
    {
        match self {
            Limit::AtMost(n) => *n > 0,
            Limit::Unlimited => true,
        }
    }

    pub fn admits(&self, in_flight: usize) -> (b: bool)
        ensures
            b == self.has_room(in_flight as nat),
    {
        match self {
            Limit::AtMost(n) => in_flight < *n,
            Limit::Unlimited => true,
        }
    }
}

/// The order in which results are handed on.
#[derive(Clone, Copy, PartialEq, Eq, Structural, Debug)]
pub enum Order {
    /// As the units complete.
    Completion,
    /// As the units were admitted, whatever the order in which they complete.
    Admission,
}

/// The pipeline as a mathematical value, with its history. Units are
/// numbered 0, 1, 2 and so on as they are admitted.
pub struct PipelineView<T> {
    pub limit: Limit,
    pub order: Order,
    /// How many units have been admitted so far.
    pub admitted: nat,
    /// How many admitted units have not completed yet.
    pub in_flight: nat,
    /// Whether the input sequence has signalled its end.
    pub source_done: bool,
    /// The result of each unit that has completed, by admission number.
    pub results: Map<nat, T>,
    /// The admission numbers of the units that have completed, in the order
    /// in which they did.
    pub completed: Seq<nat>,
    /// The results handed on so far, in the order in which they were.
    pub released: Seq<T>,
    /// In admission order: the number of the unit whose result is handed on
    /// next.
    pub next_out: nat,
}

impl<T> PipelineView<T> {
    pub open spec fn fresh(limit: Limit, order: Order) -> Self {
        PipelineView {
            limit,
            order,
            admitted: 0,
            in_flight: 0,
            source_done: false,
            results: Map::empty(),
            completed: Seq::empty(),
            released: Seq::empty(),
            next_out: 0,
        }
    }

    pub open spec fn wf(self) -> bool {
        &&& self.limit.valid()
        &&& self.limit.allows(self.in_flight)
        &&& self.next_out <= self.admitted
        &&& forall|s: nat| #[trigger] self.results.dom().contains(s) ==> s < self.admitted
        &&& self.completed.no_duplicates()
        &&& forall|s: nat|
            #![trigger self.completed.contains(s)]
            #![trigger self.results.dom().contains(s)]
            self.completed.contains(s) <==> self.results.dom().contains(s)
        &&& match self.order {
            Order::Admission => {
                &&& self.released.len() == self.next_out
                &&& forall|i: nat|
                    i < self.next_out ==> #[trigger] self.results.dom().contains(i)
                        && self.released[i as int] == self.results[i]
            },
            Order::Completion => {
                &&& self.released.len() == self.completed.len()
                &&& self.next_out == 0
                &&& forall|i: int|
                    0 <= i < self.completed.len() ==> #[trigger] self.released[i]
                        == self.results[self.completed[i]]
            },
        }
    }

    /// The pipeline is finished: the input has ended, every admitted unit
    /// has completed, and every result has been handed on.
    pub open spec fn finished(self) -> bool {
        &&& self.source_done
        &&& self.in_flight == 0
        &&& forall|s: nat| s < self.admitted ==> #[trigger] self.results.dom().contains(s)
        &&& self.order == Order::Admission ==> self.next_out == self.admitted
    }

    /// Whether one more unit may be admitted: the limit has room, and the
    /// admission numbers have not run out.
    pub open spec fn has_room(self) -> bool {
        self.limit.has_room(self.in_flight) && self.admitted < u64::MAX
    }

    /// A unit is admitted, under the number `self.admitted`.
    pub open spec fn enter(self) -> Self {
        PipelineView { admitted: self.admitted + 1, in_flight: self.in_flight + 1, ..self }
    }

    /// In admission order, the result that is next in line, if it is there.
    pub open spec fn ready(self) -> Option<T> {
        match self.order {
            Order::Admission => if self.results.dom().contains(self.next_out) {
                Some(self.results[self.next_out])
            } else {
                None
            },
            Order::Completion => None,
        }
    }

    /// The result that is next in line, if it is there, is handed on.
    pub open spec fn take(self) -> Self {
        match self.ready() {
            Some(x) => PipelineView {
                released: self.released.push(x),
                next_out: self.next_out + 1,
                ..self
            },
            None => self,
        }
    }

    /// The unit admitted under `seq` yields `value`; in completion order the
    /// value is handed on at once.
    pub open spec fn complete(self, seq: nat, value: T) -> Self {
        PipelineView {
            in_flight: (self.in_flight - 1) as nat,
            results: self.results.insert(seq, value),
            completed: self.completed.push(seq),
            released: match self.order {
                Order::Completion => self.released.push(value),
                Order::Admission => self.released,
            },
            ..self
        }
    }

    /// What is handed on when the unit admitted under `seq` yields `value`.
    pub open spec fn handed(self, seq: nat, value: T) -> Option<T> {
        match self.order {
            Order::Completion => Some(value),
            Order::Admission => self.complete(seq, value).ready(),
        }
    }

    /// The unit admitted under `seq` yields `value`, and what the order
    /// allows is handed on.
    pub open spec fn settle(self, seq: nat, value: T) -> Self {
        self.complete(seq, value).take()
    }

    /// A completion only adds to the history.
    pub proof fn lemma_settle_extends(self, seq: nat, value: T)
        requires
            !self.results.dom().contains(seq),
        ensures
            self.settle(seq, value).extends(self),
            self.complete(seq, value).extends(self),
            match self.handed(seq, value) {
                Some(x) => self.settle(seq, value).released == self.released.push(x),
                None => self.settle(seq, value).released == self.released,
            },
    {
        let c = self.complete(seq, value);
        assert(self.completed =~= c.completed.subrange(0, self.completed.len() as int));
        assert(self.released =~= c.released.subrange(0, self.released.len() as int));
        let t = c.take();
        assert(self.released =~= t.released.subrange(0, self.released.len() as int));
    }

    /// Handing on a result only adds to the history.
    pub proof fn lemma_take_extends(self)
        ensures
            self.take().extends(self),
            match self.ready() {
                Some(x) => self.take().released == self.released.push(x),
                None => self.take() == self,
            },
    {
        let t = self.take();
        assert(self.released =~= t.released.subrange(0, self.released.len() as int));
        assert(self.completed =~= t.completed.subrange(0, self.completed.len() as int));
    }

    /// What a call of the driver may change: the history only grows.
    pub open spec fn extends(self, before: Self) -> bool {
        &&& self.limit == before.limit
        &&& self.order == before.order
        &&& before.admitted <= self.admitted
        &&& before.results.submap_of(self.results)
        &&& before.completed.is_prefix_of(self.completed)
        &&& before.released.is_prefix_of(self.released)
        &&& before.next_out <= self.next_out
        &&& before.source_done ==> self.source_done && self.admitted == before.admitted
    }

    /// A history that grew twice has grown.
    pub proof fn lemma_extends_twice(self, middle: Self, before: Self)
        requires
            self.extends(middle),
            middle.extends(before),
        ensures
            self.extends(before),
    {
        vstd::map_lib::lemma_submap_of_trans(before.results, middle.results, self.results);
        assert(before.completed =~= self.completed.subrange(0, before.completed.len() as int)) by {
            assert forall|i: int| 0 <= i < before.completed.len() implies before.completed[i]
                == self.completed[i] by {
                assert(before.completed[i] == middle.completed.subrange(
                    0,
                    before.completed.len() as int,
                )[i]);
                assert(middle.completed[i] == self.completed.subrange(
                    0,
                    middle.completed.len() as int,
                )[i]);
            }
        }
        assert(before.released =~= self.released.subrange(0, before.released.len() as int)) by {
            assert forall|i: int| 0 <= i < before.released.len() implies before.released[i]
                == self.released[i] by {
                assert(before.released[i] == middle.released.subrange(
                    0,
                    before.released.len() as int,
                )[i]);
                assert(middle.released[i] == self.released.subrange(
                    0,
                    middle.released.len() as int,
                )[i]);
            }
        }
    }

    /// In admission order, the results handed on are those of the units
    /// 0, 1, 2 and so on, whatever the order in which the units completed.
    pub proof fn lemma_released_in_admission_order(self)
        requires
            self.wf(),
            self.order == Order::Admission,
        ensures
            forall|i: nat|
                i < self.released.len() ==> #[trigger] self.results.dom().contains(i)
                    && self.released[i as int] == self.results[i],
    {
    }

    /// In completion order, the results handed on are those of the units in
    /// the order in which they completed.
    pub proof fn lemma_released_in_completion_order(self)
        requires
            self.wf(),
            self.order == Order::Completion,
        ensures
            self.released.len() == self.completed.len(),
            forall|i: int|
                0 <= i < self.released.len() ==> self.results.dom().contains(
                    #[trigger] self.completed[i],
                ) && self.released[i] == self.results[self.completed[i]],
    {
        assert forall|i: int| 0 <= i < self.released.len() implies self.results.dom().contains(
            #[trigger] self.completed[i],
        ) && self.released[i] == self.results[self.completed[i]] by {
            assert(self.completed.contains(self.completed[i]));
        }
    }

    /// The number of units in progress never exceeds the limit.
    pub proof fn lemma_within_limit(self)
        requires
            self.wf(),
        ensures
            self.limit matches Limit::AtMost(n) ==> self.in_flight <= n,
    {
    }
}

impl<T> PipelineView<T> {
    /// With fewer units in progress, and the input further on or not, the
    /// pipeline is as well formed as before.
    pub proof fn lemma_wf_with_fewer(self, before: Self)
        requires
            before.wf(),
            self.in_flight <= before.in_flight,
            self == (PipelineView {
                in_flight: self.in_flight,
                source_done: self.source_done,
                ..before
            }),
        ensures
            self.wf(),
    {
        assert forall|s: nat| #[trigger] self.results.dom().contains(s) implies s
            < self.admitted by {
            assert(before.results.dom().contains(s));
        }
    }

    /// The same pipeline, with the input at its end or not.
    pub open spec fn with_done(self, done: bool) -> Self {
        PipelineView { source_done: done, ..self }
    }
}

/// The pipeline together with the units in progress and their admission
/// numbers.
pub struct PipelineState<U, T> {
    pub view: PipelineView<T>,
    /// The units in progress.
    pub members: TaskSetView<U>,
    /// The admission number of each unit in progress.
    pub numbers: Map<WakeToken, nat>,
}

impl<U, T> PipelineState<U, T> {
    pub open spec fn with_done(self, done: bool) -> Self {
        PipelineState { view: self.view.with_done(done), ..self }
    }

    pub open spec fn with_parent(self, parent: Option<WakeToken>) -> Self {
        PipelineState { members: self.members.with_parent(parent), ..self }
    }

    /// Whether `unit` may be admitted and given the handle `t`.
    pub open spec fn can_enter(self, t: WakeToken) -> bool {
        self.view.has_room() && self.members.wake.is_fresh(t)
    }

    /// `unit` is admitted under the next number and given the handle `t`.
    pub open spec fn enter(self, t: WakeToken, unit: U) -> Self {
        PipelineState {
            view: self.view.enter(),
            members: self.members.insert(t, unit),
            numbers: self.numbers.insert(t, self.view.admitted),
        }
    }

    /// The units `given` are admitted one after the other, in this order.
    pub open spec fn enter_all(self, tokens: Seq<WakeToken>, given: Seq<U>) -> Self
        decreases given.len(),
    {
        if given.len() == 0 || tokens.len() != given.len() {
            self
        } else {
            self.enter_all(tokens.drop_last(), given.drop_last()).enter(
                tokens.last(),
                given.last(),
            )
        }
    }

    /// Whether each of the units `given` could be admitted when its turn
    /// came: there was room for it.
    pub open spec fn can_enter_all(self, tokens: Seq<WakeToken>, given: Seq<U>) -> bool
        decreases given.len(),
    {
        tokens.len() == given.len() && (given.len() == 0 || (self.can_enter_all(
            tokens.drop_last(),
            given.drop_last(),
        ) && self.enter_all(tokens.drop_last(), given.drop_last()).can_enter(tokens.last())))
    }

    /// The result that is next in line, if it is there, is handed on.
    pub open spec fn take(self) -> Self {
        PipelineState { view: self.view.take(), ..self }
    }

    /// What is handed on when the unit at the head of the ready queue is
    /// polled and answers `o`.
    pub open spec fn handed(self, o: Outcome<U, T>) -> Option<T> {
        match o {
            Outcome::Ready { value } => self.view.handed(
                self.numbers[self.members.wake.queue[0]],
                value,
            ),
            Outcome::Pending { .. } => None,
        }
    }

    /// The unit at the head of the ready queue is polled and answers `o`: a
    /// value is recorded under the unit's admission number.
    pub open spec fn step(self, o: Outcome<U, T>) -> Self {
        let t = self.members.wake.queue[0];
        match o {
            Outcome::Ready { value } => PipelineState {
                view: self.view.settle(self.numbers[t], value),
                members: self.members.step(o),
                numbers: self.numbers.remove(t),
            },
            Outcome::Pending { .. } => PipelineState { members: self.members.step(o), ..self },
        }
    }

    /// One poll after another, each of the head of the ready queue.
    pub open spec fn run(self, outs: Seq<Outcome<U, T>>) -> Self
        decreases outs.len(),
    {
        if outs.len() == 0 {
            self
        } else {
            self.run(outs.drop_last()).step(outs.last())
        }
    }

    /// Whether each of the polls found a unit queued and handed nothing on.
    pub open spec fn quiet(self, outs: Seq<Outcome<U, T>>) -> bool
        decreases outs.len(),
    {
        outs.len() == 0 || {
            &&& self.quiet(outs.drop_last())
            &&& self.run(outs.drop_last()).members.wake.queue.len() > 0
            &&& self.run(outs.drop_last()).handed(outs.last()) is None
        }
    }

    /// Whether each of the polls found a unit queued and none but the last
    /// handed a result on.
    pub open spec fn can_run(self, outs: Seq<Outcome<U, T>>) -> bool {
        outs.len() == 0 || {
            &&& self.quiet(outs.drop_last())
            &&& self.run(outs.drop_last()).members.wake.queue.len() > 0
        }
    }

    /// The first part of a call of the driver: the input gave the units
    /// `given`, which were admitted in this order under the handles
    /// `tokens`, each while there was room; `entered` is the state after.
    /// Where the input had ended before, it was not asked.
    pub open spec fn fills(self, tokens: Seq<WakeToken>, given: Seq<U>, entered: Self) -> bool {
        &&& self.can_enter_all(tokens, given)
        &&& self.view.source_done ==> entered.view.source_done && given.len() == 0
        &&& entered == self.enter_all(tokens, given).with_done(entered.view.source_done)
    }

    /// The last part of a call of the driver, where no result is next in
    /// line: the units in progress were polled, the head of the ready queue
    /// each time, and the polls came back with `outs`. Each value was
    /// recorded under its unit's admission number, and the call ended with
    /// the first result that the order allowed to hand on. Without one, it
    /// ended when the set of units in progress had nothing more to poll:
    /// with the end of the whole or `Pending` where no unit is in progress,
    /// and with `Pending` and the caller's handle `driver` kept where some
    /// are. In that last case the last `last` polls were one for each unit
    /// that was queued when they began, and each answered `Pending`.
    pub open spec fn drains(
        self,
        outs: Seq<Outcome<U, T>>,
        last: nat,
        driver: WakeToken,
        after: Self,
        r: Poll<Option<T>>,
    ) -> bool {
        let ran = self.run(outs);
        &&& self.can_run(outs)
        &&& if outs.len() > 0 && self.run(outs.drop_last()).handed(outs.last()) is Some {
            &&& r == Poll::Ready(self.run(outs.drop_last()).handed(outs.last()))
            &&& after == ran
        } else if ran.members.len() == 0 {
            &&& r == (if self.view.source_done {
                Poll::<Option<T>>::Ready(None)
            } else {
                Poll::<Option<T>>::Pending
            })
            &&& after == ran
        } else {
            &&& r == Poll::<Option<T>>::Pending
            &&& after == ran.with_parent(Some(driver))
            &&& last <= outs.len()
            &&& last == self.run(outs.take(outs.len() - last)).members.wake.queue.len()
            &&& forall|k: int| outs.len() - last <= k < outs.len() ==> #[trigger] outs[k] is Pending
        }
    }

    /// What one call of the driver does: it admits what the input gives, as
    /// `fills` says; then it hands on the result that is next in line, if
    /// one is there, and polls the units in progress otherwise, as `drains`
    /// says. `driver` is the caller's wake handle, `after` the state after
    /// the call and `r` its result.
    pub open spec fn drives(
        self,
        tokens: Seq<WakeToken>,
        given: Seq<U>,
        outs: Seq<Outcome<U, T>>,
        last: nat,
        driver: WakeToken,
        after: Self,
        r: Poll<Option<T>>,
    ) -> bool {
        let entered = self.enter_all(tokens, given).with_done(after.view.source_done);
        &&& self.fills(tokens, given, entered)
        &&& match entered.view.ready() {
            Some(x) => {
                &&& outs.len() == 0
                &&& r == Poll::Ready(Some(x))
                &&& after == entered.take()
            },
            None => entered.drains(outs, last, driver, after, r),
        }
    }

    pub proof fn lemma_enter_one_more(self, tokens: Seq<WakeToken>, given: Seq<U>, t: WakeToken, unit: U)
        requires
            tokens.len() == given.len(),
        ensures
            self.enter_all(tokens.push(t), given.push(unit)) == self.enter_all(tokens, given).enter(
                t,
                unit,
            ),
            self.can_enter_all(tokens.push(t), given.push(unit)) == (self.can_enter_all(
                tokens,
                given,
            ) && self.enter_all(tokens, given).can_enter(t)),
    {
        assert(tokens.push(t).drop_last() =~= tokens);
        assert(given.push(unit).drop_last() =~= given);
    }

    pub proof fn lemma_quiet_can_run(self, outs: Seq<Outcome<U, T>>)
        requires
            self.quiet(outs),
        ensures
            self.can_run(outs),
            outs.len() > 0 ==> self.run(outs.drop_last()).handed(outs.last()) is None,
    {
    }

    /// Polls do not touch the input.
    pub proof fn lemma_run_done(self, outs: Seq<Outcome<U, T>>)
        ensures
            self.run(outs).view.source_done == self.view.source_done,
            self.run(outs).with_parent(None).view.source_done == self.view.source_done,
        decreases outs.len(),
    {
        if outs.len() > 0 {
            self.lemma_run_done(outs.drop_last());
        }
    }

    pub proof fn lemma_run_concat(self, a: Seq<Outcome<U, T>>, b: Seq<Outcome<U, T>>)
        ensures
            self.run(a + b) == self.run(a).run(b),
        decreases b.len(),
    {
        if b.len() == 0 {
            assert(a + b =~= a);
        } else {
            assert((a + b).drop_last() =~= a + b.drop_last());
            self.lemma_run_concat(a, b.drop_last());
        }
    }

    pub proof fn lemma_quiet_concat(self, a: Seq<Outcome<U, T>>, b: Seq<Outcome<U, T>>)
        requires
            self.quiet(a),
            self.run(a).quiet(b),
        ensures
            self.quiet(a + b),
        decreases b.len(),
    {
        if b.len() == 0 {
            assert(a + b =~= a);
        } else {
            assert((a + b).drop_last() =~= a + b.drop_last());
            self.lemma_quiet_concat(a, b.drop_last());
            self.lemma_run_concat(a, b.drop_last());
        }
    }

    /// A round of polls of which the last, and only the last, answers with a
    /// value, added to the polls `outs` that handed nothing on.
    pub proof fn lemma_round_with_value(
        self,
        outs: Seq<Outcome<U, T>>,
        round: Seq<Outcome<U, T>>,
        value: T,
    )
        requires
            self.quiet(outs),
            self.run(outs).members.wf(),
            0 < round.len() <= self.run(outs).members.wake.queue.len(),
            forall|k: int| 0 <= k < round.len() - 1 ==> #[trigger] round[k] is Pending,
            round.last() == (Outcome::<U, T>::Ready { value }),
        ensures
            ({
                let before = self.run(outs);
                let t = before.members.run(round.drop_last()).wake.queue[0];
                let all = outs + round;
                &&& self.run(all) == (PipelineState {
                    view: before.view.settle(before.numbers[t], value),
                    members: before.members.run(round),
                    numbers: before.numbers.remove(t),
                })
                &&& self.can_run(all)
                &&& all.len() > 0
                &&& self.run(all.drop_last()).handed(all.last()) == before.view.handed(
                    before.numbers[t],
                    value,
                )
                &&& before.view.handed(before.numbers[t], value) is None ==> self.quiet(all)
            }),
    {
        let before = self.run(outs);
        let front = round.drop_last();
        let all = outs + round;
        assert forall|k: int| 0 <= k < front.len() implies #[trigger] front[k] is Pending by {
            assert(round[k] is Pending);
        }
        before.lemma_pending_run(front);
        before.members.lemma_served_in_turn(front);
        self.lemma_run_concat(outs, round);
        self.lemma_run_concat(outs, front);
        self.lemma_quiet_concat(outs, front);
        assert(all.drop_last() =~= outs + front);
        assert(all.last() == round.last());
        if before.run(front).handed(round.last()) is None {
            assert(before.quiet(round));
            self.lemma_quiet_concat(outs, round);
        }
    }

    /// A round of polls that all answer `Pending`, added to the polls `outs`
    /// that handed nothing on.
    pub proof fn lemma_round_pending(self, outs: Seq<Outcome<U, T>>, round: Seq<Outcome<U, T>>)
        requires
            self.quiet(outs),
            self.run(outs).members.wf(),
            round.len() <= self.run(outs).members.wake.queue.len(),
            forall|k: int| 0 <= k < round.len() ==> #[trigger] round[k] is Pending,
        ensures
            self.run(outs + round) == (PipelineState {
                members: self.run(outs).members.run(round),
                ..self.run(outs)
            }),
            self.quiet(outs + round),
            self.can_run(outs + round),
            (outs + round).len() > 0 ==> self.run((outs + round).drop_last()).handed(
                (outs + round).last(),
            ) is None,
    {
        self.run(outs).lemma_pending_run(round);
        self.lemma_run_concat(outs, round);
        self.lemma_quiet_concat(outs, round);
        self.lemma_quiet_can_run(outs + round);
    }

    /// Polls that all answer `Pending` change the units in progress and
    /// nothing else, and hand nothing on.
    pub proof fn lemma_pending_run(self, outs: Seq<Outcome<U, T>>)
        requires
            self.members.wf(),
            outs.len() <= self.members.wake.queue.len(),
            forall|k: int| 0 <= k < outs.len() ==> #[trigger] outs[k] is Pending,
        ensures
            self.quiet(outs),
            self.run(outs) == (PipelineState { members: self.members.run(outs), ..self }),
        decreases outs.len(),
    {
        if outs.len() > 0 {
            let front = outs.drop_last();
            assert forall|k: int| 0 <= k < front.len() implies #[trigger] front[k] is Pending by {
                assert(outs[k] is Pending);
            }
            self.lemma_pending_run(front);
            self.members.lemma_served_in_turn(front);
            assert(outs[outs.len() - 1] is Pending);
        }
    }
}

/// Whether a unit in progress carries the admission number `s`.
pub open spec fn flying(pending: Map<WakeToken, nat>, s: nat) -> bool {
    exists|t: WakeToken| #[trigger] pending.dom().contains(t) && pending[t] == s
}

/// The bounded concurrency pipeline over the input sequence `S` of units
/// `U`.
pub struct Pipeline<S, U: Unit> {
    source: Fuse<S>,
    set: TaskSet<U>,
    tags: Vec<u64>,
    buffer: ReorderBuffer<U::Output>,
    limit: Limit,
    order: Order,
    admitted: u64,
    results: Ghost<Map<nat, U::Output>>,
    completed: Ghost<Seq<nat>>,
    released: Ghost<Seq<U::Output>>,
    pending: Ghost<Map<WakeToken, nat>>,
}

impl<U: Unit, S: Sequence<Item = U>> Pipeline<S, U> {
    pub closed spec fn view(&self) -> PipelineView<U::Output> {
        PipelineView {
            limit: self.limit,
            order: self.order,
            admitted: self.admitted as nat,
            in_flight: self.set@.len(),
            source_done: self.source.is_done(),
            results: self.results@,
            completed: self.completed@,
            released: self.released@,
            next_out: self.buffer@.next,
        }
    }

    /// The units in progress.
    pub closed spec fn members(&self) -> TaskSetView<U> {
        self.set@
    }

    /// The input sequence.
    pub closed spec fn input(&self) -> Fuse<S> {
        self.source
    }

    /// The pipeline together with the units in progress and their numbers.
    pub closed spec fn state(&self) -> PipelineState<U, U::Output> {
        PipelineState { view: self@, members: self.set@, numbers: self.pending@ }
    }

    /// How the state reads in the other accessors.
    pub proof fn lemma_state(&self)
        ensures
            self.state().view == self@,
            self.state().members == self.members(),
            forall|t: WakeToken| self.state().numbers[t] == self.number_of(t),
            self@.source_done == self.input().is_done(),
    {
    }

    /// Where the units in progress changed and nothing else did, but for the
    /// input, the invariant stands, with the unit behind `extra` counted as
    /// one that has just left.
    proof fn lemma_members_changed(&self, before: &Self, extra: Option<WakeToken>)
        requires
            before.inv(None),
            self.set.wf(),
            self.set@.len() <= before.set@.len(),
            self.tags == before.tags,
            self.buffer == before.buffer,
            self.limit == before.limit,
            self.order == before.order,
            self.admitted == before.admitted,
            self.results == before.results,
            self.completed == before.completed,
            self.released == before.released,
            self.pending == before.pending,
            forall|u: WakeToken|
                #![trigger self.set@.units.dom().contains(u)]
                #![trigger before.set@.units.dom().contains(u)]
                before.set@.units.dom().contains(u) <==> (self.set@.units.dom().contains(u)
                    || extra == Some(u)),
        ensures
            self.inv(extra),
    {
        assert forall|u: WakeToken|
            #![trigger self.pending@.dom().contains(u)]
            #![trigger self.set@.units.dom().contains(u)]
            self.pending@.dom().contains(u) <==> (self.set@.units.dom().contains(u) || extra
                == Some(u)) by {
            assert(before.pending@.dom().contains(u) <==> before.set@.units.dom().contains(u));
        }
        assert(self@ == (PipelineView {
            in_flight: self@.in_flight,
            source_done: self@.source_done,
            ..before@
        }));
        self@.lemma_wf_with_fewer(before@);
    }

    /// The invariant, where the unit behind `extra`, if any, has just left
    /// the set and its result is not recorded yet.
    spec fn inv(&self, extra: Option<WakeToken>) -> bool {
        &&& self@.wf()
        &&& self.set.wf()
        &&& self.buffer.wf()
        &&& forall|t: WakeToken|
            #![trigger self.pending@.dom().contains(t)]
            #![trigger self.set@.units.dom().contains(t)]
            self.pending@.dom().contains(t) <==> (self.set@.units.dom().contains(t) || extra
                == Some(t))
        &&& forall|t: WakeToken| #[trigger]
            self.pending@.dom().contains(t) ==> {
                &&& t.index < self.tags@.len()
                &&& self.tags@[t.index as int] == self.pending@[t]
                &&& self.pending@[t] < self.admitted
                &&& !self.results@.dom().contains(self.pending@[t])
            }
        &&& forall|t: WakeToken, u: WakeToken|
            #![trigger self.pending@.dom().contains(t), self.pending@.dom().contains(u)]
            self.pending@.dom().contains(t) && self.pending@.dom().contains(u) && t != u
                ==> self.pending@[t] != self.pending@[u]
        &&& forall|s: nat|
            #![trigger self.results@.dom().contains(s)]
            #![trigger flying(self.pending@, s)]
            s < self.admitted ==> self.results@.dom().contains(s) || flying(self.pending@, s)
        &&& match self.order {
            Order::Admission => {
                &&& forall|k: nat|
                    #![trigger self.buffer@.held.dom().contains(k)]
                    #![trigger self.results@.dom().contains(k)]
                    self.buffer@.held.dom().contains(k) <==> (self.results@.dom().contains(k)
                        && k >= self.buffer@.next)
                &&& forall|k: nat| #[trigger]
                    self.buffer@.held.dom().contains(k) ==> self.buffer@.held[k]
                        == self.results@[k]
            },
            Order::Completion => self.buffer@ == BufferView::<U::Output>::empty(),
        }
    }

    pub closed spec fn wf(&self) -> bool {
        self.inv(None)
    }

    /// The pipeline's invariant, as it shows in the view: the limit is kept
    /// and the results are handed on in the order asked for.
    pub proof fn lemma_view_wf(&self)
        requires
            self.wf(),
        ensures
            self@.wf(),
            self@.in_flight == self.members().len(),
            self.members().wf(),
    {
        self.set.lemma_view_wf();
    }

    /// A pipeline over `source`, which has not signalled its end, with no
    /// unit admitted yet.
    pub fn new(source: S, limit: Limit, order: Order) -> (p: Self)
        requires
            limit.valid(),
        ensures
            p.wf(),
            p@ == PipelineView::<U::Output>::fresh(limit, order),
            p.members() == TaskSetView::<U>::empty(),
    {
        let p = Pipeline {
            source: Fuse::new(source),
            set: TaskSet::new(),
            tags: Vec::new(),
            buffer: ReorderBuffer::new(),
            limit,
            order,
            admitted: 0,
            results: Ghost(Map::empty()),
            completed: Ghost(Seq::empty()),
            released: Ghost(Seq::empty()),
            pending: Ghost(Map::empty()),
        };
        proof {
            assert(p.set@.len() == 0);
        }
        p
    }

    /// The number of units in progress.
    pub fn in_flight(&self) -> (n: usize)
        requires
            self.wf(),
        ensures
            n == self@.in_flight,
            self@.limit.allows(n as nat),
    {
        self.set.len()
    }

    /// The number of units admitted so far.
    pub fn admitted(&self) -> (n: u64)
        ensures
            n == self@.admitted,
    {
        self.admitted
    }

    /// Whether the input sequence has signalled its end.
    pub fn source_done(&self) -> (d: bool)
        ensures
            d == self@.source_done,
    {
        self.source.done()
    }

    /// Fires the handle `t` of a unit in progress; see [`TaskSet::wake`].
    pub fn wake(&mut self, t: WakeToken) -> (notice: Option<WakeToken>)
        requires
            old(self).wf(),
        ensures
            final(self).wf(),
            final(self)@ == old(self)@,
            final(self).members() == old(self).members().wake(t),
            notice == old(self).members().notice(t),
            forall|u: WakeToken| final(self).number_of(u) == old(self).number_of(u),
            final(self).input() == old(self).input(),
    {
        proof {
            self.set.lemma_view_wf();
            self.set@.lemma_wake_wf(t);
        }
        self.set.wake(t)
    }

    /// The admission number of the unit in progress behind `t`.
    pub closed spec fn number_of(&self, t: WakeToken) -> nat {
        self.pending@[t]
    }

    /// The admission numbers of the units in progress: each below the number
    /// of units admitted, none carried by two units, none of a unit that has
    /// completed.
    pub proof fn lemma_numbers(&self, t: WakeToken, u: WakeToken)
        requires
            self.wf(),
            self.members().contains(t),
            self.members().contains(u),
        ensures
            self.number_of(t) < self@.admitted,
            !self@.results.dom().contains(self.number_of(t)),
            t != u ==> self.number_of(t) != self.number_of(u),
    {
        assert(self.pending@.dom().contains(t));
        assert(self.pending@.dom().contains(u));
    }

    /// Admits `unit` under the next admission number, if there is room; hands
    /// it back otherwise. The unit is queued for its first poll.
    pub fn enter(&mut self, unit: U) -> (r: Result<WakeToken, U>)
        requires
            old(self).wf(),
        ensures
            final(self).wf(),
            match r {
                Ok(t) => {
                    &&& old(self)@.has_room()
                    &&& final(self)@ == old(self)@.enter()
                    &&& old(self).members().wake.is_fresh(t)
                    &&& final(self).members() == old(self).members().insert(t, unit)
                    &&& final(self).number_of(t) == old(self)@.admitted
                    &&& final(self).state() == old(self).state().enter(t, unit)
                },
                Err(u) => !old(self)@.has_room() && u == unit && final(self).state() == old(
                    self,
                ).state() && final(self)@ == old(self)@ && final(self).members() == old(
                    self,
                ).members(),
            },
            final(self).input() == old(self).input(),
            forall|u: WakeToken| #[trigger]
                old(self).members().contains(u) ==> final(self).number_of(u) == old(
                    self,
                ).number_of(u),
    {
        if !self.limit.admits(self.set.len()) || self.admitted == u64::MAX {
            return Err(unit);
        }
        let seq = self.admitted;
        proof {
            self.set.lemma_view_wf();
        }
        let t = self.set.insert(unit);
        proof {
            old(self).set@.lemma_insert_wf(t, unit);
        }
        while self.tags.len() <= t.index
            invariant
                self.tags@.len() >= old(self).tags@.len(),
                forall|i: int| 0 <= i < old(self).tags@.len() ==> self.tags@[i] == old(self).tags@[i],
                self.buffer == old(self).buffer,
                self.source == old(self).source,
                self.set@ == old(self).set@.insert(t, unit),
                self.set.wf(),
                self.limit == old(self).limit,
                self.order == old(self).order,
                self.admitted == old(self).admitted,
                self.results == old(self).results,
                self.completed == old(self).completed,
                self.released == old(self).released,
                self.pending == old(self).pending,
            decreases t.index + 1 - self.tags@.len(),
        {
            self.tags.push(0);
        }
        self.tags.set(t.index, seq);
        proof {
            self.pending@ = self.pending@.insert(t, seq as nat);
        }
        self.admitted = self.admitted + 1;
        proof {
            let before = old(self).pending@;
            let now = self.pending@;
            assert(!before.dom().contains(t));
            assert forall|u: WakeToken| #[trigger] now.dom().contains(u) implies {
                &&& u.index < self.tags@.len()
                &&& self.tags@[u.index as int] == now[u]
                &&& now[u] < self.admitted
                &&& !self.results@.dom().contains(now[u])
            } by {
                if u != t {
                    assert(before.dom().contains(u));
                    assert(old(self).set@.units.dom().contains(u));
                    assert(old(self).set@.wake.live.dom().contains(u));
                    assert(u.index != t.index);
                } else {
                    assert(!self.results@.dom().contains(seq as nat));
                }
            }
            assert forall|a: WakeToken, b: WakeToken|
                now.dom().contains(a) && now.dom().contains(b) && a != b implies now[a]
                != now[b] by {
                if a != t {
                    assert(before.dom().contains(a));
                }
                if b != t {
                    assert(before.dom().contains(b));
                }
            }
            assert forall|s: nat|
                #![trigger self.results@.dom().contains(s)]
                #![trigger flying(now, s)]
                s < self.admitted implies self.results@.dom().contains(s) || flying(now, s) by {
                if s == seq as nat {
                    assert(now.dom().contains(t) && now[t] == s);
                } else if !self.results@.dom().contains(s) {
                    assert(flying(before, s));
                    let w = choose|w: WakeToken| #[trigger] before.dom().contains(w) && before[w] == s;
                    assert(now.dom().contains(w) && now[w] == s);
                }
            }
            assert(self@.results == old(self)@.results);
            assert(self@ == old(self)@.enter());
            assert(self@.wf());
            assert(self.inv(None));
            assert forall|u: WakeToken| #[trigger]
                old(self).members().contains(u) implies self.number_of(u) == old(self).number_of(
                u,
            ) by {
                assert(before.dom().contains(u));
            }
        }
        Ok(t)
    }

    /// In admission order: hands on the result that is next in line, if it
    /// is there. In completion order nothing waits, and the call returns
    /// `None`.
    pub fn take_ready(&mut self) -> (r: Option<U::Output>)
        requires
            old(self).wf(),
        ensures
            final(self).wf(),
            r == old(self)@.ready(),
            final(self)@ == old(self)@.take(),
            final(self).members() == old(self).members(),
            forall|u: WakeToken| final(self).number_of(u) == old(self).number_of(u),
            final(self).state() == old(self).state().take(),
            final(self).input() == old(self).input(),
    {
        match self.order {
            Order::Completion => {
                return None;
            },
            Order::Admission => {},
        }
        proof {
            self.buffer.lemma_view_wf();
            assert(self.buffer@.ready() <==> self@.results.dom().contains(self@.next_out));
        }
        let r = self.buffer.pop_next();
        match r {
            Some(x) => {
                proof {
                    self.released@ = self.released@.push(x);
                    let at = old(self).buffer@.next;
                    assert(old(self).buffer@.held.dom().contains(at));
                    assert(old(self).results@.dom().contains(at));
                    assert forall|i: nat| i < self@.next_out implies #[trigger] self@.results.dom().contains(
                        i,
                    ) && self@.released[i as int] == self@.results[i] by {
                        if i < at {
                            assert(old(self)@.results.dom().contains(i));
                        }
                    }
                    assert forall|k: nat|
                        #![trigger self.buffer@.held.dom().contains(k)]
                        #![trigger self.results@.dom().contains(k)]
                        self.buffer@.held.dom().contains(k) <==> (self.results@.dom().contains(k)
                            && k >= self.buffer@.next) by {
                        assert(old(self).buffer@.held.dom().contains(k) <==> (
                        old(self).results@.dom().contains(k) && k >= old(self).buffer@.next));
                    }
                    assert forall|k: nat| #[trigger]
                        self.buffer@.held.dom().contains(k) implies self.buffer@.held[k]
                        == self.results@[k] by {
                        assert(old(self).buffer@.held.dom().contains(k));
                    }
                }
                Some(x)
            },
            None => None,
        }
    }

    /// Records that the unit behind `t`, which has just left the set, yielded
    /// `value`, and hands on a result if the order allows one now.
    fn record(&mut self, t: WakeToken, value: U::Output) -> (r: Option<U::Output>)
        requires
            old(self).inv(Some(t)),
            !old(self).set@.units.dom().contains(t),
        ensures
            final(self).inv(None),
            final(self)@ == (PipelineView {
                in_flight: old(self)@.in_flight + 1,
                ..old(self)@
            }).settle(old(self).number_of(t), value),
            r == (PipelineView { in_flight: old(self)@.in_flight + 1, ..old(self)@ }).handed(
                old(self).number_of(t),
                value,
            ),
            !old(self)@.results.dom().contains(old(self).number_of(t)),
            final(self).set == old(self).set,
            final(self).source == old(self).source,
            final(self).pending@ == old(self).pending@.remove(t),
            forall|u: WakeToken| u != t ==> final(self).number_of(u) == old(self).number_of(u),
    {
        proof {
            assert(self.pending@.dom().contains(t));
            self.buffer.lemma_view_wf();
        }
        let seq = self.tags[t.index];
        let ghost before = self.pending@;
        proof {
            self.pending@ = self.pending@.remove(t);
            self.results@ = self.results@.insert(seq as nat, value);
            self.completed@ = self.completed@.push(seq as nat);
        }
        proof {
            let now = self.pending@;
            assert(!old(self).completed@.contains(seq as nat));
            assert forall|i: int, j: int|
                0 <= i < self.completed@.len() && 0 <= j < self.completed@.len() && i
                    != j implies self.completed@[i] != self.completed@[j] by {
                if i == old(self).completed@.len() {
                    assert(old(self).completed@.contains(self.completed@[j]));
                }
                if j == old(self).completed@.len() {
                    assert(old(self).completed@.contains(self.completed@[i]));
                }
            }
            assert forall|s: nat|
                #![trigger self.completed@.contains(s)]
                #![trigger self.results@.dom().contains(s)]
                self.completed@.contains(s) <==> self.results@.dom().contains(s) by {
                assert(old(self).completed@.contains(s) <==> old(self).results@.dom().contains(s));
                if self.completed@.contains(s) {
                    let j = choose|j: int| 0 <= j < self.completed@.len() && self.completed@[j] == s;
                    if j < old(self).completed@.len() {
                        assert(old(self).completed@[j] == s);
                    }
                }
                if s == seq as nat {
                    assert(self.completed@[old(self).completed@.len() as int] == s);
                } else if old(self).completed@.contains(s) {
                    let j = choose|j: int|
                        0 <= j < old(self).completed@.len() && old(self).completed@[j] == s;
                    assert(self.completed@[j] == s);
                }
            }
            assert forall|u: WakeToken| #[trigger] now.dom().contains(u) implies {
                &&& u.index < self.tags@.len()
                &&& self.tags@[u.index as int] == now[u]
                &&& now[u] < self.admitted
                &&& !self.results@.dom().contains(now[u])
            } by {
                assert(before.dom().contains(u) && before.dom().contains(t));
            }
            assert forall|a: WakeToken, b: WakeToken|
                now.dom().contains(a) && now.dom().contains(b) && a != b implies now[a]
                != now[b] by {
                assert(before.dom().contains(a) && before.dom().contains(b));
            }
            assert forall|s: nat|
                #![trigger self.results@.dom().contains(s)]
                #![trigger flying(now, s)]
                s < self.admitted implies self.results@.dom().contains(s) || flying(now, s) by {
                if s != seq as nat && !old(self).results@.dom().contains(s) {
                    assert(flying(before, s));
                    let w = choose|w: WakeToken| #[trigger] before.dom().contains(w) && before[w] == s;
                    assert(w != t);
                    assert(now.dom().contains(w) && now[w] == s);
                }
            }
        }
        match self.order {
            Order::Completion => {
                proof {
                    self.released@ = self.released@.push(value);
                    assert forall|i: int| 0 <= i < self.completed@.len() implies #[trigger] self.released@[i]
                        == self.results@[self.completed@[i]] by {
                        if i < old(self).completed@.len() {
                            assert(old(self).completed@.contains(old(self).completed@[i]));
                        }
                    }
                }
                Some(value)
            },
            Order::Admission => {
                proof {
                    assert(seq as nat >= self.buffer@.next) by {
                        if (seq as nat) < self.buffer@.next {
                            assert(old(self)@.results.dom().contains(seq as nat));
                        }
                    }
                    assert(self.buffer@.accepts(seq));
                }
                let ghost mid = self.buffer@;
                let _ = self.buffer.put(seq, value);
                let r = self.buffer.pop_next();
                proof {
                    assert(mid.held.dom().contains(mid.next) <==> old(self).results@.dom().contains(
                        mid.next,
                    ));
                    if r is Some {
                        let x = r.unwrap();
                        self.released@ = self.released@.push(x);
                        assert forall|i: nat| i < self@.next_out implies #[trigger] self@.results.dom().contains(
                            i,
                        ) && self@.released[i as int] == self@.results[i] by {
                            if i < mid.next {
                                assert(old(self)@.results.dom().contains(i));
                            }
                        }
                    } else {
                        assert forall|i: nat| i < self@.next_out implies #[trigger] self@.results.dom().contains(
                            i,
                        ) && self@.released[i as int] == self@.results[i] by {
                            assert(old(self)@.results.dom().contains(i));
                        }
                    }
                    assert forall|k: nat|
                        #![trigger self.buffer@.held.dom().contains(k)]
                        #![trigger self.results@.dom().contains(k)]
                        self.buffer@.held.dom().contains(k) <==> (self.results@.dom().contains(k)
                            && k >= self.buffer@.next) by {
                        assert(mid.held.dom().contains(k) <==> (old(self).results@.dom().contains(k)
                            && k >= mid.next));
                    }
                    assert forall|k: nat| #[trigger]
                        self.buffer@.held.dom().contains(k) implies self.buffer@.held[k]
                        == self.results@[k] by {
                        if k != seq as nat {
                            assert(mid.held.dom().contains(k));
                        }
                    }
                }
                r
            },
        }
    }

    /// Starts the poll of the unit in progress that has waited longest for
    /// one; see [`TaskSet::begin_poll`].
    pub fn begin_poll(&mut self) -> (r: Option<WakeToken>)
        requires
            old(self).wf(),
        ensures
            final(self).wf(),
            r == old(self).members().next(),
            final(self).members() == old(self).members().begin(),
            final(self)@ == old(self)@,
            forall|u: WakeToken| final(self).number_of(u) == old(self).number_of(u),
            final(self).input() == old(self).input(),
    {
        proof {
            self.set.lemma_view_wf();
            self.set@.lemma_begin_wf();
        }
        self.set.begin_poll()
    }

    /// Ends the poll of the unit in progress behind `t` with what the poll
    /// came back with. On `Ready(value)` the unit leaves, its result is
    /// recorded under its admission number, and the call returns what is
    /// handed on now: `value` itself in completion order, the result next in
    /// line, if it is there, in admission order. On `Pending` the unit stays
    /// and nothing is handed on. For a handle that is not a unit in
    /// progress, nothing changes.
    pub fn settle(&mut self, t: WakeToken, outcome: Poll<U::Output>, woken: bool) -> (r: Option<
        U::Output,
    >)
        requires
            old(self).wf(),
        ensures
            final(self).wf(),
            final(self).members() == (match outcome {
                Poll::Ready(_) => old(self).members().remove(t),
                Poll::Pending => old(self).members().settle_pending(t, woken),
            }),
            match outcome {
                Poll::Ready(value) if old(self).members().contains(t) => {
                    &&& final(self)@ == old(self)@.settle(old(self).number_of(t), value)
                    &&& r == old(self)@.handed(old(self).number_of(t), value)
                },
                _ => final(self)@ == old(self)@ && r is None,
            },
            forall|u: WakeToken| u != t ==> final(self).number_of(u) == old(self).number_of(u),
            final(self).input() == old(self).input(),
    {
        proof {
            self.set.lemma_view_wf();
            self.set@.lemma_remove_wf(t);
            self.set@.lemma_settle_pending_wf(t, woken);
        }
        match self.set.settle(t, outcome, woken) {
            Some((_, value)) => {
                proof {
                    self.lemma_members_changed(old(self), Some(t));
                }
                self.record(t, value)
            },
            None => {
                proof {
                    self.lemma_members_changed(old(self), None);
                }
                None
            },
        }
    }

    /// Asks the input for its next unit. The input is polled with a context
    /// of its own that holds the caller's handle; if the input fires that
    /// handle during the poll, the caller's context is told.
    fn poll_input(&mut self, cx: &mut Context) -> (r: Poll<Option<U>>)
        ensures
            *final(self) == (Pipeline { source: final(self).source, ..*old(self) }),
            final(cx).token == old(cx).token,
            old(cx).woken ==> final(cx).woken,
            old(self).source.is_done() ==> final(self).source == old(self).source,
    {
        let mut inner = Context::new(cx.token());
        let r = self.source.poll_next(&mut inner);
        if inner.was_woken() {
            cx.wake();
        }
        r
    }

    /// Admits units from the input for as long as the input has one ready
    /// and there is room.
    fn fill(&mut self, cx: &mut Context)
        requires
            old(self).inv(None),
        ensures
            final(self).inv(None),
            final(self)@.extends(old(self)@),
            final(self)@.results == old(self)@.results,
            final(self)@.completed == old(self)@.completed,
            final(self)@.released == old(self)@.released,
            final(self)@.next_out == old(self)@.next_out,
            old(self)@.source_done ==> final(self)@ == old(self)@,
            exists|tokens: Seq<WakeToken>, given: Seq<U>|
                old(self).state().fills(tokens, given, final(self).state()),
            final(cx).token == old(cx).token,
            old(cx).woken ==> final(cx).woken,
            !old(self)@.has_room() || old(self)@.source_done ==> final(self).source == old(
                self,
            ).source,
            forall|u: WakeToken| #[trigger]
                old(self).pending@.dom().contains(u) ==> final(self).pending@.dom().contains(u)
                    && final(self).pending@[u] == old(self).pending@[u],
    {
        let ghost start = self.state();
        let ghost mut tokens: Seq<WakeToken> = Seq::empty();
        let ghost mut given: Seq<U> = Seq::empty();
        let ghost mut asked = false;
        loop
            invariant
                self.inv(None),
                self@.extends(old(self)@),
                self@.results == old(self)@.results,
                self@.completed == old(self)@.completed,
                self@.released == old(self)@.released,
                self@.next_out == old(self)@.next_out,
                old(self)@.source_done ==> self@ == old(self)@ && given.len() == 0,
                start == old(self).state(),
                tokens.len() == given.len(),
                start.can_enter_all(tokens, given),
                self.state() == start.enter_all(tokens, given).with_done(self@.source_done),
                cx.token == old(cx).token,
                old(cx).woken ==> cx.woken,
                asked ==> old(self)@.has_room() && !old(self)@.source_done,
                !asked ==> self.source == old(self).source && given.len() == 0,
                forall|u: WakeToken| #[trigger]
                    old(self).pending@.dom().contains(u) ==> self.pending@.dom().contains(u)
                        && self.pending@[u] == old(self).pending@[u],
            decreases u64::MAX - self.admitted,
        {
            if self.source.done() || !self.limit.admits(self.set.len()) || self.admitted
                == u64::MAX {
                break ;
            }
            let ghost before = *self;
            let answer = self.poll_input(cx);
            proof {
                asked = true;
                self.lemma_members_changed(&before, None);
                assert(self.state() == before.state().with_done(self@.source_done));
            }
            match answer {
                Poll::Ready(Some(unit)) => {
                    let ghost polled = *self;
                    let entered = self.enter(unit);
                    proof {
                        let t = entered->Ok_0;
                        start.lemma_enter_one_more(tokens, given, t, unit);
                        let model = start.enter_all(tokens, given);
                        assert(model.with_done(polled@.source_done).enter(t, unit) == model.enter(
                            t,
                            unit,
                        ).with_done(polled@.source_done));
                        assert(model.can_enter(t) == model.with_done(polled@.source_done).can_enter(
                            t,
                        ));
                        tokens = tokens.push(t);
                        given = given.push(unit);
                        assert forall|u: WakeToken| #[trigger]
                            old(self).pending@.dom().contains(u) implies self.pending@.dom().contains(
                            u,
                        ) && self.pending@[u] == old(self).pending@[u] by {
                            assert(polled.pending@.dom().contains(u));
                            assert(polled.set@.units.dom().contains(u));
                        }
                    }
                },
                _ => {
                    break ;
                },
            }
        }
        proof {
            assert(start.fills(tokens, given, self.state()));
        }
    }

    /// Polls the units in progress until a result can be handed on or the
    /// set has nothing more to poll.
    fn drain(&mut self, cx: &mut Context) -> (r: Poll<Option<U::Output>>)
        requires
            old(self).inv(None),
            old(self)@.ready() is None,
        ensures
            final(self).inv(None),
            final(self)@.extends(old(self)@),
            match r {
                Poll::Ready(Some(x)) => final(self)@.released == old(self)@.released.push(x),
                Poll::Ready(None) => final(self)@.released == old(self)@.released
                    && final(self)@.finished(),
                Poll::Pending => final(self)@.released == old(self)@.released
                    && !final(self)@.finished(),
            },
            old(self)@.finished() ==> r == Poll::<Option<U::Output>>::Ready(None),
            exists|outs: Seq<Outcome<U, U::Output>>, last: nat|
                old(self).state().drains(outs, last, old(cx).token, final(self).state(), r),
            final(cx).token == old(cx).token,
            old(cx).woken ==> final(cx).woken,
            final(self).source == old(self).source,
            forall|u: WakeToken| #[trigger]
                final(self).pending@.dom().contains(u) ==> old(self).pending@.dom().contains(u)
                    && final(self).pending@[u] == old(self).pending@[u],
    {
        let ghost start = self.state();
        let ghost mut outs: Seq<Outcome<U, U::Output>> = Seq::empty();
        loop
            invariant
                self.inv(None),
                self@.extends(old(self)@),
                self@.released == old(self)@.released,
                self@.ready() is None,
                old(self)@.finished() ==> self@ == old(self)@,
                start == old(self).state(),
                self.state() == start.run(outs),
                start.quiet(outs),
                cx.token == old(cx).token,
                old(cx).woken ==> cx.woken,
                self.source == old(self).source,
                forall|u: WakeToken| #[trigger]
                    self.pending@.dom().contains(u) ==> old(self).pending@.dom().contains(u)
                        && self.pending@[u] == old(self).pending@[u],
            decreases self.set@.len(),
        {
            let ghost before = *self;
            let ghost cx_before = *cx;
            proof {
                self.set.lemma_view_wf();
                start.lemma_quiet_can_run(outs);
            }
            let answer = self.set.poll_next(cx);
            let ghost round = if before.set@.len() > 0 {
                choose|o: Seq<Outcome<U, U::Output>>|
                    before.set@.drives(o, cx_before, self.set@, answer, *cx)
            } else {
                Seq::empty()
            };
            match answer {
                Poll::Ready(Some((t, value))) => {
                    proof {
                        self.lemma_members_changed(&before, Some(t));
                    }
                    let ghost mid = self@;
                    let handed = self.record(t, value);
                    proof {
                        assert((PipelineView { in_flight: mid.in_flight + 1, ..mid }) == before@);
                        before@.lemma_settle_extends(before.number_of(t), value);
                        self@.lemma_extends_twice(before@, old(self)@);
                        assert(round.last() == (Outcome::<U, U::Output>::Ready { value }));
                        start.lemma_round_with_value(outs, round, value);
                        outs = outs + round;
                    }
                    match handed {
                        Some(x) => {
                            proof {
                                assert(start.drains(
                                    outs,
                                    0,
                                    old(cx).token,
                                    self.state(),
                                    Poll::Ready(Some(x)),
                                ));
                            }
                            return Poll::Ready(Some(x));
                        },
                        None => {},
                    }
                },
                Poll::Ready(None) => {
                    let done = self.source.done();
                    proof {
                        assert(self.set@.units.dom() =~= Set::<WakeToken>::empty()) by {
                            assert(self.set@.wake.live.dom().len() == 0);
                            assert(self.set@.wake.live.dom() =~= Set::<WakeToken>::empty());
                        }
                        assert forall|s: nat| s < self@.admitted implies #[trigger] self@.results.dom().contains(
                            s,
                        ) by {
                            if !self.results@.dom().contains(s) {
                                assert(flying(self.pending@, s));
                                let w = choose|w: WakeToken| #[trigger]
                                    self.pending@.dom().contains(w) && self.pending@[w] == s;
                                assert(self.set@.units.dom().contains(w));
                            }
                        }
                        if self.order == Order::Admission && self@.next_out < self@.admitted {
                            assert(self.results@.dom().contains(self@.next_out));
                        }
                        start.lemma_run_done(outs);
                        assert(start.drains(outs, 0, old(cx).token, self.state(), if done {
                            Poll::<Option<U::Output>>::Ready(None)
                        } else {
                            Poll::<Option<U::Output>>::Pending
                        }));
                    }
                    if done {
                        return Poll::Ready(None);
                    } else {
                        return Poll::Pending;
                    }
                },
                Poll::Pending => {
                    proof {
                        self.lemma_members_changed(&before, None);
                        start.lemma_round_pending(outs, round);
                        assert(self.state() == start.run(outs + round).with_parent(
                            Some(old(cx).token),
                        ));
                        assert((outs + round).take(outs.len() as int) =~= outs);
                        assert forall|k: int| outs.len() <= k < (outs + round).len() implies #[trigger] (
                        outs + round)[k] is Pending by {
                            assert(round[k - outs.len()] is Pending);
                        }
                        assert(start.drains(
                            outs + round,
                            round.len(),
                            old(cx).token,
                            self.state(),
                            Poll::<Option<U::Output>>::Pending,
                        ));
                    }
                    return Poll::Pending;
                },
            }
        }
    }

    /// Drives the pipeline one step.
    ///
    /// The call first admits units from the input, for as long as the input
    /// has one ready and there is room; the input is not asked where there
    /// is no room or where it has ended. If a result is next in line, the
    /// call hands it on. Otherwise it polls the units in progress, as the
    /// task set does, records each value under its unit's admission number,
    /// and hands on one result: in completion order the first that a unit
    /// yields, in admission order the next in line once it is there. It
    /// answers `Ready(None)` when the input has ended and every result has
    /// been handed on, and `Pending` when there is nothing to hand on yet;
    /// while units are in progress it keeps the caller's wake handle then.
    ///
    /// At most 2^64 - 1 units are admitted in all.
    pub fn poll_next(&mut self, cx: &mut Context) -> (r: Poll<Option<U::Output>>)
        requires
            old(self).wf(),
        ensures
            final(self).wf(),
            final(self)@.extends(old(self)@),
            match r {
                Poll::Ready(Some(x)) => final(self)@.released == old(self)@.released.push(x),
                Poll::Ready(None) => final(self)@.released == old(self)@.released
                    && final(self)@.finished(),
                Poll::Pending => final(self)@.released == old(self)@.released
                    && !final(self)@.finished(),
            },
            old(self)@.finished() ==> r == Poll::<Option<U::Output>>::Ready(None),
            old(self)@.ready() matches Some(x) ==> r == Poll::<Option<U::Output>>::Ready(Some(x)),
            exists|
                tokens: Seq<WakeToken>,
                given: Seq<U>,
                outs: Seq<Outcome<U, U::Output>>,
                last: nat,
            |
                old(self).state().drives(
                    tokens,
                    given,
                    outs,
                    last,
                    old(cx).token,
                    final(self).state(),
                    r,
                ),
            final(cx).token == old(cx).token,
            old(cx).woken ==> final(cx).woken,
            !old(self)@.has_room() || old(self)@.source_done ==> final(self).input() == old(
                self,
            ).input(),
            forall|u: WakeToken|
                old(self).members().contains(u) && #[trigger] final(self).members().contains(u)
                    ==> final(self).number_of(u) == old(self).number_of(u),
    {
        self.fill(cx);
        let ghost filled = *self;
        let ghost (tokens, given) = choose|tokens: Seq<WakeToken>, given: Seq<U>|
            old(self).state().fills(tokens, given, filled.state());
        let first = self.take_ready();
        proof {
            filled@.lemma_take_extends();
            self@.lemma_extends_twice(filled@, old(self)@);
        }
        match first {
            Some(x) => {
                proof {
                    assert(old(self).state().drives(
                        tokens,
                        given,
                        Seq::empty(),
                        0,
                        old(cx).token,
                        self.state(),
                        Poll::Ready(Some(x)),
                    ));
                }
                return Poll::Ready(Some(x));
            },
            None => {},
        }
        let ghost taken = *self;
        let r = self.drain(cx);
        proof {
            self@.lemma_extends_twice(taken@, old(self)@);
            let (outs, last) = choose|outs: Seq<Outcome<U, U::Output>>, last: nat|
                taken.state().drains(outs, last, old(cx).token, self.state(), r);
            taken.state().lemma_run_done(outs);
            assert(old(self).state().drives(
                tokens,
                given,
                outs,
                last,
                old(cx).token,
                self.state(),
                r,
            ));
            assert forall|u: WakeToken|
                old(self).members().contains(u) && #[trigger] self.members().contains(
                    u,
                ) implies self.number_of(u) == old(self).number_of(u) by {
                assert(self.pending@.dom().contains(u));
                assert(old(self).pending@.dom().contains(u));
            }
        }
        r
    }
}

} // verus!
