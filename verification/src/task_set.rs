//! The unordered task set: a growable collection of units, each behind a
//! stable handle, that yields results in the order in which units become
//! ready.
//!
//! A unit is inserted queued, so that it is polled at least once. A poll
//! that answers `Pending` leaves the unit armed: it is polled again only
//! after its handle is fired. A poll that answers `Ready` vacates the slot,
//! and the handle is never valid again. The ready queue is first in, first
//! out.

use vstd::prelude::*;
use crate::abort::Abortable;
use crate::poll::Context;
use crate::poll::Poll;
use crate::poll::Unit;
use crate::wake::RegistryView;
use crate::wake::Status;
use crate::wake::WakeRegistry;
use crate::wake::WakeToken;

verus! {

/// The task set as a mathematical value.
pub struct TaskSetView<U> {
    /// The units held, by handle.
    pub units: Map<WakeToken, U>,
    /// The wake state of the handles.
    pub wake: RegistryView,
    /// The driver's own wake handle, kept from the last poll that answered
    /// `Pending`, until a member's wake is delivered.
    pub parent: Option<WakeToken>,
}

/// What one poll of a member came back with.
pub enum Outcome<U, V> {
    /// The unit answered `Pending`; `unit` is its state after the poll and
    /// `woken` says whether it fired its own handle meanwhile.
    Pending { unit: U, woken: bool },
    /// The unit answered `Ready(value)`.
    Ready { value: V },
}

impl<U, V> Outcome<U, V> {
    /// The outcome of a poll that answered `p`, left the unit as `unit`, and
    /// during which the unit fired its own handle if `woken`.
    pub open spec fn of(p: Poll<V>, unit: U, woken: bool) -> Self {
        match p {
            Poll::Ready(value) => Outcome::Ready { value },
            Poll::Pending => Outcome::Pending { unit, woken },
        }
    }
}

/// One thing that can happen to a task set.
pub enum Event<U, V> {
    /// A unit is inserted and given the handle `token`.
    Insert { token: WakeToken, unit: U },
    /// The handle `token` is fired from outside.
    Wake { token: WakeToken },
    /// The unit at the head of the ready queue is polled.
    Poll { outcome: Outcome<U, V> },
    /// The unit behind `token` is taken out.
    Remove { token: WakeToken },
}

/// The number of polls in a history.
pub open spec fn poll_count<U, V>(events: Seq<Event<U, V>>) -> nat
    decreases events.len(),
{
    if events.len() == 0 {
        0
    } else {
        poll_count(events.drop_last()) + if events.last() is Poll {
            1nat
        } else {
            0nat
        }
    }
}

impl<U> TaskSetView<U> {
    pub open spec fn empty() -> Self {
        TaskSetView { units: Map::empty(), wake: RegistryView::empty(), parent: None }
    }

    pub open spec fn wf(self) -> bool {
        &&& self.wake.wf()
        &&& self.units.dom() =~= self.wake.live.dom()
        &&& forall|t: WakeToken| #[trigger]
            self.wake.live.dom().contains(t) ==> self.wake.live[t] != Status::Idle
    }

    pub open spec fn len(self) -> nat {
        self.wake.live.dom().len()
    }

    pub open spec fn contains(self, t: WakeToken) -> bool {
        self.units.dom().contains(t)
    }

    /// Whether `t` waits in the ready queue.
    pub open spec fn is_queued(self, t: WakeToken) -> bool {
        self.wake.queue.contains(t)
    }

    /// Whether `t` was the handle of a unit that has left the set.
    pub open spec fn is_retired(self, t: WakeToken) -> bool {
        self.wake.retired.contains(t)
    }

    pub open spec fn insert(self, t: WakeToken, unit: U) -> Self {
        TaskSetView {
            units: self.units.insert(t, unit),
            wake: self.wake.allocate(t).register(t).fire(t),
            parent: self.parent,
        }
    }

    /// The handle that a wake of `t` asks the caller to fire in turn.
    pub open spec fn notice(self, t: WakeToken) -> Option<WakeToken> {
        if self.wake.delivers(t) {
            self.parent
        } else {
            None
        }
    }

    pub open spec fn wake(self, t: WakeToken) -> Self {
        TaskSetView {
            units: self.units,
            wake: self.wake.fire(t),
            parent: if self.wake.delivers(t) {
                None
            } else {
                self.parent
            },
        }
    }

    /// The handle of the unit to poll next.
    pub open spec fn next(self) -> Option<WakeToken> {
        self.wake.head()
    }

    /// The head of the ready queue leaves it and is armed for the poll.
    pub open spec fn begin(self) -> Self {
        if self.wake.queue.len() > 0 {
            TaskSetView { wake: self.wake.pop().register(self.wake.queue[0]), ..self }
        } else {
            self
        }
    }

    /// The unit behind `t` is now `unit`.
    pub open spec fn replace(self, t: WakeToken, unit: U) -> Self {
        if self.contains(t) {
            TaskSetView { units: self.units.insert(t, unit), ..self }
        } else {
            self
        }
    }

    /// A poll of `t` answered `Pending`.
    pub open spec fn settle_pending(self, t: WakeToken, woken: bool) -> Self {
        if woken {
            TaskSetView { wake: self.wake.fire(t), ..self }
        } else {
            self
        }
    }

    pub open spec fn remove(self, t: WakeToken) -> Self {
        if self.contains(t) {
            TaskSetView { units: self.units.remove(t), wake: self.wake.release(t), ..self }
        } else {
            self
        }
    }

    pub open spec fn with_parent(self, parent: Option<WakeToken>) -> Self {
        TaskSetView { parent, ..self }
    }

    /// The head of the ready queue is polled and answers `o`.
    pub open spec fn step<V>(self, o: Outcome<U, V>) -> Self {
        let t = self.wake.queue[0];
        match o {
            Outcome::Pending { unit, woken } => self.begin().replace(t, unit).settle_pending(
                t,
                woken,
            ),
            Outcome::Ready { value } => self.begin().remove(t),
        }
    }

    /// One poll after another, each of the head of the ready queue.
    pub open spec fn run<V>(self, outs: Seq<Outcome<U, V>>) -> Self
        decreases outs.len(),
    {
        if outs.len() == 0 {
            self
        } else {
            self.run(outs.drop_last()).step(outs.last())
        }
    }

    /// What one call of the driver does, given what the polls it made came
    /// back with: it polls the head of the ready queue until a unit answers
    /// `Ready`, or until every unit that was queued at the start has been
    /// polled once. `cx` and `cx_after` are the driver's own context before
    /// and after, `after` and `r` the set and the result.
    pub open spec fn drives<V>(
        self,
        outs: Seq<Outcome<U, V>>,
        cx: Context,
        after: Self,
        r: Poll<Option<(WakeToken, V)>>,
        cx_after: Context,
    ) -> bool {
        &&& outs.len() <= self.wake.queue.len()
        &&& forall|k: int| 0 <= k < outs.len() - 1 ==> #[trigger] outs[k] is Pending
        &&& if outs.len() > 0 && outs.last() is Ready {
            &&& r == Poll::Ready(
                Some((self.run(outs.drop_last()).wake.queue[0], outs.last()->value)),
            )
            &&& after == self.run(outs)
            &&& cx_after == cx
        } else {
            &&& outs.len() == self.wake.queue.len()
            &&& r == Poll::<Option<(WakeToken, V)>>::Pending
            &&& after == self.run(outs).with_parent(Some(cx.token))
            &&& cx_after.token == cx.token
            &&& cx_after.woken == (cx.woken || after.wake.queue.len() > 0)
        }
    }

    /// Whether event `e` can happen in this state: an insertion hands out a
    /// fresh handle, and a poll needs a queued unit.
    pub open spec fn admits<V>(self, e: Event<U, V>) -> bool {
        match e {
            Event::Insert { token, unit } => self.wake.is_fresh(token),
            Event::Poll { outcome } => self.wake.queue.len() > 0,
            _ => true,
        }
    }

    pub open spec fn apply<V>(self, e: Event<U, V>) -> Self {
        match e {
            Event::Insert { token, unit } => self.insert(token, unit),
            Event::Wake { token } => self.wake(token),
            Event::Poll { outcome } => self.step(outcome),
            Event::Remove { token } => self.remove(token),
        }
    }

    /// The handle of the unit that event `e` polls, if it polls one.
    pub open spec fn polls<V>(self, e: Event<U, V>) -> Option<WakeToken> {
        match e {
            Event::Poll { outcome } => self.wake.head(),
            _ => None,
        }
    }

    /// The handle whose value event `e` makes the set yield, if any.
    pub open spec fn yields<V>(self, e: Event<U, V>) -> Option<WakeToken> {
        match e {
            Event::Poll { outcome: Outcome::Ready { value } } => self.wake.head(),
            _ => None,
        }
    }

    /// The state after a history of events, each of which could happen when
    /// its turn came.
    pub open spec fn after<V>(self, events: Seq<Event<U, V>>) -> Self
        decreases events.len(),
    {
        if events.len() == 0 {
            self
        } else {
            self.after(events.drop_last()).apply(events.last())
        }
    }

    /// Whether each event of the history could happen when its turn came.
    pub open spec fn possible<V>(self, events: Seq<Event<U, V>>) -> bool
        decreases events.len(),
    {
        if events.len() == 0 {
            true
        } else {
            self.possible(events.drop_last()) && self.after(events.drop_last()).admits(
                events.last(),
            )
        }
    }

    pub proof fn lemma_insert_wf(self, t: WakeToken, unit: U)
        requires
            self.wf(),
            self.wake.is_fresh(t),
        ensures
            self.insert(t, unit).wf(),
            self.insert(t, unit).wake.live == self.wake.live.insert(t, Status::Queued),
            self.insert(t, unit).wake.queue == self.wake.queue.push(t),
            self.insert(t, unit).wake.retired == self.wake.retired,
            self.insert(t, unit).len() == self.len() + 1,
    {
        let a = self.wake.allocate(t);
        crate::wake::lemma_allocate_wf(self.wake, t);
        let b = a.register(t);
        crate::wake::lemma_register_wf(a, t);
        let c = b.fire(t);
        crate::wake::lemma_fire_wf(b, t);
        assert(a.arms(t));
        assert(b.delivers(t));
        assert(c.live =~= self.wake.live.insert(t, Status::Queued));
        assert(!self.wake.live.dom().contains(t));
    }

    pub proof fn lemma_wake_wf(self, t: WakeToken)
        requires
            self.wf(),
        ensures
            self.wake(t).wf(),
            self.wake(t).len() == self.len(),
    {
        crate::wake::lemma_fire_wf(self.wake, t);
        if self.wake.delivers(t) {
            assert(self.wake.fire(t).live.dom() =~= self.wake.live.dom());
        }
    }

    pub proof fn lemma_begin_wf(self)
        requires
            self.wf(),
        ensures
            self.begin().wf(),
            self.begin().len() == self.len(),
            self.wake.queue.len() > 0 ==> {
                &&& self.contains(self.wake.queue[0])
                &&& self.begin().wake.live == self.wake.live.insert(
                    self.wake.queue[0],
                    Status::Armed,
                )
                &&& self.begin().wake.queue == self.wake.queue.drop_first()
                &&& self.begin().wake.retired == self.wake.retired
            },
    {
        if self.wake.queue.len() > 0 {
            let h = self.wake.queue[0];
            crate::wake::lemma_pop_wf(self.wake);
            let p = self.wake.pop();
            crate::wake::lemma_register_wf(p, h);
            assert(p.arms(h));
            assert(p.register(h).live =~= self.wake.live.insert(h, Status::Armed));
            assert(p.register(h).live.dom() =~= self.wake.live.dom());
        }
    }

    pub proof fn lemma_replace_wf(self, t: WakeToken, unit: U)
        requires
            self.wf(),
        ensures
            self.replace(t, unit).wf(),
            self.replace(t, unit).len() == self.len(),
    {
        if self.contains(t) {
            assert(self.units.insert(t, unit).dom() =~= self.units.dom());
        }
    }

    pub proof fn lemma_settle_pending_wf(self, t: WakeToken, woken: bool)
        requires
            self.wf(),
        ensures
            self.settle_pending(t, woken).wf(),
            self.settle_pending(t, woken).len() == self.len(),
    {
        crate::wake::lemma_fire_wf(self.wake, t);
        if self.wake.delivers(t) {
            assert(self.wake.fire(t).live.dom() =~= self.wake.live.dom());
        }
    }

    pub proof fn lemma_remove_wf(self, t: WakeToken)
        requires
            self.wf(),
        ensures
            self.remove(t).wf(),
            !self.remove(t).contains(t),
            self.contains(t) ==> self.remove(t).is_retired(t) && self.remove(t).len() == self.len()
                - 1,
    {
        crate::wake::lemma_release_wf(self.wake, t);
    }

    pub proof fn lemma_step_wf<V>(self, o: Outcome<U, V>)
        requires
            self.wf(),
            self.wake.queue.len() > 0,
        ensures
            self.step(o).wf(),
            self.step(o).wake.queue.len() >= self.wake.queue.len() - 1,
            forall|k: int|
                1 <= k < self.wake.queue.len() ==> #[trigger] self.step(o).wake.queue[k - 1]
                    == self.wake.queue[k],
    {
        let t = self.wake.queue[0];
        self.lemma_begin_wf();
        let b = self.begin();
        assert(b.wake.queue =~= self.wake.queue.drop_first());
        match o {
            Outcome::Pending { unit, woken } => {
                b.lemma_replace_wf(t, unit);
                b.replace(t, unit).lemma_settle_pending_wf(t, woken);
            },
            Outcome::Ready { value } => {
                b.lemma_remove_wf(t);
                assert(!b.wake.queue.contains(t));
                crate::wake::lemma_without(b.wake.queue, t);
            },
        }
    }

    pub proof fn lemma_apply_wf<V>(self, e: Event<U, V>)
        requires
            self.wf(),
            self.admits(e),
        ensures
            self.apply(e).wf(),
    {
        match e {
            Event::Insert { token, unit } => {
                self.lemma_insert_wf(token, unit);
            },
            Event::Wake { token } => {
                self.lemma_wake_wf(token);
            },
            Event::Poll { outcome } => {
                self.lemma_step_wf(outcome);
            },
            Event::Remove { token } => {
                self.lemma_remove_wf(token);
            },
        }
    }

    pub proof fn lemma_after_wf<V>(self, events: Seq<Event<U, V>>)
        requires
            self.wf(),
            self.possible(events),
        ensures
            self.after(events).wf(),
        decreases events.len(),
    {
        if events.len() > 0 {
            self.lemma_after_wf(events.drop_last());
            self.after(events.drop_last()).lemma_apply_wf(events.last());
        }
    }

    /// A wake is never lost: once the handle of a member has been fired, the
    /// member waits in the ready queue.
    pub proof fn lemma_fired_member_is_queued(self, t: WakeToken)
        requires
            self.wf(),
            self.contains(t),
        ensures
            self.wake(t).is_queued(t),
            self.wake(t).contains(t),
    {
        let n = self.wake.fire(t);
        if self.wake.delivers(t) {
            assert(n.queue[self.wake.queue.len() as int] == t);
        } else {
            assert(self.wake.live[t] == Status::Queued);
        }
    }

    /// A queued member keeps its turn: whatever happens to the set, short of
    /// polling or removing that member, it stays queued and no member gets
    /// in front of it; and each poll of another member brings it one place
    /// nearer to the head.
    pub proof fn lemma_queued_member_advances<V>(self, e: Event<U, V>, t: WakeToken)
        requires
            self.wf(),
            self.admits(e),
            self.is_queued(t),
            self.polls(e) != Some(t),
            e != (Event::<U, V>::Remove { token: t }),
        ensures
            self.apply(e).is_queued(t),
            self.apply(e).wake.queue.index_of(t) <= self.wake.queue.index_of(t),
            e is Poll ==> self.apply(e).wake.queue.index_of(t) == self.wake.queue.index_of(t) - 1,
    {
        let q = self.wake.queue;
        let i = q.index_of(t);
        assert(0 <= i < q.len() && q[i] == t);
        let n = self.apply(e);
        self.lemma_apply_wf(e);
        match e {
            Event::Insert { token, unit } => {
                self.lemma_insert_wf(token, unit);
                assert(n.wake.queue[i] == t);
            },
            Event::Wake { token } => {
                assert(n.wake.queue[i] == t);
            },
            Event::Poll { outcome } => {
                self.lemma_step_wf(outcome);
                assert(i != 0);
                assert(n.wake.queue[i - 1] == q[i]);
            },
            Event::Remove { token } => {
                crate::wake::lemma_without(q, token);
                if self.contains(token) && q.contains(token) {
                    let j = q.index_of(token);
                    assert(j != i);
                    if i < j {
                        assert(n.wake.queue[i] == t);
                    } else {
                        assert(n.wake.queue[i - 1] == t);
                    }
                } else {
                    assert(n.wake.queue[i] == t);
                }
            },
        }
        let m = n.wake.queue.index_of(t);
        assert(n.wake.queue.contains(t));
        assert(0 <= m < n.wake.queue.len() && n.wake.queue[m] == t);
        assert(n.wake.queue.no_duplicates());
    }

    /// First in, first out: the member at place `k` of the ready queue is
    /// the one polled after `k` other polls, whatever those come back with.
    pub proof fn lemma_served_in_turn<V>(self, outs: Seq<Outcome<U, V>>)
        requires
            self.wf(),
            outs.len() < self.wake.queue.len(),
        ensures
            self.run(outs).wf(),
            self.run(outs).wake.queue.len() >= self.wake.queue.len() - outs.len(),
            forall|k: int|
                outs.len() <= k < self.wake.queue.len() ==> #[trigger] self.run(
                    outs,
                ).wake.queue[k - outs.len()] == self.wake.queue[k],
            self.run(outs).next() == Some(self.wake.queue[outs.len() as int]),
        decreases outs.len(),
    {
        if outs.len() > 0 {
            let before = self.run(outs.drop_last());
            self.lemma_served_in_turn(outs.drop_last());
            before.lemma_step_wf(outs.last());
            let n = self.run(outs);
            assert forall|k: int| outs.len() <= k < self.wake.queue.len() implies #[trigger] n.wake.queue[k
                - outs.len()] == self.wake.queue[k] by {
                let j = k - outs.len() + 1;
                assert(n.wake.queue[j - 1] == before.wake.queue[j]);
                assert(before.wake.queue[k - (outs.len() - 1)] == self.wake.queue[k]);
            }
        }
        assert(self.run(outs).wake.queue[outs.len() - outs.len()] == self.wake.queue[outs.len() as int]);
    }

    /// A member that was woken is polled in its turn: over any history in
    /// which it is neither polled nor taken out, it stays queued, and the
    /// set makes no more polls than there were members queued in front of
    /// it. The poll after those is its own.
    pub proof fn lemma_woken_member_is_polled_in_turn<V>(
        self,
        events: Seq<Event<U, V>>,
        t: WakeToken,
    )
        requires
            self.wf(),
            self.is_queued(t),
            self.possible(events),
            forall|k: int|
                0 <= k < events.len() ==> (#[trigger] self.after(events.take(k))).polls(events[k])
                    != Some(t) && events[k] != (Event::<U, V>::Remove { token: t }),
        ensures
            self.after(events).wf(),
            self.after(events).is_queued(t),
            self.after(events).wake.queue.index_of(t) + poll_count(events)
                <= self.wake.queue.index_of(t),
        decreases events.len(),
    {
        self.lemma_after_wf(events);
        if events.len() > 0 {
            let front = events.drop_last();
            let n = events.len() - 1;
            assert(front.len() == n);
            assert forall|k: int| 0 <= k < front.len() implies (#[trigger] self.after(
                front.take(k),
            )).polls(front[k]) != Some(t) && front[k] != (Event::<U, V>::Remove { token: t }) by {
                assert(front.take(k) =~= events.take(k));
                assert(self.after(events.take(k)).polls(events[k]) != Some(t));
            }
            self.lemma_woken_member_is_polled_in_turn(front, t);
            let mid = self.after(front);
            assert(events.take(n) =~= front);
            assert(self.after(events.take(n)).polls(events[n]) != Some(t));
            mid.lemma_queued_member_advances(events.last(), t);
        }
    }

    /// A handle that has left the set stays out: no event makes it a member
    /// again, queues it, polls it, or yields a value for it.
    pub proof fn lemma_retired_for_good<V>(self, e: Event<U, V>, t: WakeToken)
        requires
            self.wf(),
            self.admits(e),
            self.is_retired(t),
        ensures
            self.apply(e).is_retired(t),
            !self.apply(e).contains(t),
            !self.apply(e).is_queued(t),
            self.polls(e) != Some(t),
            self.yields(e) != Some(t),
    {
        self.lemma_apply_wf(e);
        assert(!self.contains(t));
        if self.wake.queue.len() > 0 {
            assert(self.wake.queue.contains(self.wake.queue[0]));
        }
        match e {
            Event::Insert { token, unit } => {
                self.lemma_insert_wf(token, unit);
            },
            Event::Poll { outcome } => {
                self.lemma_begin_wf();
            },
            _ => {},
        }
    }

    /// A handle whose value the set has yielded, or whose unit was taken out,
    /// has left the set.
    pub proof fn lemma_yielded_is_retired<V>(self, e: Event<U, V>, t: WakeToken)
        requires
            self.wf(),
            self.admits(e),
            self.yields(e) == Some(t) || (e == (Event::<U, V>::Remove { token: t })
                && self.contains(t)),
        ensures
            self.apply(e).is_retired(t),
    {
        match e {
            Event::Poll { outcome } => {
                self.lemma_begin_wf();
                self.begin().lemma_remove_wf(t);
            },
            _ => {
                self.lemma_remove_wf(t);
            },
        }
    }

    /// Over any history, the set never yields a value for a handle that has
    /// left it before.
    pub proof fn lemma_never_yields_again<V>(self, events: Seq<Event<U, V>>, t: WakeToken)
        requires
            self.wf(),
            self.possible(events),
            self.is_retired(t),
        ensures
            self.after(events).is_retired(t),
            !self.after(events).contains(t),
            forall|k: int|
                0 <= k < events.len() ==> (#[trigger] self.after(events.take(k))).yields(events[k])
                    != Some(t),
        decreases events.len(),
    {
        assert(!self.contains(t));
        if events.len() > 0 {
            let front = events.drop_last();
            self.lemma_never_yields_again(front, t);
            self.lemma_after_wf(front);
            self.after(front).lemma_retired_for_good(events.last(), t);
            assert forall|k: int| 0 <= k < events.len() implies (#[trigger] self.after(
                events.take(k),
            )).yields(events[k]) != Some(t) by {
                if k < events.len() - 1 {
                    assert(front.take(k) =~= events.take(k));
                    assert((#[trigger] self.after(front.take(k))).yields(front[k]) != Some(t));
                } else {
                    assert(events.take(k) =~= front);
                }
            }
        }
    }
}

/// The unordered task set.
pub struct TaskSet<U> {
    registry: WakeRegistry,
    units: Vec<Option<U>>,
    parent: Option<WakeToken>,
}

impl<U> TaskSet<U> {
    pub closed spec fn view(&self) -> TaskSetView<U> {
        TaskSetView {
            units: Map::new(
                |t: WakeToken| self.registry@.is_live(t),
                |t: WakeToken| self.units@[t.index as int].unwrap(),
            ),
            wake: self.registry@,
            parent: self.parent,
        }
    }

    pub closed spec fn wf(&self) -> bool {
        &&& self.registry.wf()
        &&& self.units@.len() == self.registry.slots()
        &&& forall|t: WakeToken| #[trigger]
            self.registry@.is_live(t) ==> self.units@[t.index as int] is Some
        &&& self@.wf()
    }

    /// The set's invariant, as it shows in the view.
    pub proof fn lemma_view_wf(&self)
        requires
            self.wf(),
        ensures
            self@.wf(),
    {
    }

    /// Where only the slot of `t` was written, every other handle in use
    /// still stands before its unit.
    proof fn lemma_other_slots_kept(&self, before: &Self, t: WakeToken)
        requires
            before.wf(),
            self.units@.len() >= before.units@.len(),
            forall|i: int|
                0 <= i < before.units@.len() && i != t.index ==> self.units@[i] == before.units@[i],
            forall|u: WakeToken|
                u != t && #[trigger] self.registry@.is_live(u) ==> before.registry@.is_live(u)
                    && u.index != t.index,
        ensures
            forall|u: WakeToken|
                u != t && #[trigger] self.registry@.is_live(u) ==> self.units@[u.index as int] is Some,
            forall|u: WakeToken|
                u != t && #[trigger] self@.units.dom().contains(u) ==> self@.units[u]
                    == before@.units[u],
    {
        assert forall|u: WakeToken| u != t && #[trigger] self.registry@.is_live(u) implies self.units@[u.index as int] is Some
            && self.units@[u.index as int] == before.units@[u.index as int] by {
            before.registry.lemma_live_in_table(u);
        }
        assert forall|u: WakeToken| u != t && #[trigger] self@.units.dom().contains(u) implies self@.units[u]
            == before@.units[u] by {
            assert(self.registry@.is_live(u));
        }
    }

    pub fn new() -> (s: Self)
        ensures
            s.wf(),
            s@ == TaskSetView::<U>::empty(),
    {
        let s = TaskSet { registry: WakeRegistry::new(), units: Vec::new(), parent: None };
        proof {
            assert(s@.units =~= Map::empty());
        }
        s
    }

    /// The number of units held.
    pub fn len(&self) -> (n: usize)
        requires
            self.wf(),
        ensures
            n == self@.len(),
    {
        self.registry.len()
    }

    pub fn is_empty(&self) -> (e: bool)
        requires
            self.wf(),
        ensures
            e == (self@.len() == 0),
            e == (self@.units.dom() =~= Set::<WakeToken>::empty()),
    {
        proof {
            if self@.len() == 0 {
                assert(self@.wake.live.dom().len() == 0);
                assert(self@.wake.live.dom() =~= Set::<WakeToken>::empty());
            }
        }
        self.registry.len() == 0
    }

    /// The number of units waiting to be polled.
    pub fn ready_len(&self) -> (n: usize)
        requires
            self.wf(),
        ensures
            n == self@.wake.queue.len(),
    {
        self.registry.queued()
    }

    /// Whether `t` is the handle of a unit in the set.
    pub fn contains(&self, t: WakeToken) -> (c: bool)
        requires
            self.wf(),
        ensures
            c == self@.contains(t),
    {
        self.registry.status(t).is_some()
    }

    /// The wake status of the unit behind `t`.
    pub fn status(&self, t: WakeToken) -> (r: Option<Status>)
        requires
            self.wf(),
        ensures
            r == self@.wake.status(t),
    {
        self.registry.status(t)
    }

    /// Adds a unit and returns its handle, which no unit of this set has had
    /// before. The unit is queued for its first poll.
    pub fn insert(&mut self, unit: U) -> (t: WakeToken)
        requires
            old(self).wf(),
        ensures
            final(self).wf(),
            old(self)@.wake.is_fresh(t),
            !old(self)@.contains(t),
            final(self)@ == old(self)@.insert(t, unit),
            final(self)@.contains(t),
            final(self)@.len() == old(self)@.len() + 1,
    {
        let t = self.registry.allocate();
        let _ = self.registry.register(t);
        let _ = self.registry.fire(t);
        if t.index < self.units.len() {
            self.units.set(t.index, Some(unit));
        } else {
            self.units.push(Some(unit));
        }
        proof {
            let s = old(self)@;
            s.lemma_insert_wf(t, unit);
            self.lemma_other_slots_kept(old(self), t);
            assert(self@.units =~= s.units.insert(t, unit));
        }
        t
    }

    /// Fires the handle `t`. If `t` belongs to a unit that is armed, the unit
    /// joins the ready queue, and the call returns the driver's own handle,
    /// if one is kept, for the caller to fire in turn. Otherwise, and for a
    /// handle that is stale or unknown, nothing changes.
    pub fn wake(&mut self, t: WakeToken) -> (notice: Option<WakeToken>)
        requires
            old(self).wf(),
        ensures
            final(self).wf(),
            final(self)@ == old(self)@.wake(t),
            notice == old(self)@.notice(t),
    {
        let delivered = self.registry.fire(t);
        proof {
            let s = old(self)@;
            s.lemma_wake_wf(t);
            assert(self.registry@.live.dom() =~= s.wake.live.dom());
            assert(self@.units =~= s.units);
        }
        if delivered {
            let notice = self.parent;
            self.parent = None;
            notice
        } else {
            None
        }
    }

    /// Takes the unit behind `t` out of the set. Returns `None`, and changes
    /// nothing, if `t` is not the handle of a unit in the set.
    pub fn remove(&mut self, t: WakeToken) -> (r: Option<U>)
        requires
            old(self).wf(),
        ensures
            final(self).wf(),
            final(self)@ == old(self)@.remove(t),
            r == if old(self)@.contains(t) {
                Some(old(self)@.units[t])
            } else {
                None
            },
    {
        if !self.registry.release(t) {
            proof {
                assert(self@.units =~= old(self)@.units);
            }
            return None;
        }
        proof {
            old(self).registry.lemma_live_in_table(t);
        }
        let mut taken: Option<U> = None;
        std::mem::swap(&mut taken, &mut self.units[t.index]);
        proof {
            let s = old(self)@;
            s.lemma_remove_wf(t);
            self.lemma_other_slots_kept(old(self), t);
            assert(self@.units =~= s.units.remove(t));
        }
        taken
    }

    /// Starts the poll of the unit at the head of the ready queue: the unit
    /// leaves the queue and is armed, so that a wake that arrives during the
    /// poll is not lost. Returns its handle, or `None` if no unit is queued.
    pub fn begin_poll(&mut self) -> (r: Option<WakeToken>)
        requires
            old(self).wf(),
        ensures
            final(self).wf(),
            r == old(self)@.next(),
            final(self)@ == old(self)@.begin(),
    {
        let r = self.registry.next();
        proof {
            old(self)@.lemma_begin_wf();
        }
        match r {
            None => {
                proof {
                    assert(self@.units =~= old(self)@.units);
                }
                None
            },
            Some(t) => {
                let _ = self.registry.register(t);
                proof {
                    let s = old(self)@;
                    assert(s.wake.pop().arms(t));
                    assert(self.registry@.live.dom() =~= s.wake.live.dom());
                    assert(self@.units =~= s.units);
                }
                Some(t)
            },
        }
    }

    /// Ends the poll of the unit behind `t` with what the poll came back
    /// with. On `Ready(value)` the unit leaves the set and the call returns
    /// the handle with the value. On `Pending` the unit stays, armed, or
    /// queued again if `woken` says that it fired its own handle during the
    /// poll. For a handle that is not in the set, nothing changes.
    pub fn settle<V>(&mut self, t: WakeToken, outcome: Poll<V>, woken: bool) -> (r: Option<
        (WakeToken, V),
    >)
        requires
            old(self).wf(),
        ensures
            final(self).wf(),
            final(self)@ == (match outcome {
                Poll::Ready(_) => old(self)@.remove(t),
                Poll::Pending => old(self)@.settle_pending(t, woken),
            }),
            r == (match outcome {
                Poll::Ready(value) => if old(self)@.contains(t) {
                    Some((t, value))
                } else {
                    None
                },
                Poll::Pending => None,
            }),
    {
        match outcome {
            Poll::Ready(value) => {
                match self.remove(t) {
                    Some(_) => Some((t, value)),
                    None => None,
                }
            },
            Poll::Pending => {
                if woken {
                    let _ = self.registry.fire(t);
                    proof {
                        let s = old(self)@;
                        s.lemma_settle_pending_wf(t, woken);
                        assert(self.registry@.live.dom() =~= s.wake.live.dom());
                        assert(self@.units =~= s.units);
                    }
                }
                None
            },
        }
    }
}

impl<U> TaskSet<Abortable<U>> {
    /// Requests cancellation of the member behind `t` and fires its handle,
    /// so that its next poll comes and yields `Err(Aborted)`; the member then
    /// leaves the set like any unit that yields. Returns the driver's own
    /// handle, if the wake was delivered and one is kept, for the caller to
    /// fire in turn. For a handle that is not in the set, nothing changes.
    pub fn abort(&mut self, t: WakeToken) -> (notice: Option<WakeToken>)
        requires
            old(self).wf(),
        ensures
            final(self).wf(),
            final(self)@ == old(self)@.replace(t, old(self)@.units[t].aborted()).wake(t),
            notice == if old(self)@.contains(t) {
                old(self)@.notice(t)
            } else {
                None
            },
    {
        if self.registry.status(t).is_none() {
            proof {
                assert(!old(self)@.wake.delivers(t));
            }
            return None;
        }
        proof {
            self.registry.lemma_live_in_table(t);
        }
        let slot = &mut self.units[t.index];
        match slot {
            Some(unit) => {
                let _ = unit.abort();
            },
            None => {},
        }
        proof {
            let s = old(self)@;
            self.lemma_other_slots_kept(old(self), t);
            assert(self@.units =~= s.units.insert(t, s.units[t].aborted()));
            s.lemma_replace_wf(t, s.units[t].aborted());
        }
        self.wake(t)
    }
}

impl<U: Unit> TaskSet<U> {
    /// Polls the unit behind `t` where it stands, with a context that holds
    /// the unit's own handle and no wake yet.
    fn poll_member(&mut self, t: WakeToken, cx: &mut Context) -> (r: Poll<U::Output>)
        requires
            old(self).wf(),
            old(self)@.contains(t),
            old(cx).token == t,
            !old(cx).woken,
        ensures
            final(self).wf(),
            final(self)@.contains(t),
            final(self)@ == old(self)@.replace(t, final(self)@.units[t]),
    {
        proof {
            self.registry.lemma_live_in_table(t);
        }
        let slot = &mut self.units[t.index];
        let r = match slot {
            Some(unit) => unit.poll(cx),
            None => vstd::pervasive::unreached(),
        };
        proof {
            let s = old(self)@;
            self.lemma_other_slots_kept(old(self), t);
            assert(self@.units =~= s.units.insert(t, self@.units[t]));
            s.lemma_replace_wf(t, self@.units[t]);
        }
        r
    }

    /// Drives the set: polls queued units, oldest first, until one yields its
    /// value, or until every unit that was queued at the start of the call
    /// has been polled once.
    ///
    /// Returns `Ready(None)` if the set holds no unit, `Ready(Some((t, v)))`
    /// if the unit behind `t` yielded `v`, and `Pending` otherwise. Before it
    /// answers `Pending` the set keeps the caller's wake handle, and asks for
    /// another poll through `cx` if units are queued already.
    pub fn poll_next(&mut self, cx: &mut Context) -> (r: Poll<Option<(WakeToken, U::Output)>>)
        requires
            old(self).wf(),
        ensures
            final(self).wf(),
            old(self)@.len() == 0 ==> r == Poll::<Option<(WakeToken, U::Output)>>::Ready(None)
                && final(self)@ == old(self)@ && *final(cx) == *old(cx),
            old(self)@.len() > 0 ==> exists|outs: Seq<Outcome<U, U::Output>>|
                old(self)@.drives(outs, *old(cx), final(self)@, r, *final(cx)),
            r is Ready ==> *final(cx) == *old(cx),
            match r {
                Poll::Ready(Some((t, _))) => {
                    &&& old(self)@.contains(t)
                    &&& final(self)@.units.dom() =~= old(self)@.units.dom().remove(t)
                    &&& final(self)@.len() == old(self)@.len() - 1
                    &&& final(self)@.is_retired(t)
                },
                Poll::Ready(None) => old(self)@.len() == 0,
                Poll::Pending => {
                    &&& final(self)@.units.dom() =~= old(self)@.units.dom()
                    &&& final(self)@.len() == old(self)@.len()
                    &&& old(self)@.len() > 0
                },
            },
    {
        if self.registry.len() == 0 {
            return Poll::Ready(None);
        }
        let budget = self.registry.queued();
        let mut polled: usize = 0;
        let ghost mut outs: Seq<Outcome<U, U::Output>> = Seq::empty();
        while polled < budget
            invariant
                self.wf(),
                polled <= budget,
                budget == old(self)@.wake.queue.len(),
                outs.len() == polled,
                forall|k: int| 0 <= k < outs.len() ==> #[trigger] outs[k] is Pending,
                self@ == old(self)@.run(outs),
                self@.wake.queue.len() >= budget - polled,
                *cx == *old(cx),
                old(self)@.len() > 0,
                self@.units.dom() =~= old(self)@.units.dom(),
                self@.len() == old(self)@.len(),
            decreases budget - polled,
        {
            let ghost s = self@;
            let t = match self.begin_poll() {
                Some(t) => t,
                None => vstd::pervasive::unreached(),
            };
            proof {
                s.lemma_begin_wf();
                s.begin().lemma_remove_wf(t);
            }
            let mut inner = Context::new(t);
            let outcome = self.poll_member(t, &mut inner);
            let woken = inner.was_woken();
            let ghost unit = self@.units[t];
            let ghost o = Outcome::of(outcome, unit, woken);
            let done = self.settle(t, outcome, woken);
            proof {
                s.lemma_step_wf(o);
                assert(s.begin().replace(t, unit).remove(t).units =~= s.begin().remove(t).units);
                assert(self@ == s.step(o));
                assert(outs.push(o).drop_last() =~= outs);
                assert(self@ == old(self)@.run(outs.push(o)));
            }
            match done {
                Some(pair) => {
                    proof {
                        outs = outs.push(o);
                        assert(old(self)@.drives(outs, *old(cx), self@, Poll::Ready(Some(pair)), *cx));
                    }
                    return Poll::Ready(Some(pair));
                },
                None => {},
            }
            proof {
                outs = outs.push(o);
            }
            polled = polled + 1;
        }
        self.parent = Some(cx.token());
        if self.registry.queued() > 0 {
            cx.wake();
        }
        proof {
            assert(self@ == old(self)@.run(outs).with_parent(Some(old(cx).token)));
            assert(old(self)@.drives(
                outs,
                *old(cx),
                self@,
                Poll::<Option<(WakeToken, U::Output)>>::Pending,
                *cx,
            ));
        }
        Poll::Pending
    }
}

} // verus!
