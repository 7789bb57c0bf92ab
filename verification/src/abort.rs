//! Cooperative cancellation: a unit wrapped so that it can be told to stop.
//!
//! Cancellation is a request, not an interruption. `abort` only sets a flag;
//! the wrapped unit sees the flag at its next poll and yields
//! `Err(Aborted)` in place of polling the unit inside. A unit that has
//! yielded its own value before the request was seen keeps it.

use vstd::prelude::*;
use crate::poll::Context;
use crate::poll::Poll;
use crate::poll::Unit;
use crate::wake::WakeToken;

verus! {

/// The cancellation flag.
#[derive(Clone, Copy, PartialEq, Eq, Structural, Debug)]
pub enum CancelFlag {
    /// No cancellation was asked for.
    Active,
    /// Cancellation was asked for and the unit has not seen it yet.
    CancelRequested,
    /// The unit has seen the request and yielded `Err(Aborted)`.
    Cancelled,
}

/// The terminal result of a unit that was cancelled.
#[derive(Clone, Copy, PartialEq, Eq, Structural, Debug)]
pub struct Aborted;

/// What a poll of a wrapped unit does before anything else.
#[derive(Clone, Copy, PartialEq, Eq, Structural, Debug)]
pub enum Gate {
    /// The wrapped unit has yielded before: there is nothing to do.
    Finished,
    /// A cancellation request is waiting: yield `Err(Aborted)`.
    Abort,
    /// Poll the unit inside.
    Delegate,
}

/// What the abort handle and the wrapped unit share.
#[derive(Clone, Copy, PartialEq, Eq, Structural, Debug)]
pub struct AbortState {
    pub flag: CancelFlag,
    /// Whether the unit inside has yielded its own value.
    pub completed: bool,
    /// The wake handle that the wrapped unit was last polled with, kept
    /// while it waits, so that a cancellation request can bring on its
    /// next poll.
    pub waiter: Option<WakeToken>,
}

impl AbortState {
    pub open spec fn fresh() -> Self {
        AbortState { flag: CancelFlag::Active, completed: false, waiter: None }
    }

    /// Whether the wrapped unit has yielded, its own value or `Aborted`.
    pub open spec fn finished(self) -> bool {
        self.completed || self.flag == CancelFlag::Cancelled
    }

    /// Whether cancellation was requested, seen or not.
    pub open spec fn aborted(self) -> bool {
        self.flag != CancelFlag::Active
    }

    /// The state after a cancellation request.
    pub open spec fn request(self) -> Self {
        if self.finished() || self.flag == CancelFlag::CancelRequested {
            self
        } else {
            AbortState { flag: CancelFlag::CancelRequested, completed: false, waiter: None }
        }
    }

    /// The wake handle that a cancellation request hands back for the caller
    /// to fire: the waiter's, at the first request that reaches a running
    /// unit.
    pub open spec fn notice(self) -> Option<WakeToken> {
        if self.finished() || self.flag == CancelFlag::CancelRequested {
            None
        } else {
            self.waiter
        }
    }

    pub open spec fn gate(self) -> Gate {
        if self.finished() {
            Gate::Finished
        } else if self.flag == CancelFlag::CancelRequested {
            Gate::Abort
        } else {
            Gate::Delegate
        }
    }

    /// The state after the request was seen.
    pub open spec fn cancelled(self) -> Self {
        AbortState { flag: CancelFlag::Cancelled, completed: false, waiter: None }
    }

    /// The state after the unit inside was polled with the handle `token`
    /// and answered `Ready` (`ready`) or `Pending`.
    pub open spec fn settled(self, ready: bool, token: WakeToken) -> Self {
        if ready {
            AbortState { flag: self.flag, completed: true, waiter: None }
        } else {
            AbortState { flag: self.flag, completed: false, waiter: Some(token) }
        }
    }

    pub fn new() -> (s: Self)
        ensures
            s == Self::fresh(),
    {
        AbortState { flag: CancelFlag::Active, completed: false, waiter: None }
    }

    pub fn is_finished(&self) -> (f: bool)
        ensures
            f == self.finished(),
    {
        self.completed || self.flag == CancelFlag::Cancelled
    }

    pub fn is_aborted(&self) -> (a: bool)
        ensures
            a == self.aborted(),
    {
        self.flag != CancelFlag::Active
    }

    /// Requests cancellation. The first request that reaches a running unit
    /// sets the flag and returns the waiter's handle, if there is one, for
    /// the caller to fire. Every other request changes nothing and returns
    /// `None`: a second request, and one that comes after the unit yielded.
    pub fn abort(&mut self) -> (notice: Option<WakeToken>)
        ensures
            *final(self) == old(self).request(),
            notice == old(self).notice(),
    {
        if self.is_finished() || self.flag == CancelFlag::CancelRequested {
            return None;
        }
        let notice = self.waiter;
        self.flag = CancelFlag::CancelRequested;
        self.waiter = None;
        notice
    }

    /// What the next poll of the wrapped unit does first.
    pub fn check(&self) -> (g: Gate)
        ensures
            g == self.gate(),
    {
        if self.is_finished() {
            Gate::Finished
        } else if self.flag == CancelFlag::CancelRequested {
            Gate::Abort
        } else {
            Gate::Delegate
        }
    }

    /// Records that the request was seen and `Err(Aborted)` yielded.
    pub fn cancel(&mut self)
        ensures
            *final(self) == old(self).cancelled(),
    {
        self.flag = CancelFlag::Cancelled;
        self.completed = false;
        self.waiter = None;
    }

    /// Records what a poll of the unit inside, made with the handle `token`,
    /// came back with.
    pub fn settle(&mut self, ready: bool, token: WakeToken)
        ensures
            *final(self) == old(self).settled(ready, token),
    {
        self.completed = ready;
        if ready {
            self.waiter = None;
        } else {
            self.waiter = Some(token);
        }
    }

    /// Requesting cancellation once or many times comes to the same: the
    /// second request changes nothing and hands back no handle.
    pub proof fn lemma_request_idempotent(self)
        ensures
            self.request().request() == self.request(),
            self.request().notice().is_none(),
            self.request().gate() == (if self.finished() {
                Gate::Finished
            } else {
                Gate::Abort
            }),
    {
    }

    /// The state after `n` cancellation requests in a row.
    pub open spec fn request_times(self, n: nat) -> Self
        decreases n,
    {
        if n == 0 {
            self
        } else {
            self.request_times((n - 1) as nat).request()
        }
    }

    /// One request or any number of them leave the same state, and so the
    /// same outcome of every later poll.
    pub proof fn lemma_request_any_number_of_times(self, n: nat)
        requires
            n >= 1,
        ensures
            self.request_times(n) == self.request(),
        decreases n,
    {
        if n > 1 {
            self.lemma_request_any_number_of_times((n - 1) as nat);
        } else {
            assert(self.request_times(0) == self);
        }
    }

    /// A request that comes after the unit has yielded changes nothing: the
    /// value that was yielded stands.
    pub proof fn lemma_request_after_finish(self)
        requires
            self.finished(),
        ensures
            self.request() == self,
            self.notice().is_none(),
            self.request().gate() == Gate::Finished,
    {
    }

    /// Once the request is seen the unit is finished, for good: no later
    /// request or poll yields `Aborted` again.
    pub proof fn lemma_cancelled_is_final(self)
        ensures
            self.cancelled().finished(),
            self.cancelled().gate() == Gate::Finished,
            self.cancelled().request() == self.cancelled(),
    {
    }
}

/// A unit together with its cancellation state.
pub struct Abortable<U> {
    pub unit: U,
    pub state: AbortState,
}

impl<U> Abortable<U> {
    /// This wrapped unit after a cancellation request.
    pub open spec fn aborted(self) -> Self {
        Abortable { unit: self.unit, state: self.state.request() }
    }

    /// Wraps `unit`: running, with no cancellation asked for.
    pub fn new(unit: U) -> (a: Self)
        ensures
            a.unit == unit,
            a.state == AbortState::fresh(),
    {
        Abortable { unit, state: AbortState::new() }
    }

    /// Requests cancellation of the wrapped unit; see [`AbortState::abort`].
    pub fn abort(&mut self) -> (notice: Option<WakeToken>)
        ensures
            *final(self) == old(self).aborted(),
            notice == old(self).state.notice(),
    {
        self.state.abort()
    }

    pub fn is_aborted(&self) -> (a: bool)
        ensures
            a == self.state.aborted(),
    {
        self.state.is_aborted()
    }

    pub fn is_finished(&self) -> (f: bool)
        ensures
            f == self.state.finished(),
    {
        self.state.is_finished()
    }
}

impl<U: Unit> Unit for Abortable<U> {
    type Output = Result<U::Output, Aborted>;

    /// Polls the wrapped unit.
    ///
    /// If a cancellation request is waiting, the poll yields `Err(Aborted)`
    /// and leaves the unit inside alone. Otherwise it polls the unit inside
    /// and passes its answer on, a value as `Ok`. Once the wrapped unit has
    /// yielded, either way, it is finished: further polls answer `Pending`
    /// and do nothing, so that `Err(Aborted)` comes exactly once and a value
    /// that was yielded is never taken back.
    fn poll(&mut self, cx: &mut Context) -> (r: Poll<Result<U::Output, Aborted>>)
        ensures
            match old(self).state.gate() {
                Gate::Finished => r is Pending && *final(self) == *old(self) && *final(cx) == *old(
                    cx,
                ),
                Gate::Abort => r == Poll::<Result<U::Output, Aborted>>::Ready(Err(Aborted))
                    && final(self).unit == old(self).unit && final(self).state == old(
                    self,
                ).state.cancelled() && *final(cx) == *old(cx),
                Gate::Delegate => (r is Pending || (r matches Poll::Ready(v) && v is Ok))
                    && final(self).state == old(self).state.settled(r is Ready, old(cx).token),
            },
    {
        match self.state.check() {
            Gate::Finished => Poll::Pending,
            Gate::Abort => {
                self.state.cancel();
                Poll::Ready(Err(Aborted))
            },
            Gate::Delegate => {
                let token = cx.token();
                match self.unit.poll(cx) {
                    Poll::Ready(value) => {
                        self.state.settle(true, token);
                        Poll::Ready(Ok(value))
                    },
                    Poll::Pending => {
                        self.state.settle(false, token);
                        Poll::Pending
                    },
                }
            },
        }
    }
}

/// Wraps `unit` so that it can be cancelled.
pub fn abortable<U>(unit: U) -> (a: Abortable<U>)
    ensures
        a.unit == unit,
        a.state == AbortState::fresh(),
{
    Abortable::new(unit)
}

} // verus!
