//! The contract between a driver and the units it polls.

use vstd::prelude::*;
use crate::wake::WakeToken;

verus! {

/// What one poll of a unit reports.
#[derive(Debug)]
pub enum Poll<T> {
    /// The unit cannot progress yet; it has kept the wake handle it was
    /// polled with and will fire it when there is work to do.
    Pending,
    /// The unit produced a value.
    Ready(T),
}

impl<T> Poll<T> {
    pub fn is_ready(&self) -> (r: bool)
        ensures
            r == (self is Ready),
    {
        match self {
            Poll::Ready(_) => true,
            Poll::Pending => false,
        }
    }

    pub fn is_pending(&self) -> (r: bool)
        ensures
            r == (self is Pending),
    {
        match self {
            Poll::Ready(_) => false,
            Poll::Pending => true,
        }
    }
}

/// What a unit is handed when it is polled: the wake handle to keep, and a
/// way to ask for another poll right away.
#[derive(Debug)]
pub struct Context {
    /// The handle that, once fired, brings the polled unit back to its
    /// driver's attention.
    pub token: WakeToken,
    /// Set when the unit fired its own handle during the poll.
    pub woken: bool,
}

impl Context {
    pub fn new(token: WakeToken) -> (cx: Self)
        ensures
            cx.token == token,
            !cx.woken,
    {
        Context { token, woken: false }
    }

    /// The wake handle of the unit being polled.
    pub fn token(&self) -> (t: WakeToken)
        ensures
            t == self.token,
    {
        self.token
    }

    /// Fires the polled unit's own handle: it will be polled again without
    /// waiting for an outside event.
    pub fn wake(&mut self)
        ensures
            final(self).woken,
            final(self).token == old(self).token,
    {
        self.woken = true;
    }

    pub fn was_woken(&self) -> (w: bool)
        ensures
            w == self.woken,
    {
        self.woken
    }
}

/// A unit that eventually yields one value.
///
/// `poll` answers `Pending` while the value is not there, and `Ready` with
/// the value once. Polling a unit again after that is a usage error, which
/// no driver in this crate commits: a unit that answered `Ready` leaves its
/// collection at once.
pub trait Unit {
    type Output;

    fn poll(&mut self, cx: &mut Context) -> Poll<Self::Output>;
}

/// A unit that yields a sequence of items and signals its end with
/// `Ready(None)`.
///
/// Polling a sequence again after it signalled its end is a usage error,
/// which no driver in this crate commits; [`Fuse`] makes it harmless.
pub trait Sequence {
    type Item;

    fn poll_next(&mut self, cx: &mut Context) -> Poll<Option<Self::Item>>;
}

/// A sequence that may be polled after its end: once the inner sequence has
/// signalled its end, every further poll answers `Ready(None)` without
/// touching it.
pub struct Fuse<S> {
    inner: S,
    done: bool,
}

impl<S> Fuse<S> {
    /// The sequence inside.
    pub closed spec fn inner(&self) -> S {
        self.inner
    }

    /// True once the inner sequence has signalled its end.
    pub closed spec fn is_done(&self) -> bool {
        self.done
    }

    pub fn new(inner: S) -> (f: Self)
        ensures
            f.inner() == inner,
            !f.is_done(),
    {
        Fuse { inner, done: false }
    }

    pub fn done(&self) -> (d: bool)
        ensures
            d == self.is_done(),
    {
        self.done
    }

    /// Gives the sequence inside back.
    pub fn into_inner(self) -> (s: S)
        ensures
            s == self.inner(),
    {
        self.inner
    }
}

impl<S: Sequence> Sequence for Fuse<S> {
    type Item = S::Item;

    /// Polls the inner sequence, unless it has signalled its end before.
    fn poll_next(&mut self, cx: &mut Context) -> (r: Poll<Option<S::Item>>)
        ensures
            old(self).is_done() ==> r == Poll::<Option<S::Item>>::Ready(None) && *final(self)
                == *old(self) && *final(cx) == *old(cx),
            final(self).is_done() <==> r == Poll::<Option<S::Item>>::Ready(None),
    {
        if self.done {
            return Poll::Ready(None);
        }
        let r = self.inner.poll_next(cx);
        match r {
            Poll::Ready(None) => {
                self.done = true;
            },
            _ => {},
        }
        r
    }
}

} // verus!
