//! A cooperative, poll-driven engine for collections of asynchronous units.
//!
//! The crate holds the bookkeeping that sits between a driver, which polls,
//! and the units it drives: wake delivery ([`wake`]), a growable set of units
//! that completes in readiness order ([`task_set`]), admission under a
//! concurrency limit ([`pipeline`]) with optional release in admission order
//! ([`reorder`]), fair multiplexing of several sequences ([`select`]) and
//! cooperative cancellation ([`abort`]). The contract that units and
//! sequences keep towards their driver is in [`poll`].
//!
//! Every operation is a short, sequential step: nothing here blocks, and a
//! driver that shares one of these structures between threads puts each step
//! behind its own lock.

pub mod abort;
pub mod pipeline;
pub mod poll;
pub mod reorder;
pub mod select;
pub mod task_set;
pub mod wake;
