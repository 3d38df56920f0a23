//! Unsynchronized synchronization primitives for asynchronous programs, verified.
//!
//! This crate provides a fairly simple set of synchronization primitives for
//! single-threaded systems: channels in [`oneshot`], [`spsc`], [`broadcast`] and
//! [`fixed_broadcast`], a [`Semaphore`], a [`OnceCell`], and the [`wait_list`]
//! that the latter two are built on.
//!
//! The primitives are state machines. What the parties to a primitive share is a
//! value of its own, such as a channel or a semaphore, which the caller owns and
//! lends to each operation. An operation that waits is a future, which is polled
//! with the [`Waker`](std::task::Waker) of the task that waits, and answers with
//! a [`task::Poll`]. A future that is dropped before it has completed is
//! cancelled with its `cancel` method, and an end of a channel that is dropped is
//! given to its `close` method. No operation wakes a task by itself: it appends
//! the wakers of the tasks to be woken to a list, in order, for the caller to
//! wake.
pub mod bi_rc;
pub mod broad_rc;
pub mod broad_ref;
pub mod broadcast;
pub mod fixed_broadcast;
pub mod once_cell;
pub mod oneshot;
mod registry;
pub mod semaphore;
pub mod spsc;
pub mod task;
pub mod utils;
pub mod wait_list;

pub use once_cell::OnceCell;
pub use semaphore::{Permit, Semaphore};
