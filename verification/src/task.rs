//! The two things every future of this crate exchanges with its executor: a
//! [`Waker`], and the [`Poll`] it answers with.
//!
//! Nothing in this crate wakes a task by itself. An operation that has tasks to
//! wake appends their wakers to a list, in the order in which they are to be
//! woken, and the caller wakes them once the operation has returned.
use std::task::Waker;
use vstd::prelude::*;

verus! {

/// The standard library's handle to a task that can be woken.
///
/// A `Waker` is opaque. In contracts its value stands for the task that it
/// wakes, so two wakers are equal when they wake the same task.
#[verifier::external_type_specification]
#[verifier::external_body]
pub struct ExWaker(Waker);

/// The outcome of polling a future once.
#[derive(Debug, PartialEq, Eq)]
pub enum Poll<T> {
    /// The future has completed with a value.
    Ready(T),
    /// The future has not completed yet.
    Pending,
}

/// Calls [`Waker::clone`], whose result wakes the task that `waker` wakes.
#[verifier::external_body]
pub(crate) fn clone_waker(waker: &Waker) -> (copy: Waker)
    ensures
        copy == *waker,
{
    waker.clone()
}

/// Calls [`Waker::will_wake`]. If it answers `true` both wakers wake the same
/// task. It may answer `false` of two wakers that do, so nothing follows from
/// `false`.
#[verifier::external_body]
pub(crate) fn will_wake(waker: &Waker, other: &Waker) -> (same: bool)
    ensures
        same ==> *waker == *other,
{
    waker.will_wake(other)
}

/// Makes `slot` hold a waker for the task of `waker`, cloning `waker` only if
/// the slot does not hold one already.
pub fn register(slot: &mut Option<Waker>, waker: &Waker)
    ensures
        *final(slot) == Some(*waker),
{
    let keep = match slot {
        Some(current) => will_wake(current, waker),
        None => false,
    };
    if !keep {
        *slot = Some(clone_waker(waker));
    }
}

/// The wakers that waking `slot` hands out: the one it holds, if it holds one.
pub open spec fn pending_wake(slot: Option<Waker>) -> Seq<Waker> {
    match slot {
        Some(waker) => seq![waker],
        None => Seq::empty(),
    }
}

/// Schedules the task registered in `slot`, if there is one, to be woken, and
/// leaves it registered.
pub fn wake_by_ref(slot: &Option<Waker>, wakes: &mut Vec<Waker>)
    ensures
        final(wakes)@ == old(wakes)@ + pending_wake(*slot),
        match *slot {
            Some(waker) => final(wakes)@ == old(wakes)@.push(waker),
            None => final(wakes)@ == old(wakes)@,
        },
{
    if let Some(waker) = slot {
        wakes.push(clone_waker(waker));
    }
}

/// Schedules the task registered in `slot`, if there is one, to be woken, and
/// empties the slot.
pub fn wake_and_clear(slot: &mut Option<Waker>, wakes: &mut Vec<Waker>)
    ensures
        *final(slot) is None,
        final(wakes)@ == old(wakes)@ + pending_wake(*old(slot)),
        match *old(slot) {
            Some(waker) => final(wakes)@ == old(wakes)@.push(waker),
            None => final(wakes)@ == old(wakes)@,
        },
{
    if let Some(waker) = slot.take() {
        wakes.push(waker);
    }
}

/// The task that is registered in a slot is woken once, and nobody is if none is registered.
pub proof fn law_registered_task_is_woken_once(slot: Option<Waker>)
    ensures
        slot matches Some(waker) ==> pending_wake(slot).len() == 1 && pending_wake(slot)[0] == waker,
        slot is None ==> pending_wake(slot).len() == 0,
{
}

} // verus!
