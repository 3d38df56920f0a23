//! An unsynchronized oneshot channel.
//!
//! The [`Sender`] and the [`Receiver`] communicate through a [`Channel`], which
//! holds the state that they share.
use crate::bi_rc::{BiRc, Inner};
use crate::task::{register, wake_and_clear, Poll};
use std::task::Waker;
use vstd::prelude::*;

verus! {

/// Error raised when sending a message over the queue.
#[derive(Debug, Clone, Copy, PartialEq, Eq, PartialOrd, Ord)]
pub struct SendError<T>(pub T);

impl<T> SendError<T> {
    /// A description of the error.
    pub fn message(&self) -> (message: &'static str)
        ensures
            message@ == "channel disconnected"@,
    {
        "channel disconnected"
    }
}

/// Interior shared state.
struct Shared<T> {
    /// Waker to wake once value is set.
    waker: Option<Waker>,
    /// The value that was sent and has not been received.
    buf: Option<T>,
}

/// The state that the two ends of a channel share.
pub struct Channel<T> {
    inner: Inner<Shared<T>>,
}

/// The contents of a channel.
pub struct State<T> {
    /// The number of ends that have not been dropped.
    pub ends: int,
    /// The task to wake once a value has been sent.
    pub waker: Option<Waker>,
    /// The value that was sent and has not been received.
    pub buf: Option<T>,
}

impl<T> State<T> {
    pub open spec fn inv(self) -> bool {
        &&& 0 <= self.ends <= 2
        &&& self.ends == 0 ==> self.waker is None && self.buf is None
    }

    /// The channel after one of its ends has been dropped: the task that waits for a value, if
    /// there is one, has been woken, and with the last end what was left in the channel is gone.
    pub open spec fn dropped(self) -> Self {
        State {
            ends: self.ends - 1,
            waker: None,
            buf: if self.ends > 1 {
                self.buf
            } else {
                None
            },
        }
    }

    /// The channel after `value` has been sent over it, and the sender is gone.
    pub open spec fn sent(self, value: T) -> Self {
        if self.ends == 2 {
            State { buf: Some(value), ..self }.dropped()
        } else {
            self.dropped()
        }
    }

    /// What the receiver gets from the channel.
    pub open spec fn received(self) -> Poll<Option<T>> {
        if self.buf is Some {
            Poll::Ready(self.buf)
        } else if self.ends < 2 {
            Poll::Ready(None)
        } else {
            Poll::Pending
        }
    }

    /// The channel after the receiver has been polled by the task of `waker`.
    pub open spec fn polled(self, waker: Waker) -> Self {
        if self.buf is Some {
            State { buf: None, ..self }
        } else if self.ends < 2 {
            State { waker: None, ..self }
        } else {
            State { waker: Some(waker), ..self }
        }
    }
}

impl<T> View for Channel<T> {
    type V = State<T>;

    closed spec fn view(&self) -> State<T> {
        State {
            ends: self.inner.count(),
            waker: match self.inner.value() {
                Some(shared) => shared.waker,
                None => None,
            },
            buf: match self.inner.value() {
                Some(shared) => shared.buf,
                None => None,
            },
        }
    }
}

impl<T> Channel<T> {
    /// The state is there as long as one of the ends is.
    pub closed spec fn allocated(&self) -> bool {
        self.inner.wf()
    }

    pub open spec fn wf(&self) -> bool {
        self.allocated() && self@.inv()
    }
}

/// Sender end of the channel created through [`channel`].
///
/// See [`Sender::send`] for how to use.
pub struct Sender<T> {
    inner: BiRc<Shared<T>>,
}

impl<T> Sender<T> {
    /// Send a message over this channel.
    ///
    /// This raises [`SendError`] in case the receiver end of the channel has been closed.
    pub fn send(self, channel: &mut Channel<T>, value: T, wakes: &mut Vec<Waker>) -> (result: Result<
        (),
        SendError<T>,
    >)
        requires
            old(channel).wf(),
            old(channel)@.ends > 0,
        ensures
            final(channel).wf(),
            result == (if old(channel)@.ends == 2 {
                Ok::<(), SendError<T>>(())
            } else {
                Err::<(), SendError<T>>(SendError(value))
            }),
            final(channel)@ == old(channel)@.sent(value),
            final(wakes)@ == old(wakes)@ + crate::task::pending_wake(old(channel)@.waker),
    {
        let (shared, both_present) = self.inner.get_mut_unchecked(&mut channel.inner);
        if !both_present {
            self.close(channel, wakes);
            return Err(SendError(value));
        }
        shared.buf = Some(value);
        self.close(channel, wakes);
        Ok(())
    }

    /// Drop the sender, waking the receiver.
    pub fn close(self, channel: &mut Channel<T>, wakes: &mut Vec<Waker>)
        requires
            old(channel).wf(),
            old(channel)@.ends > 0,
        ensures
            final(channel).wf(),
            final(channel)@ == old(channel)@.dropped(),
            final(wakes)@ == old(wakes)@ + crate::task::pending_wake(old(channel)@.waker),
    {
        let (shared, _) = self.inner.get_mut_unchecked(&mut channel.inner);
        wake_and_clear(&mut shared.waker, wakes);
        self.inner.release(&mut channel.inner);
    }
}

/// Receiver end of the channel created through [`channel`].
pub struct Receiver<T> {
    inner: BiRc<Shared<T>>,
}

impl<T> Receiver<T> {
    /// Poll for the value with the waker of the current task.
    ///
    /// This completes with `None` if the sender was dropped without sending a value.
    pub fn poll(&mut self, channel: &mut Channel<T>, waker: &Waker) -> (result: Poll<Option<T>>)
        requires
            old(channel).wf(),
            old(channel)@.ends > 0,
        ensures
            final(channel).wf(),
            result == old(channel)@.received(),
            final(channel)@ == old(channel)@.polled(*waker),
    {
        let (shared, both_present) = self.inner.get_mut_unchecked(&mut channel.inner);
        if let Some(value) = shared.buf.take() {
            return Poll::Ready(Some(value));
        }
        if !both_present {
            shared.waker = None;
            return Poll::Ready(None);
        }
        register(&mut shared.waker, waker);
        Poll::Pending
    }

    /// Drop the receiver.
    pub fn close(self, channel: &mut Channel<T>, wakes: &mut Vec<Waker>)
        requires
            old(channel).wf(),
            old(channel)@.ends > 0,
        ensures
            final(channel).wf(),
            final(channel)@ == old(channel)@.dropped(),
            final(wakes)@ == old(wakes)@ + crate::task::pending_wake(old(channel)@.waker),
    {
        let (shared, _) = self.inner.get_mut_unchecked(&mut channel.inner);
        wake_and_clear(&mut shared.waker, wakes);
        self.inner.release(&mut channel.inner);
    }
}

/// Setup a oneshot channel.
pub fn channel<T>() -> (ends: (Channel<T>, Sender<T>, Receiver<T>))
    ensures
        ends.0.wf(),
        ends.0@ == (State::<T> { ends: 2, waker: None, buf: None }),
{
    let (inner, a, b) = BiRc::new(Shared { waker: None, buf: None });
    (Channel { inner }, Sender { inner: b }, Receiver { inner: a })
}

/// A value that is sent while both ends are alive is what the receiver gets next, though the
/// sender is gone by then; and it gets it once.
pub proof fn law_sent_value_is_received_once<T>(state: State<T>, value: T, waker: Waker)
    requires
        state.inv(),
        state.ends == 2,
    ensures
        state.sent(value).received() == Poll::Ready(Some(value)),
        state.sent(value).polled(waker).received() == Poll::Ready(None::<T>),
{
}

/// A receiver whose sender was dropped without sending gets `None`.
pub proof fn law_dropped_sender_ends_receiver<T>(state: State<T>)
    requires
        state.inv(),
        state.ends == 2,
        state.buf is None,
    ensures
        state.dropped().received() == Poll::Ready(None::<T>),
{
}

/// A receiver that is told to wait is the one that the sender wakes, by sending or by being
/// dropped.
pub proof fn law_pending_receiver_is_registered<T>(state: State<T>, waker: Waker)
    requires
        state.inv(),
        state.received() is Pending,
    ensures
        crate::task::pending_wake(state.polled(waker).waker) == seq![waker],
{
}

/// The sender is gone after it has sent, and its value is in the channel if the receiver is there
/// to get it. An end that is dropped leaves the value to the other one. With the last end, what
/// was in the channel is gone. Whichever end goes, nobody is registered any more.
pub proof fn law_ends_go_one_by_one<T>(state: State<T>, value: T)
    requires
        1 <= state.ends <= 2,
    ensures
        state.sent(value).ends == state.ends - 1,
        state.ends == 2 ==> state.sent(value).buf == Some(value),
        state.ends == 1 ==> state.sent(value).buf is None,
        state.sent(value).waker is None,
        state.dropped().ends == state.ends - 1,
        state.ends == 2 ==> state.dropped().buf == state.buf,
        state.ends == 1 ==> state.dropped().buf is None,
        state.dropped().waker is None,
{
}

/// The receiver gets the value that is in the channel and takes it out. If there is none it waits
/// as long as the sender is there, and gets `None` once it is gone.
pub proof fn law_receiver_gets_what_is_there<T>(state: State<T>, waker: Waker)
    ensures
        state.buf matches Some(value) ==> {
            &&& state.received() == Poll::Ready(Some(value))
            &&& state.polled(waker) == (State {
                ends: state.ends,
                waker: state.waker,
                buf: None::<T>,
            })
        },
        state.buf is None && state.ends < 2 ==> {
            &&& state.received() == Poll::Ready(None::<T>)
            &&& state.polled(waker) == (State { ends: state.ends, waker: None, buf: state.buf })
        },
        state.buf is None && state.ends >= 2 ==> {
            &&& state.received() is Pending
            &&& state.polled(waker) == (State {
                ends: state.ends,
                waker: Some(waker),
                buf: state.buf,
            })
        },
{
}

} // verus!
