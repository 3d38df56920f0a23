//! A fixed-size broadcast channel.
//!
//! You might also know this simply as a "queue", but I'm sticking with a
//! uniform naming scheme.
//!
//! This uses no buffer for messages sent: a message is handed to a receiver only
//! while the receiver is waiting for it.
//!
//! The [`Sender`] and the [`Receiver`]s communicate through a [`Channel`], which
//! holds the state that they share.
use crate::broad_ref::{BroadRef, Inner, Weak};
use crate::task::{clone_waker, register, wake_and_clear, wake_by_ref, will_wake, Poll};
use std::task::Waker;
use vstd::prelude::*;

verus! {

/// The description of a [`SendError`].
pub const MESSAGE: &'static str = "no receivers to broadcast channel";

/// Error raised when sending a message over the queue, which hands the message
/// back.
#[derive(Clone, Copy)]
#[non_exhaustive]
pub struct SendError<T>(pub T);

impl<T> SendError<T> {
    /// A description of the error.
    pub fn message(&self) -> (message: &'static str)
        ensures
            message@ == "no receivers to broadcast channel"@,
    {
        MESSAGE
    }
}

/// Where the message for one receiver is.
pub enum Delivery<T> {
    /// There is none, and the receiver does not wait for one.
    Empty,
    /// The receiver is in the process of waiting for a message.
    Waiting,
    /// A message has been handed over and is waiting to be received.
    Sending(T),
}

/// What the channel keeps for one receiver.
pub struct ReceiverState<T> {
    /// If the receiver is active.
    pub active: bool,
    /// Last message id received.
    pub id: Option<u64>,
    /// Waker to wake once receiving is available.
    pub rx: Option<Waker>,
    /// Where the message for the receiver is.
    pub state: Delivery<T>,
}

impl<T> ReceiverState<T> {
    /// A place for a receiver that has never been used.
    pub open spec fn empty() -> Self {
        ReceiverState { active: false, id: None, rx: None, state: Delivery::Empty }
    }
}

/// The contents of a channel.
pub struct State<T> {
    /// Whether the sender has not been dropped.
    pub open: bool,
    /// The current message ID.
    pub id: u64,
    /// The task to wake once sending is available.
    pub tx: Option<Waker>,
    /// The places for receivers.
    pub receivers: Seq<ReceiverState<T>>,
}

/// The number of places that are taken by a receiver.
pub open spec fn active_count<T>(receivers: Seq<ReceiverState<T>>) -> int
    decreases receivers.len(),
{
    if receivers.len() == 0 {
        0
    } else {
        active_count(receivers.drop_last()) + if receivers.last().active {
            1int
        } else {
            0
        }
    }
}

/// The wakers of `receivers`, in their order.
pub open spec fn all_wakers<T>(receivers: Seq<ReceiverState<T>>) -> Seq<Waker>
    decreases receivers.len(),
{
    if receivers.len() == 0 {
        Seq::empty()
    } else {
        all_wakers(receivers.drop_last()) + crate::task::pending_wake(receivers.last().rx)
    }
}

/// The identifier of the message after the one with identifier `id`.
pub open spec fn next_id(id: u64) -> u64 {
    if id == u64::MAX {
        1
    } else {
        (id + 1) as u64
    }
}

/// What a receiver that is sent the message with identifier `id` remembers. No message has the
/// identifier zero.
pub open spec fn stamp(id: u64) -> Option<u64> {
    if id == 0 {
        None
    } else {
        Some(id)
    }
}

/// Whether the message with identifier `id` is handed to `receiver` when it is sent: it has not
/// been before, and the receiver waits for one.
pub open spec fn takes<T>(receiver: ReceiverState<T>, id: u64) -> bool {
    receiver.active && receiver.id != Some(id) && receiver.state is Waiting
}

/// Whether nothing is left to do to send the message with identifier `id` to `receiver`.
pub open spec fn reached<T>(receiver: ReceiverState<T>, id: u64) -> bool {
    !receiver.active || receiver.id == Some(id)
}

/// What sending the message with identifier `id` does to one receiver.
pub open spec fn posted<T: Clone>(
    before: ReceiverState<T>,
    after: ReceiverState<T>,
    id: u64,
    value: T,
) -> bool {
    if takes(before, id) {
        &&& after == ReceiverState { id: stamp(id), state: after.state, ..before }
        &&& after.state matches Delivery::Sending(copy) && cloned(value, copy)
    } else {
        after == before
    }
}

/// The wakers of the receivers that take the message with identifier `id`, in their order.
pub open spec fn post_wakers<T>(receivers: Seq<ReceiverState<T>>, id: u64) -> Seq<Waker>
    decreases receivers.len(),
{
    if receivers.len() == 0 {
        Seq::empty()
    } else {
        post_wakers(receivers.drop_last(), id) + if takes(receivers.last(), id) {
            crate::task::pending_wake(receivers.last().rx)
        } else {
            Seq::empty()
        }
    }
}

/// Whether `i` is the first place that is not taken by a receiver.
pub open spec fn is_vacancy<T>(receivers: Seq<ReceiverState<T>>, i: int) -> bool {
    &&& 0 <= i < receivers.len()
    &&& !receivers[i].active
    &&& forall|j: int| 0 <= j < i ==> (#[trigger] receivers[j]).active
}

/// Whether every place is taken by a receiver.
pub open spec fn is_full<T>(receivers: Seq<ReceiverState<T>>) -> bool {
    forall|i: int| 0 <= i < receivers.len() ==> (#[trigger] receivers[i]).active
}

impl<T> State<T> {
    /// A channel with `n` places that nobody has subscribed to yet.
    pub open spec fn new(n: nat) -> Self {
        State {
            open: true,
            id: 0,
            tx: None,
            receivers: Seq::new(n, |i: int| ReceiverState::<T>::empty()),
        }
    }

    /// A channel all ends of which have been dropped.
    pub open spec fn gone() -> Self {
        State { open: false, id: 0, tx: None, receivers: Seq::empty() }
    }

    /// The number of receivers.
    pub open spec fn subscribers(self) -> int {
        active_count(self.receivers)
    }

    /// The channel has `n` places for as long as one of its ends is there.
    pub open spec fn inv(self, n: nat) -> bool {
        if self.open || self.subscribers() > 0 {
            self.receivers.len() == n
        } else {
            self == Self::gone()
        }
    }

    /// Whether there is a receiver in place `i`.
    pub open spec fn has(self, i: int) -> bool {
        0 <= i < self.receivers.len() && self.receivers[i].active
    }

    /// The channel with another receiver, in place `i`.
    pub open spec fn subscribed(self, i: int) -> Self {
        State {
            receivers: self.receivers.update(
                i,
                ReceiverState { active: true, ..self.receivers[i] },
            ),
            ..self
        }
    }

    /// The channel without the receiver in place `i`.
    pub open spec fn unsubscribed(self, i: int) -> Self {
        let receivers = self.receivers.update(
            i,
            ReceiverState { active: false, ..self.receivers[i] },
        );
        if !self.open && active_count(receivers) == 0 {
            Self::gone()
        } else {
            State { receivers, tx: None, ..self }
        }
    }

    /// The channel after the sender has been dropped.
    pub open spec fn sender_dropped(self) -> Self {
        if self.subscribers() == 0 {
            Self::gone()
        } else {
            State {
                open: false,
                receivers: self.receivers.map_values(
                    |receiver: ReceiverState<T>| ReceiverState { rx: None, ..receiver },
                ),
                ..self
            }
        }
    }

    /// The channel with the next message identifier.
    pub open spec fn bumped(self) -> Self {
        State { id: next_id(self.id), ..self }
    }

    /// Whether the message with the current identifier has been sent to every receiver.
    pub open spec fn is_delivered(self) -> bool {
        forall|i: int|
            0 <= i < self.receivers.len() ==> reached(#[trigger] self.receivers[i], self.id)
    }

    /// The channel with the message for the receiver in place `i` being somewhere else.
    pub open spec fn moved(self, i: int, state: Delivery<T>) -> Self {
        State {
            receivers: self.receivers.update(i, ReceiverState { state, ..self.receivers[i] }),
            ..self
        }
    }

    /// What the receiver in place `i`, which is waiting, gets from the channel.
    pub open spec fn received(self, i: int) -> Poll<Option<T>> {
        match self.receivers[i].state {
            Delivery::Sending(value) => Poll::Ready(Some(value)),
            _ => if !self.open {
                Poll::Ready(None)
            } else {
                Poll::Pending
            },
        }
    }

    /// The channel after the receiver in place `i`, which is waiting, has been polled by the task
    /// of `waker`.
    ///
    /// A task that is registered already stays registered, be it another one.
    pub open spec fn polled(self, i: int, waker: Waker) -> Self {
        let receiver = self.receivers[i];
        let after = match receiver.state {
            Delivery::Sending(_) => ReceiverState { state: Delivery::Empty, ..receiver },
            _ => if !self.open {
                ReceiverState { rx: None, state: Delivery::Empty, ..receiver }
            } else if receiver.rx is Some {
                receiver
            } else {
                ReceiverState { rx: Some(waker), ..receiver }
            },
        };
        State { receivers: self.receivers.update(i, after), ..self }
    }
}

/// What polling a [`Send`] by the task of `waker` does to a channel that has receivers: it
/// registers the task, and hands the message to each receiver that waits for it.
pub open spec fn sent<T: Clone>(
    before: State<T>,
    after: State<T>,
    waker: Waker,
    value: T,
) -> bool {
    &&& after == State { tx: Some(waker), receivers: after.receivers, ..before }
    &&& after.receivers.len() == before.receivers.len()
    &&& forall|i: int|
        0 <= i < before.receivers.len() ==> posted(
            before.receivers[i],
            #[trigger] after.receivers[i],
            before.id,
            value,
        )
}

/// Interior shared state.
struct Shared<const N: usize, T> {
    /// The current message ID.
    id: u64,
    /// Waker to wake once sending is available.
    tx: Option<Waker>,
    /// Collection of receivers.
    receivers: Vec<ReceiverState<T>>,
}

impl<const N: usize, T> Shared<N, T> {
    /// The contents of a channel with this state.
    spec fn state(self, open: bool) -> State<T> {
        State { open, id: self.id, tx: self.tx, receivers: self.receivers@ }
    }

    /// Take the first place that is free, if there is one.
    fn next_index(&mut self) -> (place: Option<usize>)
        ensures
            match place {
                Some(i) => {
                    &&& is_vacancy(old(self).receivers@, i as int)
                    &&& final(self).state(true) == old(self).state(true).subscribed(i as int)
                },
                None => {
                    &&& is_full(old(self).receivers@)
                    &&& *final(self) == *old(self)
                },
            },
    {
        let ghost receivers = self.receivers@;
        let mut index: usize = 0;
        while index < self.receivers.len()
            invariant
                *self == *old(self),
                receivers == self.receivers@,
                index <= receivers.len(),
                forall|i: int| 0 <= i < index ==> (#[trigger] receivers[i]).active,
            decreases receivers.len() - index,
        {
            if !self.receivers[index].active {
                let receiver = &mut self.receivers[index];
                receiver.active = true;
                proof {
                    assert(self.receivers@ =~= receivers.update(
                        index as int,
                        ReceiverState { active: true, ..receivers[index as int] },
                    ));
                }
                return Some(index);
            }
            index += 1;
        }
        None
    }

    /// Count the receivers.
    fn count(&self) -> (count: usize)
        ensures
            count == active_count(self.receivers@),
    {
        let ghost receivers = self.receivers@;
        let mut count: usize = 0;
        let mut i: usize = 0;
        while i < self.receivers.len()
            invariant
                receivers == self.receivers@,
                count <= i <= receivers.len(),
                count == active_count(receivers.take(i as int)),
            decreases receivers.len() - i,
        {
            if self.receivers[i].active {
                count += 1;
            }
            i += 1;
            proof {
                assert(receivers.take(i as int).drop_last() =~= receivers.take(i - 1));
            }
        }
        proof {
            assert(receivers.take(i as int) =~= receivers);
        }
        count
    }

    /// Increase the ID of messages to send.
    fn bump_message_id(&mut self)
        ensures
            *final(self) == (Shared { id: next_id(old(self).id), ..*old(self) }),
    {
        self.id = self.id.wrapping_add(1);
        if self.id == 0 {
            self.id = 1;
        }
    }

    /// Wake all receivers, and forget their wakers.
    fn wake_receivers(&mut self, wakes: &mut Vec<Waker>)
        ensures
            *final(self) == (Shared { receivers: final(self).receivers, ..*old(self) }),
            final(self).receivers@ == old(self).receivers@.map_values(
                |receiver: ReceiverState<T>| ReceiverState { rx: None, ..receiver },
            ),
            final(wakes)@ == old(wakes)@ + all_wakers(old(self).receivers@),
    {
        let ghost before = *self;
        let ghost receivers = self.receivers@;
        let ghost woken_before = wakes@;
        let mut i: usize = 0;
        proof {
            assert(wakes@ =~= woken_before + all_wakers(receivers.take(0)));
        }
        while i < self.receivers.len()
            invariant
                i <= receivers.len() == self.receivers@.len(),
                *self == (Shared { receivers: self.receivers, ..before }),
                forall|j: int|
                    0 <= j < receivers.len() ==> #[trigger] self.receivers@[j] == (if j < i {
                        ReceiverState { rx: None, ..receivers[j] }
                    } else {
                        receivers[j]
                    }),
                wakes@ == woken_before + all_wakers(receivers.take(i as int)),
            decreases receivers.len() - i,
        {
            let receiver = &mut self.receivers[i];
            wake_and_clear(&mut receiver.rx, wakes);
            i += 1;
            proof {
                let front = receivers.take(i as int);
                assert(front.drop_last() =~= receivers.take(i - 1));
                assert(wakes@ =~= woken_before + all_wakers(front));
            }
        }
        proof {
            assert(receivers.take(i as int) =~= receivers);
            assert(self.receivers@ =~= receivers.map_values(
                |receiver: ReceiverState<T>| ReceiverState { rx: None, ..receiver },
            ));
        }
    }
}

impl<const N: usize, T> Shared<N, T> {
    /// Take the message that has been handed to the receiver in place `index`, or else, if the
    /// sender is still there, make the receiver wait for one.
    fn receive(
        &mut self,
        index: usize,
        phase: &mut Phase,
        sender_present: bool,
        waker: &Waker,
        wakes: &mut Vec<Waker>,
    ) -> (result: Poll<Option<T>>)
        requires
            index < old(self).receivers@.len(),
            !(*old(phase) is Done),
        ensures
            final(self).receivers@.len() == old(self).receivers@.len(),
            forall|i: int|
                0 <= i < old(self).receivers@.len() ==> (
                #[trigger] final(self).receivers@[i]).active == old(self).receivers@[i].active,
            *final(phase) == (if result is Ready {
                Phase::Done
            } else {
                Phase::Waiting
            }),
            if *old(phase) is Created && !sender_present {
                &&& result == Poll::Ready(None::<T>)
                &&& *final(self) == *old(self)
                &&& final(wakes)@ == old(wakes)@
            } else {
                let i = index as int;
                let before = awaited(old(self).state(sender_present), i, *old(phase));
                &&& result == before.received(i)
                &&& final(self).state(sender_present) == before.polled(i, *waker)
                &&& final(wakes)@ == old(wakes)@ + (if result is Pending {
                    crate::task::pending_wake(before.tx)
                } else {
                    Seq::empty()
                })
            },
    {
        let ghost i = index as int;
        if let Phase::Created = phase {
            if !sender_present {
                *phase = Phase::Done;
                return Poll::Ready(None);
            }
            let receiver = &mut self.receivers[index];
            receiver.state = Delivery::Waiting;
        }
        let ghost before = self.state(sender_present);
        proof {
            assert(before.receivers =~= awaited(
                old(self).state(sender_present),
                i,
                *old(phase),
            ).receivers);
        }
        let receiver = &mut self.receivers[index];
        let result = if let Delivery::Sending(_) = &receiver.state {
            let mut state = Delivery::Empty;
            std::mem::swap(&mut receiver.state, &mut state);
            *phase = Phase::Done;
            match state {
                Delivery::Sending(value) => Poll::Ready(Some(value)),
                _ => Poll::Ready(None),
            }
        } else if !sender_present {
            receiver.rx = None;
            receiver.state = Delivery::Empty;
            *phase = Phase::Done;
            Poll::Ready(None)
        } else {
            let keep = match &receiver.rx {
                Some(current) => !will_wake(current, waker),
                None => false,
            };
            if !keep {
                receiver.rx = Some(clone_waker(waker));
            }
            wake_by_ref(&self.tx, wakes);
            *phase = Phase::Waiting;
            Poll::Pending
        };
        proof {
            assert(self.receivers@ =~= before.polled(i, *waker).receivers);
        }
        result
    }
}

impl<const N: usize, T: Clone> Shared<N, T> {
    /// Hand `value`, the message with the current identifier, to the receivers that wait for it.
    /// Tell whether there were any, and count the receivers that there was nothing left to do for
    /// before.
    fn post(&mut self, value: &T, wakes: &mut Vec<Waker>) -> (pass: (bool, usize))
        ensures
            *final(self) == (Shared { receivers: final(self).receivers, ..*old(self) }),
            final(self).receivers@.len() == old(self).receivers@.len(),
            forall|i: int|
                0 <= i < old(self).receivers@.len() ==> posted(
                    old(self).receivers@[i],
                    #[trigger] final(self).receivers@[i],
                    old(self).id,
                    *value,
                ),
            final(wakes)@ == old(wakes)@ + post_wakers(old(self).receivers@, old(self).id),
            !pass.0 ==> forall|i: int|
                0 <= i < old(self).receivers@.len() ==> !takes(
                    #[trigger] old(self).receivers@[i],
                    old(self).id,
                ),
            pass.0 ==> exists|i: int|
                0 <= i < old(self).receivers@.len() && takes(
                    #[trigger] old(self).receivers@[i],
                    old(self).id,
                ),
            pass.1 <= old(self).receivers@.len(),
            pass.1 == old(self).receivers@.len() <==> forall|i: int|
                0 <= i < old(self).receivers@.len() ==> reached(
                    #[trigger] old(self).receivers@[i],
                    old(self).id,
                ),
    {
        let ghost before = *self;
        let ghost receivers = self.receivers@;
        let ghost woken_before = wakes@;
        let mut any_sent = false;
        let mut count: usize = 0;
        let mut i: usize = 0;
        proof {
            assert(wakes@ =~= woken_before + post_wakers(receivers.take(0), before.id));
        }
        while i < self.receivers.len()
            invariant
                i <= receivers.len() == self.receivers@.len(),
                *self == (Shared { receivers: self.receivers, ..before }),
                forall|j: int|
                    0 <= j < i ==> posted(
                        receivers[j],
                        #[trigger] self.receivers@[j],
                        before.id,
                        *value,
                    ),
                forall|j: int|
                    i <= j < receivers.len() ==> #[trigger] self.receivers@[j] == receivers[j],
                !any_sent ==> forall|j: int|
                    0 <= j < i ==> !takes(#[trigger] receivers[j], before.id),
                any_sent ==> exists|j: int|
                    0 <= j < i && takes(#[trigger] receivers[j], before.id),
                count <= i,
                count == i <==> forall|j: int|
                    0 <= j < i ==> reached(#[trigger] receivers[j], before.id),
                wakes@ == woken_before + post_wakers(receivers.take(i as int), before.id),
            decreases receivers.len() - i,
        {
            let id = self.id;
            let receiver = &mut self.receivers[i];
            proof {
                let front = receivers.take(i + 1);
                assert(front.drop_last() =~= receivers.take(i as int));
                assert(front.last() == receivers[i as int]);
                assert(*receiver == receivers[i as int]);
            }
            let holds = match receiver.id {
                Some(received) => received == id,
                None => false,
            };
            if !receiver.active || holds {
                count += 1;
            } else if let Delivery::Waiting = &receiver.state {
                receiver.state = Delivery::Sending(value.clone());
                receiver.id = if id == 0 {
                    None
                } else {
                    Some(id)
                };
                wake_by_ref(&receiver.rx, wakes);
                any_sent = true;
            }
            i += 1;
            proof {
                assert(wakes@ =~= woken_before + post_wakers(
                    receivers.take(i as int),
                    before.id,
                ));
            }
        }
        proof {
            assert(receivers.take(i as int) =~= receivers);
        }
        (any_sent, count)
    }

    /// Hand `value`, the message with the current identifier, to the receivers that wait for it,
    /// and tell whether it has been handed to all of them.
    fn deliver(&mut self, value: &T, wakes: &mut Vec<Waker>) -> (delivered: bool)
        requires
            old(self).receivers@.len() == N,
        ensures
            *final(self) == (Shared { receivers: final(self).receivers, ..*old(self) }),
            final(self).receivers@.len() == old(self).receivers@.len(),
            forall|i: int|
                0 <= i < old(self).receivers@.len() ==> posted(
                    old(self).receivers@[i],
                    #[trigger] final(self).receivers@[i],
                    old(self).id,
                    *value,
                ),
            final(wakes)@ == old(wakes)@ + post_wakers(old(self).receivers@, old(self).id),
            delivered == final(self).state(true).is_delivered(),
    {
        let ghost before = *self;
        let ghost receivers = self.receivers@;
        let ghost woken_before = wakes@;
        let ghost mut again = false;
        loop
            invariant
                before == *old(self),
                woken_before == old(wakes)@,
                receivers == before.receivers@,
                receivers.len() == self.receivers@.len() == N,
                *self == (Shared { receivers: self.receivers, ..before }),
                !again ==> *self == before && wakes@ == woken_before,
                again ==> {
                    &&& forall|i: int|
                        0 <= i < receivers.len() ==> posted(
                            receivers[i],
                            #[trigger] self.receivers@[i],
                            before.id,
                            *value,
                        )
                    &&& wakes@ == woken_before + post_wakers(receivers, before.id)
                },
            decreases if again { 0int } else { 1 },
        {
            let ghost earlier = *self;
            let (any_sent, count) = self.post(value, wakes);
            proof {
                if again {
                    assert forall|i: int| 0 <= i < receivers.len() implies !takes(
                        #[trigger] earlier.receivers@[i],
                        before.id,
                    ) && self.receivers@[i] == earlier.receivers@[i] by {
                        assert(posted(receivers[i], earlier.receivers@[i], before.id, *value));
                        assert(posted(
                            earlier.receivers@[i],
                            self.receivers@[i],
                            before.id,
                            *value,
                        ));
                    }
                    lemma_no_wakers(earlier.receivers@, before.id);
                    assert(!any_sent);
                    assert(wakes@ =~= woken_before + post_wakers(receivers, before.id));
                    assert forall|i: int| 0 <= i < receivers.len() implies posted(
                        receivers[i],
                        #[trigger] self.receivers@[i],
                        before.id,
                        *value,
                    ) by {
                        assert(earlier.receivers@[i] == self.receivers@[i]);
                    }
                }
                if !any_sent || count == N {
                    assert forall|i: int| 0 <= i < receivers.len() implies
                        #[trigger] self.receivers@[i] == earlier.receivers@[i] by {
                        assert(!takes(earlier.receivers@[i], before.id));
                    }
                    assert(self.receivers@ =~= earlier.receivers@);
                }
            }
            if count == N {
                return true;
            }
            if !any_sent {
                proof {
                    let i = choose|i: int|
                        0 <= i < receivers.len() && !reached(
                            #[trigger] earlier.receivers@[i],
                            before.id,
                        );
                    assert(!reached(self.state(true).receivers[i], before.id));
                }
                return false;
            }
            proof {
                again = true;
            }
        }
    }
}

/// A message that nobody takes wakes nobody.
proof fn lemma_no_wakers<T>(receivers: Seq<ReceiverState<T>>, id: u64)
    requires
        forall|i: int| 0 <= i < receivers.len() ==> !takes(#[trigger] receivers[i], id),
    ensures
        post_wakers(receivers, id) == Seq::<Waker>::empty(),
    decreases receivers.len(),
{
    if receivers.len() > 0 {
        let front = receivers.drop_last();
        assert(forall|i: int| 0 <= i < front.len() ==> #[trigger] front[i] == receivers[i]);
        lemma_no_wakers(front, id);
    }
}

/// The state that the ends of a channel share.
pub struct Channel<const N: usize, T> {
    inner: Inner<Shared<N, T>>,
}

impl<const N: usize, T> View for Channel<N, T> {
    type V = State<T>;

    closed spec fn view(&self) -> State<T> {
        match self.inner.value() {
            Some(shared) => shared.state(self.inner.strong() > 0),
            None => State::gone(),
        }
    }
}

impl<const N: usize, T> Channel<N, T> {
    /// The state is there as long as one of the ends is, and each receiver has its place.
    pub closed spec fn allocated(&self) -> bool {
        &&& self.inner.wf()
        &&& self.inner.weak() == self@.subscribers()
    }

    pub open spec fn wf(&self) -> bool {
        self.allocated() && self@.inv(N as nat)
    }
}

/// Sender end of this queue.
pub struct Sender<const N: usize, T> {
    inner: BroadRef<Shared<N, T>>,
}

impl<const N: usize, T: Clone> Sender<N, T> {
    /// Construct a new receiver.
    ///
    /// There is none to be had while all places are taken.
    pub fn subscribe(&mut self, channel: &mut Channel<N, T>) -> (receiver: Option<Receiver<N, T>>)
        requires
            old(channel).wf(),
            old(channel)@.open,
        ensures
            *final(self) == *old(self),
            final(channel).wf(),
            match receiver {
                Some(receiver) => {
                    &&& is_vacancy(old(channel)@.receivers, receiver@ as int)
                    &&& final(channel)@ == old(channel)@.subscribed(receiver@ as int)
                },
                None => {
                    &&& is_full(old(channel)@.receivers)
                    &&& final(channel)@ == old(channel)@
                },
            },
    {
        let ghost before = channel@;
        let (shared, _) = self.inner.load(&mut channel.inner);
        let next = shared.next_index();
        let index = match next {
            Some(index) => index,
            None => {
                return None;
            },
        };
        proof {
            lemma_active_count_update(
                before.receivers,
                index as int,
                before.subscribed(index as int).receivers[index as int],
            );
            lemma_active_count(before.subscribed(index as int).receivers);
        }
        let inner = self.inner.weak(&mut channel.inner);
        Some(Receiver { index, inner })
    }

    /// Get a count on the number of subscribers.
    pub fn subscribers(&self, channel: &mut Channel<N, T>) -> (count: usize)
        requires
            old(channel).wf(),
            old(channel)@.open,
        ensures
            final(channel).wf(),
            final(channel)@ == old(channel)@,
            count == old(channel)@.subscribers(),
    {
        let (shared, _) = self.inner.load(&mut channel.inner);
        shared.count()
    }

    /// Send a message on the channel.
    ///
    /// This completes once the message has been handed to each receiver.
    pub fn send(&mut self, value: T) -> (send: Send<'_, N, T>)
        ensures
            *final(self) == *old(self),
            send.value() == Some(value),
            !send.started(),
    {
        Send { inner: &self.inner, to_send: Some(value), started: false }
    }

    /// Drop the sender, waking all receivers.
    pub fn close(self, channel: &mut Channel<N, T>, wakes: &mut Vec<Waker>)
        requires
            old(channel).wf(),
            old(channel)@.open,
        ensures
            final(channel).wf(),
            final(channel)@ == old(channel)@.sender_dropped(),
            final(wakes)@ == old(wakes)@ + all_wakers(old(channel)@.receivers),
    {
        let ghost before = channel@;
        let (shared, _) = self.inner.load(&mut channel.inner);
        shared.wake_receivers(wakes);
        proof {
            lemma_same_active_count(before.receivers, shared.receivers@);
            lemma_active_count(before.receivers);
        }
        self.inner.release(&mut channel.inner);
    }
}

/// Future produced by [`Sender::send`].
pub struct Send<'a, const N: usize, T> {
    inner: &'a BroadRef<Shared<N, T>>,
    to_send: Option<T>,
    started: bool,
}

impl<'a, const N: usize, T> Send<'a, N, T> {
    /// The message being sent, unless it has been handed back.
    pub closed spec fn value(&self) -> Option<T> {
        self.to_send
    }

    /// Whether the future has been polled, and so the message has its identifier.
    pub closed spec fn started(&self) -> bool {
        self.started
    }
}

impl<'a, const N: usize, T: Clone> Send<'a, N, T> {
    /// Poll the future with the waker of the current task.
    ///
    /// It completes once the message has been handed to each receiver, or with the message if
    /// there are no receivers.
    pub fn poll(
        &mut self,
        channel: &mut Channel<N, T>,
        waker: &Waker,
        wakes: &mut Vec<Waker>,
    ) -> (result: Poll<Result<(), SendError<T>>>)
        requires
            old(channel).wf(),
            old(channel)@.open,
            old(self).value() is Some,
        ensures
            final(self).started(),
            final(channel).wf(),
            ({
                let value = old(self).value()->0;
                let before = if old(self).started() {
                    old(channel)@
                } else {
                    old(channel)@.bumped()
                };
                if before.subscribers() == 0 {
                    &&& result == Poll::Ready(Err::<(), SendError<T>>(SendError(value)))
                    &&& final(self).value() is None
                    &&& final(channel)@ == before
                    &&& final(wakes)@ == old(wakes)@
                } else {
                    &&& result == (if final(channel)@.is_delivered() {
                        Poll::Ready(Ok::<(), SendError<T>>(()))
                    } else {
                        Poll::Pending
                    })
                    &&& final(self).value() == old(self).value()
                    &&& sent(before, final(channel)@, *waker, value)
                    &&& final(wakes)@ == old(wakes)@ + post_wakers(before.receivers, before.id)
                }
            }),
    {
        let (shared, both_present) = self.inner.load(&mut channel.inner);
        if !self.started {
            shared.bump_message_id();
            self.started = true;
        }
        if !both_present {
            let value = self.to_send.take().unwrap();
            return Poll::Ready(Err(SendError(value)));
        }
        register(&mut shared.tx, waker);
        let ghost before = shared.receivers@;
        let delivered = shared.deliver(self.to_send.as_ref().unwrap(), wakes);
        proof {
            lemma_same_active_count(before, shared.receivers@);
        }
        if delivered {
            return Poll::Ready(Ok(()));
        }
        Poll::Pending
    }
}

/// How far a [`Recv`] has come.
pub enum Phase {
    /// It has not been polled yet.
    Created,
    /// Its receiver is waiting for a message.
    Waiting,
    /// It has completed.
    Done,
}

/// Receiver end of this queue.
pub struct Receiver<const N: usize, T> {
    index: usize,
    inner: Weak<Shared<N, T>>,
}

impl<const N: usize, T> View for Receiver<N, T> {
    type V = usize;

    /// The place of the receiver.
    closed spec fn view(&self) -> usize {
        self.index
    }
}

impl<const N: usize, T> Receiver<N, T> {
    /// Receive a message on the channel.
    pub fn recv(&mut self) -> (recv: Recv<'_, N, T>)
        ensures
            *final(self) == *old(self),
            recv@ == old(self)@,
            recv.phase() is Created,
    {
        Recv { index: self.index, inner: &self.inner, phase: Phase::Created }
    }

    /// Drop the receiver, waking the sender.
    pub fn close(self, channel: &mut Channel<N, T>, wakes: &mut Vec<Waker>)
        requires
            old(channel).wf(),
            old(channel)@.has(self@ as int),
        ensures
            final(channel).wf(),
            final(channel)@ == old(channel)@.unsubscribed(self@ as int),
            final(wakes)@ == old(wakes)@ + crate::task::pending_wake(old(channel)@.tx),
    {
        let ghost before = channel@;
        let ghost i = self@ as int;
        proof {
            let after = ReceiverState { active: false, ..before.receivers[i] };
            lemma_active_count_update(before.receivers, i, after);
            lemma_active_count(before.receivers);
            lemma_active_count(before.receivers.update(i, after));
        }
        let (shared, _) = self.inner.load(&mut channel.inner);
        if self.index < shared.receivers.len() {
            let receiver = &mut shared.receivers[self.index];
            receiver.active = false;
        }
        proof {
            assert(shared.receivers@ =~= before.receivers.update(
                i,
                ReceiverState { active: false, ..before.receivers[i] },
            ));
        }
        wake_and_clear(&mut shared.tx, wakes);
        self.inner.release(&mut channel.inner);
    }
}

/// Future produced by [`Receiver::recv`].
pub struct Recv<'a, const N: usize, T> {
    index: usize,
    inner: &'a Weak<Shared<N, T>>,
    phase: Phase,
}

impl<'a, const N: usize, T> View for Recv<'a, N, T> {
    type V = usize;

    /// The place of the receiver.
    closed spec fn view(&self) -> usize {
        self.index
    }
}

impl<'a, const N: usize, T> Recv<'a, N, T> {
    /// How far the future has come.
    pub closed spec fn phase(&self) -> Phase {
        self.phase
    }
}

/// The channel as a [`Recv`] that has come to `phase` finds it when it is polled for the receiver
/// in place `i`: the first time, it starts to wait, unless the sender has been dropped.
pub open spec fn awaited<T>(state: State<T>, i: int, phase: Phase) -> State<T> {
    if phase is Created {
        state.moved(i, Delivery::Waiting)
    } else {
        state
    }
}

impl<'a, const N: usize, T> Recv<'a, N, T> {
    /// Poll the future with the waker of the current task.
    ///
    /// It completes with the message that has been handed to the receiver, or with `None` if
    /// there is none and the sender has been dropped. If it has to wait, it wakes a sender that
    /// waits for a receiver.
    pub fn poll(
        &mut self,
        channel: &mut Channel<N, T>,
        waker: &Waker,
        wakes: &mut Vec<Waker>,
    ) -> (result: Poll<Option<T>>)
        requires
            old(channel).wf(),
            old(channel)@.has(old(self)@ as int),
            !(old(self).phase() is Done),
        ensures
            final(self)@ == old(self)@,
            final(channel).wf(),
            final(self).phase() == (if result is Ready {
                Phase::Done
            } else {
                Phase::Waiting
            }),
            if old(self).phase() is Created && !old(channel)@.open {
                &&& result == Poll::Ready(None::<T>)
                &&& final(channel)@ == old(channel)@
                &&& final(wakes)@ == old(wakes)@
            } else {
                let i = old(self)@ as int;
                let before = awaited(old(channel)@, i, old(self).phase());
                &&& result == before.received(i)
                &&& final(channel)@ == before.polled(i, *waker)
                &&& final(wakes)@ == old(wakes)@ + (if result is Pending {
                    crate::task::pending_wake(before.tx)
                } else {
                    Seq::empty()
                })
            },
    {
        let ghost before = channel@;
        let ghost i = self@ as int;
        proof {
            lemma_active_count(before.receivers);
        }
        let (shared, both_present) = self.inner.load(&mut channel.inner);
        let result = shared.receive(self.index, &mut self.phase, both_present, waker, wakes);
        proof {
            lemma_same_active_count(before.receivers, shared.receivers@);
        }
        result
    }

    /// Drop the future.
    ///
    /// A message that has been handed to the receiver and not been received is dropped with it.
    pub fn cancel(self, channel: &mut Channel<N, T>)
        requires
            old(channel).wf(),
            old(channel)@.has(self@ as int),
        ensures
            final(channel).wf(),
            final(channel)@ == (if self.phase() is Waiting {
                old(channel)@.moved(self@ as int, Delivery::Empty)
            } else {
                old(channel)@
            }),
    {
        let ghost before = channel@;
        let ghost i = self@ as int;
        proof {
            lemma_active_count(before.receivers);
        }
        if let Phase::Waiting = self.phase {
            let (shared, _) = self.inner.load(&mut channel.inner);
            if self.index < shared.receivers.len() {
                let receiver = &mut shared.receivers[self.index];
                receiver.state = Delivery::Empty;
            }
            proof {
                assert(shared.receivers@ =~= before.moved(i, Delivery::Empty).receivers);
                lemma_same_active_count(before.receivers, shared.receivers@);
            }
        }
    }
}

/// Setup a broadcast channel.
pub fn channel<const N: usize, T: Clone>() -> (ends: (Channel<N, T>, Sender<N, T>))
    ensures
        ends.0.wf(),
        ends.0@ == State::<T>::new(N as nat),
{
    let mut receivers: Vec<ReceiverState<T>> = Vec::new();
    while receivers.len() < N
        invariant
            receivers@.len() <= N,
            forall|i: int|
                0 <= i < receivers@.len() ==> #[trigger] receivers@[i] == ReceiverState::<
                    T,
                >::empty(),
        decreases N - receivers@.len(),
    {
        receivers.push(
            ReceiverState { active: false, id: None, rx: None, state: Delivery::Empty },
        );
    }
    proof {
        assert(receivers@ =~= State::<T>::new(N as nat).receivers);
        lemma_none_active(receivers@);
    }
    let (inner, sender) = BroadRef::new(Shared { id: 0, tx: None, receivers });
    (Channel { inner }, Sender { inner: sender })
}

/// There are never more subscribers than places, and another one is turned away only when all
/// places are taken.
pub proof fn law_places_bound_subscribers<T>(state: State<T>, n: nat)
    requires
        state.inv(n),
    ensures
        0 <= state.subscribers() <= n,
        state.open ==> (is_full(state.receivers) <==> state.subscribers() == n),
{
    lemma_active_count(state.receivers);
}

/// Subscribing takes one place, which dropping the receiver frees for the next one.
pub proof fn law_dropping_receiver_frees_its_place<T>(state: State<T>, i: int, n: nat)
    requires
        state.inv(n),
        state.open,
        is_vacancy(state.receivers, i),
    ensures
        state.subscribed(i).inv(n),
        state.subscribed(i).has(i),
        state.subscribed(i).subscribers() == state.subscribers() + 1,
        state.subscribed(i).unsubscribed(i).inv(n),
        state.subscribed(i).unsubscribed(i).receivers == state.receivers,
        is_vacancy(state.subscribed(i).unsubscribed(i).receivers, i),
{
    lemma_active_count_update(state.receivers, i, state.subscribed(i).receivers[i]);
    assert(state.subscribed(i).unsubscribed(i).receivers =~= state.receivers);
}

/// Nothing that happens to one receiver touches another one.
pub proof fn law_receivers_are_independent<T>(
    state: State<T>,
    i: int,
    j: int,
    waker: Waker,
    delivery: Delivery<T>,
)
    requires
        0 <= i < state.receivers.len(),
        state.has(j),
        i != j,
    ensures
        state.subscribed(i).receivers[j] == state.receivers[j],
        state.unsubscribed(i).has(j),
        state.unsubscribed(i).receivers[j] == state.receivers[j],
        state.moved(i, delivery).receivers[j] == state.receivers[j],
        state.polled(i, waker).receivers[j] == state.receivers[j],
{
    let rest = state.receivers.update(
        i,
        ReceiverState { active: false, ..state.receivers[i] },
    );
    assert(rest[j].active);
    lemma_active_count(rest);
}

/// Every receiver was last sent the message with the current identifier, or one before it.
pub open spec fn past<T>(state: State<T>) -> bool {
    forall|i: int|
        0 <= i < state.receivers.len() ==> ((#[trigger] state.receivers[i]).id matches Some(id)
            ==> id <= state.id)
}

/// Message identifiers are never zero, and no receiver has been sent the next message yet, for as
/// long as the identifiers have not wrapped around.
pub proof fn law_next_message_is_new<T>(state: State<T>)
    ensures
        state.bumped().id != 0,
        state.bumped().id != state.id,
        past(state) && state.id < u64::MAX ==> {
            &&& past(state.bumped())
            &&& forall|i: int|
                0 <= i < state.receivers.len() ==> (#[trigger] state.bumped().receivers[i]).id
                    != Some(state.bumped().id)
        },
{
}

/// Nothing that happens to the receivers makes one of them ahead of the current message.
pub proof fn law_receivers_stay_past<T>(
    state: State<T>,
    i: int,
    waker: Waker,
    delivery: Delivery<T>,
    n: nat,
)
    requires
        past(state),
        0 <= i < state.receivers.len(),
    ensures
        past(State::<T>::new(n)),
        past(state.subscribed(i)),
        past(state.unsubscribed(i)),
        past(state.sender_dropped()),
        past(state.moved(i, delivery)),
        past(state.polled(i, waker)),
{
    let after = state.sender_dropped();
    assert forall|j: int| 0 <= j < after.receivers.len() implies ((
    #[trigger] after.receivers[j]).id matches Some(id) ==> id <= after.id) by {
        assert(state.receivers[j].id matches Some(id) ==> id <= state.id);
    }
}

/// Sending a message makes no receiver ahead of the current message.
pub proof fn law_sending_stays_past<T: Clone>(
    before: State<T>,
    after: State<T>,
    waker: Waker,
    value: T,
)
    requires
        past(before),
        sent(before, after, waker, value),
    ensures
        past(after),
{
    assert forall|i: int| 0 <= i < after.receivers.len() implies ((
    #[trigger] after.receivers[i]).id matches Some(id) ==> id <= after.id) by {
        assert(posted(before.receivers[i], after.receivers[i], before.id, value));
    }
}

/// What a receiver does by itself: it starts to wait for a message, takes the one that has been
/// handed to it, or gives up.
pub open spec fn acted<T>(before: ReceiverState<T>, after: ReceiverState<T>) -> bool {
    &&& after == ReceiverState { rx: after.rx, state: after.state, ..before }
    &&& after.state is Sending ==> after.state == before.state
}

/// What becomes of one receiver while the message with identifier `id` is being sent: the future
/// that sends it is polled, or the receiver acts, any number of times and in any order.
pub open spec fn sending<T: Clone>(history: Seq<ReceiverState<T>>, id: u64, value: T) -> bool {
    forall|j: int|
        0 <= j < history.len() - 1 ==> posted(#[trigger] history[j], history[j + 1], id, value)
            || acted(history[j], history[j + 1])
}

/// How many messages have been handed over in `history`.
pub open spec fn copies<T>(history: Seq<ReceiverState<T>>) -> int
    decreases history.len(),
{
    if history.len() <= 1 {
        0
    } else {
        let before = history[history.len() - 2];
        copies(history.drop_last()) + if history.last().state is Sending && !(
        before.state is Sending) {
            1int
        } else {
            0
        }
    }
}

/// However often a future that sends a message is polled, the message is handed to each receiver
/// at most once, and it has been handed to those that it is no longer waiting for.
pub proof fn law_send_delivers_exactly_once<T: Clone>(
    history: Seq<ReceiverState<T>>,
    id: u64,
    value: T,
)
    requires
        history.len() > 0,
        sending(history, id, value),
        id != 0,
        history[0].id != Some(id),
    ensures
        copies(history) == (if history.last().id == Some(id) {
            1int
        } else {
            0
        }),
    decreases history.len(),
{
    if history.len() > 1 {
        let front = history.drop_last();
        assert forall|j: int| 0 <= j < front.len() - 1 implies posted(
            #[trigger] front[j],
            front[j + 1],
            id,
            value,
        ) || acted(front[j], front[j + 1]) by {
            assert(history[j] == front[j]);
        }
        law_send_delivers_exactly_once(front, id, value);
        let j = history.len() - 2;
        assert(posted(history[j], history[j + 1], id, value) || acted(history[j], history[j + 1]));
        assert(front.last() == history[j]);
    }
}

/// Polling, starting to wait and giving up are what a receiver does by itself, and leave the
/// others alone.
pub proof fn law_receiving_is_a_step<T>(state: State<T>, i: int, j: int, waker: Waker)
    requires
        0 <= i < state.receivers.len(),
        0 <= j < state.receivers.len(),
    ensures
        acted(state.receivers[j], state.polled(i, waker).receivers[j]),
        acted(state.receivers[j], state.moved(i, Delivery::Waiting).receivers[j]),
        acted(state.receivers[j], state.moved(i, Delivery::Empty).receivers[j]),
{
}

/// A receiver that waits for a message when one is sent, and has not been sent it before, gets a
/// clone of it the next time that it is polled, also if the sender has been dropped meanwhile.
pub proof fn law_waiting_receiver_gets_message<T: Clone>(
    before: State<T>,
    after: State<T>,
    i: int,
    waker: Waker,
    value: T,
)
    requires
        sent(before, after, waker, value),
        0 <= i < before.receivers.len(),
        takes(before.receivers[i], before.id),
    ensures
        after.received(i) matches Poll::Ready(Some(copy)) && cloned(value, copy),
        after.sender_dropped().received(i) == after.received(i),
        after.polled(i, waker).receivers[i].state is Empty,
{
    assert(posted(before.receivers[i], after.receivers[i], before.id, value));
    lemma_active_count(after.receivers);
}

/// A send completes the next time that it is polled if each of the receivers either has been sent
/// the message, or waits for it.
pub proof fn law_send_completes_once_awaited<T: Clone>(
    before: State<T>,
    after: State<T>,
    waker: Waker,
    value: T,
)
    requires
        sent(before, after, waker, value),
        before.id != 0,
    ensures
        after.is_delivered() <==> forall|i: int|
            0 <= i < before.receivers.len() ==> reached(
                #[trigger] before.receivers[i],
                before.id,
            ) || before.receivers[i].state is Waiting,
{
    if after.is_delivered() {
        assert forall|i: int| 0 <= i < before.receivers.len() implies reached(
            #[trigger] before.receivers[i],
            before.id,
        ) || before.receivers[i].state is Waiting by {
            assert(reached(after.receivers[i], after.id));
            assert(posted(before.receivers[i], after.receivers[i], before.id, value));
        }
    }
    if forall|i: int|
        0 <= i < before.receivers.len() ==> reached(#[trigger] before.receivers[i], before.id)
            || before.receivers[i].state is Waiting {
        assert forall|i: int| 0 <= i < after.receivers.len() implies reached(
            #[trigger] after.receivers[i],
            after.id,
        ) by {
            assert(posted(before.receivers[i], after.receivers[i], before.id, value));
            assert(reached(before.receivers[i], before.id) || before.receivers[i].state is Waiting);
        }
    }
}

/// A task is registered for a receiver that waits, and is woken when a message is sent to the
/// receiver, and when the sender is dropped. It is the task that polled the receiver, unless
/// another one was registered in its place already.
pub proof fn law_pending_receiver_is_woken<T>(state: State<T>, i: int, waker: Waker)
    requires
        state.has(i),
        state.receivers[i].state is Waiting,
        state.received(i) is Pending,
    ensures
        ({
            let after = state.polled(i, waker);
            let registered = match state.receivers[i].rx {
                Some(current) => current,
                None => waker,
            };
            &&& after.receivers[i].rx == Some(registered)
            &&& all_wakers(after.receivers).contains(registered)
            &&& forall|id: u64|
                after.receivers[i].id != Some(id) ==> (#[trigger] post_wakers(
                    after.receivers,
                    id,
                )).contains(registered)
        }),
{
    let after = state.polled(i, waker);
    let registered = after.receivers[i].rx->0;
    lemma_all_wakers(after.receivers, i, registered);
    assert forall|id: u64| after.receivers[i].id != Some(id) implies (#[trigger] post_wakers(
        after.receivers,
        id,
    )).contains(registered) by {
        lemma_post_wakers(after.receivers, i, registered, id);
    }
}

/// Something that happens to a channel while a message is being sent.
pub enum Moment {
    /// The future that sends the message is polled.
    Poll { waker: Waker },
    /// A receiver starts to wait for a message.
    Wait { i: int },
    /// A receiver that waits is polled.
    Receive { i: int, waker: Waker },
    /// A receiver no longer waits.
    GiveUp { i: int },
    /// A receiver is dropped.
    Leave { i: int },
}

/// What a moment does to a channel.
pub open spec fn happens<T: Clone>(
    before: State<T>,
    after: State<T>,
    moment: Moment,
    value: T,
) -> bool {
    match moment {
        Moment::Poll { waker } => sent(before, after, waker, value),
        Moment::Wait { i } => before.has(i) && after == before.moved(i, Delivery::Waiting),
        Moment::Receive { i, waker } => before.has(i) && after == before.polled(i, waker),
        Moment::GiveUp { i } => before.has(i) && after == before.moved(i, Delivery::Empty),
        Moment::Leave { i } => before.has(i) && after == before.unsubscribed(i),
    }
}

/// When a send completes, a clone of the message has been handed, since the send began, to each
/// receiver that is still there, and it does complete then: over any run of polls of the send and
/// of the receivers, it is complete if and only if there is, for each receiver that is left, a
/// moment at which the message was handed to it. There is never more than one such moment for a
/// receiver; it is a poll of the send, and what is handed over is a clone of the message.
pub proof fn law_send_completes_once_handed_to_everyone<T: Clone>(
    states: Seq<State<T>>,
    moments: Seq<Moment>,
    value: T,
)
    requires
        states.len() == moments.len() + 1,
        states[0].open,
        states[0].id != 0,
        forall|i: int|
            0 <= i < states[0].receivers.len() && (#[trigger] states[0].receivers[i]).active
                ==> states[0].receivers[i].id != Some(states[0].id),
        forall|j: int|
            0 <= j < moments.len() ==> happens(
                states[j],
                states[j + 1],
                #[trigger] moments[j],
                value,
            ),
    ensures
        states.last().is_delivered() <==> forall|i: int|
            0 <= i < states.last().receivers.len() && (
            #[trigger] states.last().receivers[i]).active ==> exists|j: int|
                #![trigger states[j]]
                0 <= j < moments.len() && !(states[j].receivers[i].state is Sending)
                    && states[j + 1].receivers[i].state is Sending,
        forall|i: int, j: int, k: int|
            #![trigger states.last().receivers[i], states[j], states[k]]
            {
                &&& 0 <= i < states.last().receivers.len()
                &&& states.last().receivers[i].active
                &&& 0 <= j < moments.len()
                &&& !(states[j].receivers[i].state is Sending)
                &&& states[j + 1].receivers[i].state is Sending
                &&& 0 <= k < moments.len()
                &&& !(states[k].receivers[i].state is Sending)
                &&& states[k + 1].receivers[i].state is Sending
            } ==> j == k,
        forall|i: int, j: int|
            #![trigger states.last().receivers[i], states[j]]
            {
                &&& 0 <= i < states.last().receivers.len()
                &&& states.last().receivers[i].active
                &&& 0 <= j < moments.len()
                &&& !(states[j].receivers[i].state is Sending)
                &&& states[j + 1].receivers[i].state is Sending
            } ==> moments[j] is Poll && cloned(value, states[j + 1].receivers[i].state->0),
{
    let last = states.last();
    assert forall|i: int|
        #![trigger last.receivers[i]]
        0 <= i < last.receivers.len() && last.receivers[i].active implies handed_once(
        states,
        moments,
        value,
        i,
    ) by {
        lemma_handed_once(states, moments, value, i);
    }
    lemma_same_message(states, moments, value);
    if last.is_delivered() {
        assert forall|i: int|
            0 <= i < last.receivers.len() && (
            #[trigger] last.receivers[i]).active implies exists|j: int|
            #![trigger states[j]]
            0 <= j < moments.len() && !(states[j].receivers[i].state is Sending)
                && states[j + 1].receivers[i].state is Sending by {
            assert(handed_once(states, moments, value, i));
            assert(reached(last.receivers[i], last.id));
            let j = choose|j: int| #[trigger] handed(states, moments, i, j);
            assert(handed(states, moments, i, j));
        }
    }
    if forall|i: int|
        0 <= i < last.receivers.len() && (#[trigger] last.receivers[i]).active ==> exists|j: int|
            #![trigger states[j]]
            0 <= j < moments.len() && !(states[j].receivers[i].state is Sending)
                && states[j + 1].receivers[i].state is Sending {
        assert forall|i: int| 0 <= i < last.receivers.len() implies reached(
            #[trigger] last.receivers[i],
            last.id,
        ) by {
            if last.receivers[i].active {
                assert(handed_once(states, moments, value, i));
                let j = choose|j: int|
                    #![trigger states[j]]
                    0 <= j < moments.len() && !(states[j].receivers[i].state is Sending)
                        && states[j + 1].receivers[i].state is Sending;
                assert(handed(states, moments, i, j));
            }
        }
    }
    assert forall|i: int, j: int, k: int|
        #![trigger states.last().receivers[i], states[j], states[k]]
        {
            &&& 0 <= i < states.last().receivers.len()
            &&& states.last().receivers[i].active
            &&& 0 <= j < moments.len()
            &&& !(states[j].receivers[i].state is Sending)
            &&& states[j + 1].receivers[i].state is Sending
            &&& 0 <= k < moments.len()
            &&& !(states[k].receivers[i].state is Sending)
            &&& states[k + 1].receivers[i].state is Sending
        } implies j == k by {
        assert(handed_once(states, moments, value, i));
        assert(handed(states, moments, i, j) && handed(states, moments, i, k));
    }
    assert forall|i: int, j: int|
        #![trigger states.last().receivers[i], states[j]]
        {
            &&& 0 <= i < states.last().receivers.len()
            &&& states.last().receivers[i].active
            &&& 0 <= j < moments.len()
            &&& !(states[j].receivers[i].state is Sending)
            &&& states[j + 1].receivers[i].state is Sending
        } implies moments[j] is Poll && cloned(value, states[j + 1].receivers[i].state->0) by {
        assert(handed_once(states, moments, value, i));
        assert(handed(states, moments, i, j));
    }
}

/// Whether the receiver in place `i` was handed a message at moment `j`.
spec fn handed<T>(states: Seq<State<T>>, moments: Seq<Moment>, i: int, j: int) -> bool {
    &&& 0 <= j < moments.len()
    &&& !(states[j].receivers[i].state is Sending)
    &&& states[j + 1].receivers[i].state is Sending
}

spec fn handed_once<T: Clone>(
    states: Seq<State<T>>,
    moments: Seq<Moment>,
    value: T,
    i: int,
) -> bool {
    &&& states.last().receivers[i].id == Some(states[0].id) <==> exists|j: int| #[trigger]
        handed(states, moments, i, j)
    &&& forall|j: int, k: int| #[trigger]
        handed(states, moments, i, j) && #[trigger] handed(states, moments, i, k) ==> j == k
    &&& forall|j: int| #[trigger]
        handed(states, moments, i, j) ==> moments[j] is Poll && cloned(
            value,
            states[j + 1].receivers[i].state->0,
        )
}

proof fn lemma_same_message<T: Clone>(states: Seq<State<T>>, moments: Seq<Moment>, value: T)
    requires
        states.len() == moments.len() + 1,
        states[0].open,
        forall|j: int|
            0 <= j < moments.len() ==> happens(
                states[j],
                states[j + 1],
                #[trigger] moments[j],
                value,
            ),
    ensures
        states.last().open,
        states.last().id == states[0].id,
        states.last().receivers.len() == states[0].receivers.len(),
    decreases moments.len(),
{
    if moments.len() > 0 {
        let front = states.drop_last();
        let earlier = moments.drop_last();
        assert forall|j: int| 0 <= j < earlier.len() implies happens(
            front[j],
            front[j + 1],
            #[trigger] earlier[j],
            value,
        ) by {
            assert(happens(states[j], states[j + 1], moments[j], value));
        }
        lemma_same_message(front, earlier, value);
        let n = moments.len() - 1;
        assert(happens(states[n], states[n + 1], moments[n], value));
    }
}

proof fn lemma_handed_once<T: Clone>(
    states: Seq<State<T>>,
    moments: Seq<Moment>,
    value: T,
    i: int,
)
    requires
        states.len() == moments.len() + 1,
        states[0].open,
        states[0].id != 0,
        forall|i: int|
            0 <= i < states[0].receivers.len() && (#[trigger] states[0].receivers[i]).active
                ==> states[0].receivers[i].id != Some(states[0].id),
        forall|j: int|
            0 <= j < moments.len() ==> happens(
                states[j],
                states[j + 1],
                #[trigger] moments[j],
                value,
            ),
        states.last().has(i),
    ensures
        handed_once(states, moments, value, i),
    decreases moments.len(),
{
    if moments.len() > 0 {
        let n = moments.len() - 1;
        let front = states.drop_last();
        let earlier = moments.drop_last();
        assert forall|j: int| 0 <= j < earlier.len() implies happens(
            front[j],
            front[j + 1],
            #[trigger] earlier[j],
            value,
        ) by {
            assert(happens(states[j], states[j + 1], moments[j], value));
        }
        let before = states[n];
        let after = states[n + 1];
        assert(happens(before, after, moments[n], value));
        lemma_same_message(front, earlier, value);
        assert(front.last() == before);
        let was = before.receivers[i];
        let is = after.receivers[i];
        if let Moment::Poll { waker } = moments[n] {
            assert(posted(was, is, before.id, value));
        }
        assert(before.has(i));
        lemma_handed_once(front, earlier, value, i);
        assert forall|j: int| j != n implies #[trigger] handed(states, moments, i, j) == handed(
            front,
            earlier,
            i,
            j,
        ) by {}
        if handed(states, moments, i, n) {
            assert(moments[n] is Poll);
            assert(was.id != Some(states[0].id));
            assert(is.id == Some(states[0].id));
            assert forall|j: int| #[trigger] handed(states, moments, i, j) implies j == n by {
                assert(j != n ==> handed(front, earlier, i, j));
            }
        } else {
            assert(is.id == was.id);
            if was.id == Some(states[0].id) {
                let j = choose|j: int| #[trigger] handed(front, earlier, i, j);
                assert(handed(states, moments, i, j));
            }
            if exists|j: int| #[trigger] handed(states, moments, i, j) {
                let j = choose|j: int| #[trigger] handed(states, moments, i, j);
                assert(handed(front, earlier, i, j));
            }
            assert forall|j: int, k: int| #[trigger]
                handed(states, moments, i, j) && #[trigger] handed(
                    states,
                    moments,
                    i,
                    k,
                ) implies j == k by {
                assert(handed(front, earlier, i, j) && handed(front, earlier, i, k));
            }
            assert forall|j: int| #[trigger] handed(states, moments, i, j) implies moments[j] is Poll
                && cloned(value, states[j + 1].receivers[i].state->0) by {
                assert(handed(front, earlier, i, j));
            }
        }
    } else {
        assert(!(exists|j: int| #[trigger] handed(states, moments, i, j)));
    }
}

/// Polling a send hands a clone of the message to each receiver that waits and has not been sent
/// it yet, and leaves the others as they are. It registers the task that waits and changes nothing
/// else. It is complete if each receiver has been sent the message.
pub proof fn law_sending_reaches_those_waiting<T: Clone>(
    before: State<T>,
    after: State<T>,
    waker: Waker,
    value: T,
)
    requires
        sent(before, after, waker, value),
    ensures
        after.open == before.open,
        after.id == before.id,
        after.tx == Some(waker),
        after.receivers.len() == before.receivers.len(),
        forall|i: int|
            #![trigger after.receivers[i]]
            0 <= i < before.receivers.len() ==> {
                let was = before.receivers[i];
                let is = after.receivers[i];
                if was.active && was.id != Some(before.id) && was.state is Waiting {
                    &&& is.active
                    &&& before.id != 0 ==> is.id == Some(before.id)
                    &&& before.id == 0 ==> is.id is None
                    &&& is.rx == was.rx
                    &&& is.state is Sending
                    &&& cloned(value, is.state->0)
                } else {
                    is == was
                }
            },
        after.is_delivered() <==> forall|i: int|
            0 <= i < after.receivers.len() && (#[trigger] after.receivers[i]).active
                ==> after.receivers[i].id == Some(before.id),
        before.id != 0 ==> (after.is_delivered() <==> forall|i: int|
            0 <= i < before.receivers.len() && (#[trigger] before.receivers[i]).active
                ==> before.receivers[i].id == Some(before.id)
                || before.receivers[i].state is Waiting),
{
    assert forall|i: int|
        #![trigger after.receivers[i]]
        0 <= i < before.receivers.len() implies posted(
        before.receivers[i],
        after.receivers[i],
        before.id,
        value,
    ) by {}
    if before.id != 0 {
        law_send_completes_once_awaited(before, after, waker, value);
    }
}

/// A new channel is open and has as many places as it was created with, none of which has been
/// used.
pub proof fn law_new_channel_is_unused<T>(n: nat, i: int)
    requires
        0 <= i < n,
    ensures
        State::<T>::new(n).open,
        State::<T>::new(n).id == 0,
        State::<T>::new(n).tx is None,
        State::<T>::new(n).receivers.len() == n,
        State::<T>::new(n).receivers[i] == (ReceiverState {
            active: false,
            id: None,
            rx: None,
            state: Delivery::<T>::Empty,
        }),
{
}

/// Someone who subscribes takes a free place, and the first of them. Nothing else changes. Nobody
/// is turned away as long as there is one.
pub proof fn law_subscribing_takes_the_first_vacancy<T>(state: State<T>, i: int)
    ensures
        is_vacancy(state.receivers, i) ==> {
            &&& 0 <= i < state.receivers.len()
            &&& !state.receivers[i].active
            &&& forall|j: int| 0 <= j < i ==> (#[trigger] state.receivers[j]).active
            &&& state.subscribed(i) == (State {
                open: state.open,
                id: state.id,
                tx: state.tx,
                receivers: state.receivers.update(
                    i,
                    ReceiverState {
                        active: true,
                        id: state.receivers[i].id,
                        rx: state.receivers[i].rx,
                        state: state.receivers[i].state,
                    },
                ),
            })
        },
        is_full(state.receivers) ==> forall|j: int|
            0 <= j < state.receivers.len() ==> (#[trigger] state.receivers[j]).active,
        state.has(i) <==> 0 <= i < state.receivers.len() && state.receivers[i].active,
        state.subscribers() == state.receivers.filter(
            |receiver: ReceiverState<T>| receiver.active,
        ).len(),
{
    lemma_active_are_counted(state.receivers);
}

proof fn lemma_active_are_counted<T>(receivers: Seq<ReceiverState<T>>)
    ensures
        active_count(receivers) == receivers.filter(
            |receiver: ReceiverState<T>| receiver.active,
        ).len(),
    decreases receivers.len(),
{
    reveal(Seq::filter);
    if receivers.len() > 0 {
        lemma_active_are_counted(receivers.drop_last());
    }
}

/// A receiver that is dropped leaves its place, and everything else in it, to the next one. The
/// task that waits in a send is no longer registered. Nothing else changes as long as one of the
/// ends is there; then the channel is gone.
pub proof fn law_leaving_frees_one_place<T>(state: State<T>, i: int)
    requires
        state.has(i),
    ensures
        ({
            let rest = state.receivers.update(
                i,
                ReceiverState {
                    active: false,
                    id: state.receivers[i].id,
                    rx: state.receivers[i].rx,
                    state: state.receivers[i].state,
                },
            );
            if state.open || exists|j: int|
                0 <= j < state.receivers.len() && j != i && (#[trigger] state.receivers[j]).active {
                state.unsubscribed(i) == (State {
                    open: state.open,
                    id: state.id,
                    tx: None,
                    receivers: rest,
                })
            } else {
                &&& !state.unsubscribed(i).open
                &&& state.unsubscribed(i).tx is None
                &&& state.unsubscribed(i).receivers.len() == 0
            }
        }),
{
    let rest = state.receivers.update(i, ReceiverState { active: false, ..state.receivers[i] });
    lemma_active_count(rest);
    if exists|j: int|
        0 <= j < state.receivers.len() && j != i && (#[trigger] state.receivers[j]).active {
        let j = choose|j: int|
            0 <= j < state.receivers.len() && j != i && (#[trigger] state.receivers[j]).active;
        assert(rest[j].active);
    } else {
        assert forall|j: int| 0 <= j < rest.len() implies !(#[trigger] rest[j]).active by {
            assert(j != i ==> !state.receivers[j].active);
        }
        lemma_none_active(rest);
    }
}

/// Dropping the sender closes the channel. It keeps each receiver in its place, and the message
/// that has been handed to it, and no task is registered for any of them.
pub proof fn law_closing_keeps_what_was_handed_over<T>(state: State<T>, i: int)
    requires
        state.has(i),
    ensures
        ({
            let after = state.sender_dropped();
            &&& !after.open
            &&& after.id == state.id
            &&& after.tx == state.tx
            &&& after.receivers.len() == state.receivers.len()
            &&& forall|j: int|
                0 <= j < state.receivers.len() ==> #[trigger] after.receivers[j] == (
                ReceiverState {
                    active: state.receivers[j].active,
                    id: state.receivers[j].id,
                    rx: None,
                    state: state.receivers[j].state,
                })
        }),
{
    lemma_active_count(state.receivers);
}

/// Once the sender has been dropped and no receiver is left, there is nothing in the channel.
pub proof fn law_nothing_outlives_the_ends<T>(state: State<T>, n: nat)
    requires
        state.inv(n),
        forall|i: int| 0 <= i < state.receivers.len() ==> !(#[trigger] state.receivers[i]).active,
    ensures
        !state.sender_dropped().open,
        state.sender_dropped().tx is None,
        state.sender_dropped().receivers.len() == 0,
        !state.open ==> state.tx is None && state.receivers.len() == 0,
        state.open ==> state.receivers.len() == n,
{
    lemma_none_active(state.receivers);
}

/// A receiver that is polled for the first time starts to wait, and forgets what was left in its
/// place; one that waits gets the message that has been handed to it and takes it out. If there is
/// none it goes on waiting as long as the sender is there, and gets `None` once it is gone. The
/// task that polls is registered if none is. Nothing else changes.
pub proof fn law_receiver_gets_what_was_handed_over<T>(state: State<T>, i: int, waker: Waker)
    requires
        0 <= i < state.receivers.len(),
    ensures
        ({
            let was = state.receivers[i];
            let after = state.polled(i, waker);
            let is = after.receivers[i];
            &&& after == (State {
                open: state.open,
                id: state.id,
                tx: state.tx,
                receivers: state.receivers.update(i, is),
            })
            &&& is.active == was.active
            &&& is.id == was.id
            &&& if was.state is Sending {
                &&& state.received(i) == Poll::Ready(Some(was.state->0))
                &&& is.state is Empty
                &&& is.rx == was.rx
            } else if !state.open {
                &&& state.received(i) == Poll::Ready(None::<T>)
                &&& is.state is Empty
                &&& is.rx is None
            } else {
                &&& state.received(i) is Pending
                &&& is.state == was.state
                &&& was.rx is Some ==> is.rx == was.rx
                &&& was.rx is None ==> is.rx == Some(waker)
            }
        }),
        awaited(state, i, Phase::Created) == (State {
            open: state.open,
            id: state.id,
            tx: state.tx,
            receivers: state.receivers.update(
                i,
                ReceiverState {
                    active: state.receivers[i].active,
                    id: state.receivers[i].id,
                    rx: state.receivers[i].rx,
                    state: Delivery::Waiting,
                },
            ),
        }),
        awaited(state, i, Phase::Waiting) == state,
        state.moved(i, Delivery::Empty) == (State {
            open: state.open,
            id: state.id,
            tx: state.tx,
            receivers: state.receivers.update(
                i,
                ReceiverState {
                    active: state.receivers[i].active,
                    id: state.receivers[i].id,
                    rx: state.receivers[i].rx,
                    state: Delivery::Empty,
                },
            ),
        }),
{
}

/// The tasks that are woken are those registered for the receivers that are handed a message, or
/// for all of them when the sender is dropped, each of them once and in the order of the places.
pub proof fn law_wakers_are_those_registered<T>(receivers: Seq<ReceiverState<T>>, id: u64)
    ensures
        all_wakers(receivers) == receivers.filter(
            |receiver: ReceiverState<T>| receiver.rx is Some,
        ).map_values(|receiver: ReceiverState<T>| receiver.rx->0),
        post_wakers(receivers, id) == receivers.filter(
            |receiver: ReceiverState<T>|
                receiver.rx is Some && receiver.active && receiver.id != Some(id)
                    && receiver.state is Waiting,
        ).map_values(|receiver: ReceiverState<T>| receiver.rx->0),
    decreases receivers.len(),
{
    reveal(Seq::filter);
    if receivers.len() > 0 {
        law_wakers_are_those_registered(receivers.drop_last(), id);
    }
    assert(all_wakers(receivers) =~= receivers.filter(
        |receiver: ReceiverState<T>| receiver.rx is Some,
    ).map_values(|receiver: ReceiverState<T>| receiver.rx->0));
    assert(post_wakers(receivers, id) =~= receivers.filter(
        |receiver: ReceiverState<T>|
            receiver.rx is Some && receiver.active && receiver.id != Some(id)
                && receiver.state is Waiting,
    ).map_values(|receiver: ReceiverState<T>| receiver.rx->0));
}

/// Each message that is sent has the identifier after that of the one before it, passing over
/// zero, and taking it changes nothing else.
pub proof fn law_identifiers_count_up<T>(state: State<T>)
    ensures
        state.bumped() == (State {
            id: if state.id == u64::MAX {
                1u64
            } else {
                (state.id + 1) as u64
            },
            open: state.open,
            tx: state.tx,
            receivers: state.receivers,
        }),
{
}

proof fn lemma_all_wakers<T>(receivers: Seq<ReceiverState<T>>, i: int, waker: Waker)
    requires
        0 <= i < receivers.len(),
        receivers[i].rx == Some(waker),
    ensures
        all_wakers(receivers).contains(waker),
    decreases receivers.len(),
{
    let front = receivers.drop_last();
    if i == front.len() {
        assert(all_wakers(receivers).last() == waker);
    } else {
        lemma_all_wakers(front, i, waker);
        let k = all_wakers(front).index_of(waker);
        assert(all_wakers(receivers)[k] == waker);
    }
}

proof fn lemma_post_wakers<T>(receivers: Seq<ReceiverState<T>>, i: int, waker: Waker, id: u64)
    requires
        0 <= i < receivers.len(),
        receivers[i].rx == Some(waker),
        takes(receivers[i], id),
    ensures
        post_wakers(receivers, id).contains(waker),
    decreases receivers.len(),
{
    let front = receivers.drop_last();
    if i == front.len() {
        assert(post_wakers(receivers, id).last() == waker);
    } else {
        lemma_post_wakers(front, i, waker, id);
        let k = post_wakers(front, id).index_of(waker);
        assert(post_wakers(receivers, id)[k] == waker);
    }
}

/// No more places are taken than there are, and all of them are if as many are.
proof fn lemma_active_count<T>(receivers: Seq<ReceiverState<T>>)
    ensures
        0 <= active_count(receivers) <= receivers.len(),
        forall|i: int|
            0 <= i < receivers.len() && (#[trigger] receivers[i]).active ==> active_count(receivers)
                > 0,
        active_count(receivers) == receivers.len() <==> is_full(receivers),
    decreases receivers.len(),
{
    if receivers.len() > 0 {
        let front = receivers.drop_last();
        lemma_active_count(front);
        assert(forall|i: int| 0 <= i < front.len() ==> #[trigger] front[i] == receivers[i]);
        if is_full(front) && receivers.last().active {
            assert forall|i: int| 0 <= i < receivers.len() implies (
            #[trigger] receivers[i]).active by {
                if i < front.len() {
                    assert(front[i].active);
                }
            }
        }
        if is_full(receivers) {
            assert forall|i: int| 0 <= i < front.len() implies (#[trigger] front[i]).active by {
                assert(receivers[i].active);
            }
        }
        assert forall|i: int|
            0 <= i < receivers.len() && (#[trigger] receivers[i]).active implies active_count(
            receivers,
        ) > 0 by {
            if i < front.len() {
                assert(front[i].active);
            }
        }
    }
}

/// Taking or freeing a place counts for one.
proof fn lemma_active_count_update<T>(
    receivers: Seq<ReceiverState<T>>,
    i: int,
    receiver: ReceiverState<T>,
)
    requires
        0 <= i < receivers.len(),
    ensures
        active_count(receivers.update(i, receiver)) == active_count(receivers) + (
        if receiver.active {
            1int
        } else {
            0
        }) - (if receivers[i].active {
            1int
        } else {
            0
        }),
    decreases receivers.len(),
{
    let after = receivers.update(i, receiver);
    let front = receivers.drop_last();
    if i == front.len() {
        assert(after.drop_last() =~= front);
    } else {
        lemma_active_count_update(front, i, receiver);
        assert(after.drop_last() =~= front.update(i, receiver));
    }
}

/// The places that are taken are what counts.
proof fn lemma_same_active_count<T>(
    before: Seq<ReceiverState<T>>,
    after: Seq<ReceiverState<T>>,
)
    requires
        before.len() == after.len(),
        forall|i: int|
            0 <= i < before.len() ==> (#[trigger] after[i]).active == before[i].active,
    ensures
        active_count(before) == active_count(after),
    decreases before.len(),
{
    if before.len() > 0 {
        assert(forall|i: int|
            0 <= i < before.len() - 1 ==> #[trigger] after.drop_last()[i] == after[i]);
        lemma_same_active_count(before.drop_last(), after.drop_last());
        assert(after[before.len() - 1].active == before[before.len() - 1].active);
    }
}

proof fn lemma_none_active<T>(receivers: Seq<ReceiverState<T>>)
    requires
        forall|i: int| 0 <= i < receivers.len() ==> !(#[trigger] receivers[i]).active,
    ensures
        active_count(receivers) == 0,
    decreases receivers.len(),
{
    if receivers.len() > 0 {
        let front = receivers.drop_last();
        assert(forall|i: int| 0 <= i < front.len() ==> #[trigger] front[i] == receivers[i]);
        lemma_none_active(front);
    }
}

} // verus!
