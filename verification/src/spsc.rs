//! A single-producer, single-consumer channel.
//!
//! You might also know this simply as a "queue", but I'm sticking with a
//! uniform naming scheme.
//!
//! The [`Sender`] and the [`Receiver`] communicate through a [`Channel`], which
//! holds the state that they share.
use crate::bi_rc::{BiRc, Inner};
use crate::task::{register, wake_and_clear, wake_by_ref, Poll};
use std::collections::VecDeque;
use std::task::Waker;
use vstd::prelude::*;

verus! {

/// The description of a [`SendError`].
pub const MESSAGE: &'static str = "channel disconnected";

/// Error raised when sending a message over the queue, which hands the message
/// back.
#[derive(Clone, Copy)]
#[non_exhaustive]
pub struct SendError<T>(pub T);

impl<T> SendError<T> {
    /// A description of the error.
    pub fn message(&self) -> (message: &'static str)
        ensures
            message@ == "channel disconnected"@,
    {
        MESSAGE
    }
}

/// Interior shared state.
///
/// Note that we maintain two sets of waker to avoid having to clone the waker
/// associated with the channel unecessarily. This is done because it's presumed
/// that the channel will be re-used.
struct Shared<T> {
    /// Waker to wake once sending is available.
    tx: Option<Waker>,
    /// Waker to wake once receiving is available.
    rx: Option<Waker>,
    /// The values that were sent and have not been received.
    buf: VecDeque<T>,
    /// How many values the channel holds at most.
    capacity: usize,
}

impl<T> Shared<T> {
    /// Test if the channel is at capacity.
    fn at_capacity(&self) -> (full: bool)
        requires
            self.buf@.len() <= self.capacity,
        ensures
            full == (self.buf@.len() == self.capacity),
    {
        self.buf.len() == self.capacity
    }
}

/// The state that the two ends of a channel share.
pub struct Channel<T> {
    inner: Inner<Shared<T>>,
}

/// The contents of a channel.
#[verifier::ext_equal]
pub struct State<T> {
    /// The number of ends that have not been dropped.
    pub ends: int,
    /// The task to wake once sending is available.
    pub tx: Option<Waker>,
    /// The task to wake once receiving is available.
    pub rx: Option<Waker>,
    /// The values that were sent and have not been received, oldest first.
    pub buf: Seq<T>,
    /// How many values the channel holds at most.
    pub capacity: int,
}

impl<T> State<T> {
    /// An open channel that holds nothing.
    pub open spec fn open(capacity: int) -> Self {
        State { ends: 2, tx: None, rx: None, buf: Seq::empty(), capacity }
    }

    /// A channel both ends of which have been dropped.
    pub open spec fn closed() -> Self {
        State { ends: 0, tx: None, rx: None, buf: Seq::empty(), capacity: 0 }
    }

    pub open spec fn inv(self) -> bool {
        &&& 0 <= self.ends <= 2
        &&& self.ends == 0 ==> self == Self::closed()
        &&& self.buf.len() <= self.capacity <= usize::MAX
    }

    /// The channel after one more of its ends has been dropped.
    pub open spec fn released(self) -> Self {
        if self.ends > 1 {
            State { ends: self.ends - 1, ..self }
        } else {
            Self::closed()
        }
    }

    /// The channel after the sender has been dropped.
    pub open spec fn sender_dropped(self) -> Self {
        State { rx: None, ..self }.released()
    }

    /// The channel after the receiver has been dropped.
    pub open spec fn receiver_dropped(self) -> Self {
        State { tx: None, ..self }.released()
    }

    /// Whether a value that is sent is accepted right away.
    pub open spec fn accepts(self) -> bool {
        self.ends == 2 && self.buf.len() < self.capacity
    }

    /// The channel after `value` has been accepted.
    pub open spec fn accepted(self, value: T) -> Self {
        State { buf: self.buf.push(value), ..self }
    }

    /// What the receiver gets from the channel.
    pub open spec fn received(self) -> Poll<Option<T>> {
        if self.buf.len() > 0 {
            Poll::Ready(Some(self.buf[0]))
        } else if self.ends < 2 {
            Poll::Ready(None)
        } else {
            Poll::Pending
        }
    }

    /// The channel after the receiver has been polled by the task of `waker`.
    pub open spec fn polled(self, waker: Waker) -> Self {
        if self.buf.len() > 0 {
            State { buf: self.buf.drop_first(), ..self }
        } else if self.ends < 2 {
            State { rx: None, ..self }
        } else {
            State { rx: Some(waker), ..self }
        }
    }
}

impl<T> View for Channel<T> {
    type V = State<T>;

    closed spec fn view(&self) -> State<T> {
        match self.inner.value() {
            Some(shared) => State {
                ends: self.inner.count(),
                tx: shared.tx,
                rx: shared.rx,
                buf: shared.buf@,
                capacity: shared.capacity as int,
            },
            None => State::closed(),
        }
    }
}

impl<T> Channel<T> {
    /// The state is there as long as one of the ends is.
    pub closed spec fn allocated(&self) -> bool {
        self.inner.wf()
    }

    pub open spec fn wf(&self) -> bool {
        self.allocated() && self@.inv()
    }
}

/// Sender end of this queue.
pub struct Sender<T> {
    inner: BiRc<Shared<T>>,
}

impl<T> Sender<T> {
    /// Send a message on the channel if it has room for it.
    ///
    /// This raises [`SendError`] if the channel is at capacity, or its receiver has been dropped.
    pub fn try_send(
        &mut self,
        channel: &mut Channel<T>,
        value: T,
        wakes: &mut Vec<Waker>,
    ) -> (result: Result<(), SendError<T>>)
        requires
            old(channel).wf(),
            old(channel)@.ends > 0,
        ensures
            final(channel).wf(),
            result is Ok <==> old(channel)@.ends == 2 && old(channel)@.buf.len()
                < old(channel)@.capacity,
            result is Ok ==> final(channel)@.buf == old(channel)@.buf.push(value),
            result matches Err(error) ==> error.0 == value && final(channel)@ == old(channel)@,
            if old(channel)@.accepts() {
                &&& result == Ok::<(), SendError<T>>(())
                &&& final(channel)@ == old(channel)@.accepted(value)
                &&& final(wakes)@ == old(wakes)@ + crate::task::pending_wake(old(channel)@.rx)
            } else {
                &&& result == Err::<(), SendError<T>>(SendError(value))
                &&& final(channel)@ == old(channel)@
                &&& final(wakes)@ == old(wakes)@
            },
    {
        let (shared, both_present) = self.inner.get_mut_unchecked(&mut channel.inner);
        if !both_present || shared.at_capacity() {
            return Err(SendError(value));
        }
        shared.buf.push_back(value);
        wake_by_ref(&shared.rx, wakes);
        Ok(())
    }

    /// Send a message on the channel, waiting for it to have room.
    pub fn send(&mut self, value: T) -> (send: Send<'_, T>)
        ensures
            *final(self) == *old(self),
            send@ == Some(value),
    {
        Send { inner: &self.inner, to_send: Some(value) }
    }

    /// Drop the sender, waking the receiver.
    pub fn close(self, channel: &mut Channel<T>, wakes: &mut Vec<Waker>)
        requires
            old(channel).wf(),
            old(channel)@.ends > 0,
        ensures
            final(channel).wf(),
            final(channel)@ == old(channel)@.sender_dropped(),
            final(wakes)@ == old(wakes)@ + crate::task::pending_wake(old(channel)@.rx),
    {
        let (shared, _) = self.inner.get_mut_unchecked(&mut channel.inner);
        wake_and_clear(&mut shared.rx, wakes);
        self.inner.release(&mut channel.inner);
    }
}

/// Future returned when sending a value through [`Sender::send`].
pub struct Send<'a, T> {
    inner: &'a BiRc<Shared<T>>,
    to_send: Option<T>,
}

impl<'a, T> View for Send<'a, T> {
    type V = Option<T>;

    /// The value that has not been sent yet.
    closed spec fn view(&self) -> Option<T> {
        self.to_send
    }
}

impl<'a, T> Send<'a, T> {
    /// Poll the future with the waker of the current task.
    ///
    /// It completes once the channel has had room for the value, or with the value if the
    /// receiver has been dropped.
    pub fn poll(&mut self, channel: &mut Channel<T>, waker: &Waker, wakes: &mut Vec<Waker>) -> (result:
        Poll<Result<(), SendError<T>>>)
        requires
            old(channel).wf(),
            old(channel)@.ends > 0,
            old(self)@ is Some,
        ensures
            final(channel).wf(),
            ({
                let value = old(self)@->0;
                if old(channel)@.ends < 2 {
                    &&& result == Poll::Ready(Err::<(), SendError<T>>(SendError(value)))
                    &&& final(self)@ is None
                    &&& final(channel)@ == (State { tx: None, ..old(channel)@ })
                    &&& final(wakes)@ == old(wakes)@
                } else if old(channel)@.accepts() {
                    &&& result == Poll::Ready(Ok::<(), SendError<T>>(()))
                    &&& final(self)@ is None
                    &&& final(channel)@ == old(channel)@.accepted(value)
                    &&& final(wakes)@ == old(wakes)@ + crate::task::pending_wake(old(channel)@.rx)
                } else {
                    &&& result is Pending
                    &&& final(self)@ == old(self)@
                    &&& final(channel)@ == (State { tx: Some(*waker), ..old(channel)@ })
                    &&& final(wakes)@ == old(wakes)@
                }
            }),
    {
        let (shared, both_present) = self.inner.get_mut_unchecked(&mut channel.inner);
        if !both_present {
            shared.tx = None;
            let value = self.to_send.take().unwrap();
            return Poll::Ready(Err(SendError(value)));
        }
        if shared.at_capacity() {
            register(&mut shared.tx, waker);
            return Poll::Pending;
        }
        let value = self.to_send.take().unwrap();
        shared.buf.push_back(value);
        wake_by_ref(&shared.rx, wakes);
        Poll::Ready(Ok(()))
    }
}

/// Receiver end of this queue.
pub struct Receiver<T> {
    inner: BiRc<Shared<T>>,
}

impl<T> Receiver<T> {
    /// Receive a message on the channel.
    pub fn recv(&mut self) -> (recv: Recv<'_, T>)
        ensures
            *final(self) == *old(self),
            recv.receives_for(*old(self)),
    {
        Recv { inner: &self.inner }
    }

    /// Drop the receiver, waking the sender.
    pub fn close(self, channel: &mut Channel<T>, wakes: &mut Vec<Waker>)
        requires
            old(channel).wf(),
            old(channel)@.ends > 0,
        ensures
            final(channel).wf(),
            final(channel)@ == old(channel)@.receiver_dropped(),
            final(wakes)@ == old(wakes)@ + crate::task::pending_wake(old(channel)@.tx),
    {
        let (shared, _) = self.inner.get_mut_unchecked(&mut channel.inner);
        wake_and_clear(&mut shared.tx, wakes);
        self.inner.release(&mut channel.inner);
    }
}

/// Future returned when receiving a value through [`Receiver::recv`].
pub struct Recv<'a, T> {
    inner: &'a BiRc<Shared<T>>,
}

impl<'a, T> Recv<'a, T> {
    /// Whether the future holds the reference of `receiver` to what the two ends share.
    pub closed spec fn receives_for(&self, receiver: Receiver<T>) -> bool {
        *self.inner == receiver.inner
    }

    /// Poll the future with the waker of the current task.
    ///
    /// It completes with the oldest value in the channel, or with `None` if there is none and
    /// the sender has been dropped. If it has to wait, it wakes a sender that waits for room.
    pub fn poll(&mut self, channel: &mut Channel<T>, waker: &Waker, wakes: &mut Vec<Waker>) -> (result:
        Poll<Option<T>>)
        requires
            old(channel).wf(),
            old(channel)@.ends > 0,
        ensures
            *final(self) == *old(self),
            final(channel).wf(),
            result == old(channel)@.received(),
            final(channel)@ == old(channel)@.polled(*waker),
            final(wakes)@ == old(wakes)@ + (if result is Pending {
                crate::task::pending_wake(old(channel)@.tx)
            } else {
                Seq::empty()
            }),
    {
        let (shared, both_present) = self.inner.get_mut_unchecked(&mut channel.inner);
        if let Some(value) = shared.buf.pop_front() {
            proof {
                assert(shared.buf@ =~= old(channel)@.buf.drop_first());
            }
            return Poll::Ready(Some(value));
        }
        if !both_present {
            shared.rx = None;
            return Poll::Ready(None);
        }
        register(&mut shared.rx, waker);
        wake_by_ref(&shared.tx, wakes);
        Poll::Pending
    }
}

/// Setup a spsc channel which holds at most `capacity` messages.
pub fn channel<T>(capacity: usize) -> (ends: (Channel<T>, Sender<T>, Receiver<T>))
    ensures
        ends.0.wf(),
        ends.0@ == State::<T>::open(capacity as int),
{
    let (inner, a, b) = BiRc::new(
        Shared { tx: None, rx: None, buf: VecDeque::new(), capacity },
    );
    (Channel { inner }, Sender { inner: b }, Receiver { inner: a })
}

/// The channel after the receiver has been polled `n` times.
pub open spec fn after_polls<T>(state: State<T>, waker: Waker, n: nat) -> State<T>
    decreases n,
{
    if n == 0 {
        state
    } else {
        after_polls(state, waker, (n - 1) as nat).polled(waker)
    }
}

/// The channel after `values` have been accepted, in turn.
pub open spec fn after_sends<T>(state: State<T>, values: Seq<T>) -> State<T>
    decreases values.len(),
{
    if values.len() == 0 {
        state
    } else {
        after_sends(state, values.drop_last()).accepted(values.last())
    }
}

/// Values are received in the order in which they were sent, each of them once, and also after
/// the sender has been dropped.
pub proof fn law_values_are_received_in_order<T>(
    state: State<T>,
    values: Seq<T>,
    waker: Waker,
    n: nat,
)
    requires
        state.inv(),
        state.ends == 2,
        n < state.buf.len() + values.len(),
    ensures
        after_polls(after_sends(state, values), waker, n).received() == Poll::Ready(
            Some((state.buf + values)[n as int]),
        ),
        after_polls(after_sends(state, values).sender_dropped(), waker, n).received()
            == Poll::Ready(Some((state.buf + values)[n as int])),
{
    lemma_after_sends(state, values);
    lemma_after_polls(after_sends(state, values), waker, n);
    lemma_after_polls(after_sends(state, values).sender_dropped(), waker, n);
}

/// Once the sender has been dropped and everything that it sent has been received, the receiver
/// gets `None`.
pub proof fn law_drained_channel_ends<T>(state: State<T>, waker: Waker)
    requires
        state.inv(),
        state.ends == 2,
    ensures
        after_polls(state.sender_dropped(), waker, state.buf.len()).received() == Poll::Ready(
            None::<T>,
        ),
{
    lemma_after_polls(state.sender_dropped(), waker, state.buf.len());
}

proof fn lemma_after_sends<T>(state: State<T>, values: Seq<T>)
    ensures
        after_sends(state, values) == (State { buf: state.buf + values, ..state }),
    decreases values.len(),
{
    if values.len() > 0 {
        lemma_after_sends(state, values.drop_last());
        assert((state.buf + values.drop_last()).push(values.last()) =~= state.buf + values);
    } else {
        assert(state.buf + values =~= state.buf);
    }
}

proof fn lemma_after_polls<T>(state: State<T>, waker: Waker, n: nat)
    requires
        n <= state.buf.len(),
    ensures
        after_polls(state, waker, n) == (State { buf: state.buf.skip(n as int), ..state }),
    decreases n,
{
    if n > 0 {
        lemma_after_polls(state, waker, (n - 1) as nat);
        assert(state.buf.skip(n - 1).drop_first() =~= state.buf.skip(n as int));
    } else {
        assert(state.buf.skip(0) =~= state.buf);
    }
}

/// Receiving from a full channel makes room for another value.
pub proof fn law_receiving_makes_room<T>(state: State<T>, waker: Waker)
    requires
        state.inv(),
        state.ends == 2,
        state.buf.len() > 0,
    ensures
        state.polled(waker).accepts(),
        state.polled(waker).inv(),
{
}

/// A receiver that goes on receiving until it has to wait leaves a sender that waits for room
/// registered, and there is room then.
pub proof fn law_drained_channel_has_room<T>(state: State<T>, waker: Waker)
    requires
        state.inv(),
        state.ends == 2,
        state.capacity > 0,
    ensures
        ({
            let drained = after_polls(state, waker, state.buf.len());
            &&& drained.received() is Pending
            &&& drained.tx == state.tx
            &&& drained.accepts()
        }),
{
    lemma_after_polls(state, waker, state.buf.len());
}

/// A receiver that is told to wait is the one that the sender wakes, by sending or by being
/// dropped.
pub proof fn law_pending_receiver_is_registered<T>(state: State<T>, waker: Waker)
    requires
        state.inv(),
        state.received() is Pending,
    ensures
        crate::task::pending_wake(state.polled(waker).rx) == seq![waker],
{
}

/// What may happen to a channel.
pub enum Action<T> {
    /// Sending `value` is tried.
    TrySend { value: T },
    /// A future that sends `value` is polled by the task of `waker`.
    PollSend { value: T, waker: Waker },
    /// The receiver is polled by the task of `waker`.
    Receive { waker: Waker },
    /// The sender is dropped.
    DropSender,
    /// The receiver is dropped.
    DropReceiver,
}

/// A channel, which of its ends are there, and what has passed through it.
pub struct Scene<T> {
    /// The contents of the channel.
    pub state: State<T>,
    /// Whether the sender has not been dropped.
    pub sender: bool,
    /// Whether the receiver has not been dropped.
    pub receiver: bool,
    /// The values that the channel has accepted, in their order.
    pub accepted: Seq<T>,
    /// The values that the receiver has got, in their order.
    pub received: Seq<T>,
}

impl<T> Scene<T> {
    /// The scene right after the channel has been set up.
    pub open spec fn opening(capacity: int) -> Self {
        Scene {
            state: State::open(capacity),
            sender: true,
            receiver: true,
            accepted: Seq::empty(),
            received: Seq::empty(),
        }
    }

    /// The scene after the channel has accepted `value`.
    pub open spec fn accepting(self, value: T) -> Self {
        Scene { state: self.state.accepted(value), accepted: self.accepted.push(value), ..self }
    }
}

/// What an action does to a scene. Only an end that is there acts.
pub open spec fn acts<T>(before: Scene<T>, after: Scene<T>, action: Action<T>) -> bool {
    match action {
        Action::TrySend { value } => {
            &&& before.sender
            &&& after == if before.state.accepts() {
                before.accepting(value)
            } else {
                before
            }
        },
        Action::PollSend { value, waker } => {
            &&& before.sender
            &&& after == if before.state.ends < 2 {
                Scene { state: State { tx: None, ..before.state }, ..before }
            } else if before.state.accepts() {
                before.accepting(value)
            } else {
                Scene { state: State { tx: Some(waker), ..before.state }, ..before }
            }
        },
        Action::Receive { waker } => {
            &&& before.receiver
            &&& after == Scene {
                state: before.state.polled(waker),
                received: match before.state.received() {
                    Poll::Ready(Some(value)) => before.received.push(value),
                    _ => before.received,
                },
                ..before
            }
        },
        Action::DropSender => {
            &&& before.sender
            &&& after == Scene { state: before.state.sender_dropped(), sender: false, ..before }
        },
        Action::DropReceiver => {
            &&& before.receiver
            &&& after == Scene {
                state: before.state.receiver_dropped(),
                receiver: false,
                ..before
            }
        },
    }
}

/// A channel that holds at most `capacity` values goes through `scenes` after it has been set up.
pub open spec fn channel_run<T>(
    capacity: int,
    scenes: Seq<Scene<T>>,
    actions: Seq<Action<T>>,
) -> bool {
    &&& 0 <= capacity <= usize::MAX
    &&& scenes.len() == actions.len() + 1
    &&& scenes[0] == Scene::<T>::opening(capacity)
    &&& forall|j: int|
        0 <= j < actions.len() ==> acts(scenes[j], scenes[j + 1], #[trigger] actions[j])
}

/// Nothing is lost, repeated or put out of order: however sends and receives are interleaved, what
/// the receiver has got, followed by what the channel holds, is what the channel has accepted, for
/// as long as the receiver is there. What it has got is never more than that.
///
/// Once the sender has been dropped, the receiver gets what the channel holds, and then `None`, so
/// that when it gets `None` it has got everything.
pub proof fn law_receiver_gets_everything_accepted<T>(
    capacity: int,
    scenes: Seq<Scene<T>>,
    actions: Seq<Action<T>>,
    waker: Waker,
)
    requires
        channel_run(capacity, scenes, actions),
    ensures
        ({
            let last = scenes.last();
            let held = last.state.buf;
            &&& last.state.inv()
            &&& last.received.is_prefix_of(last.accepted)
            &&& last.receiver ==> {
                &&& last.received + held == last.accepted
                &&& held.len() <= capacity
                &&& last.state.received() == Poll::Ready(None::<T>) ==> last.received
                    == last.accepted
            }
            &&& last.receiver && !last.sender ==> {
                &&& forall|n: nat|
                    n < held.len() ==> (#[trigger] after_polls(last.state, waker, n)).received()
                        == Poll::Ready(Some(held[n as int]))
                &&& forall|n: nat|
                    n >= held.len() ==> (#[trigger] after_polls(last.state, waker, n)).received()
                        == Poll::Ready(None::<T>)
            }
        }),
{
    lemma_channel_run(capacity, scenes, actions);
    let last = scenes.last();
    let held = last.state.buf;
    if last.receiver {
        assert(last.received =~= last.accepted.subrange(0, last.received.len() as int));
        if held.len() == 0 {
            assert(last.received + held =~= last.received);
        }
    }
    if last.receiver && !last.sender {
        assert forall|n: nat| n < held.len() implies (#[trigger] after_polls(
            last.state,
            waker,
            n,
        )).received() == Poll::Ready(Some(held[n as int])) by {
            lemma_after_polls(last.state, waker, n);
        }
        assert forall|n: nat| n >= held.len() implies (#[trigger] after_polls(
            last.state,
            waker,
            n,
        )).received() == Poll::Ready(None::<T>) by {
            lemma_drained(last.state, waker, n);
        }
    }
}

/// A receiver of a channel that is empty, and whose sender is gone, gets `None` however often it
/// is polled.
proof fn lemma_drained<T>(state: State<T>, waker: Waker, n: nat)
    requires
        state.ends < 2,
        n >= state.buf.len(),
    ensures
        after_polls(state, waker, n).ends < 2,
        after_polls(state, waker, n).buf.len() == 0,
    decreases n,
{
    if n == state.buf.len() {
        lemma_after_polls(state, waker, n);
    } else {
        lemma_drained(state, waker, (n - 1) as nat);
    }
}

proof fn lemma_channel_run<T>(capacity: int, scenes: Seq<Scene<T>>, actions: Seq<Action<T>>)
    requires
        channel_run(capacity, scenes, actions),
    ensures
        ({
            let last = scenes.last();
            &&& last.state.inv()
            &&& last.state.ends == (if last.sender {
                1int
            } else {
                0
            }) + (if last.receiver {
                1int
            } else {
                0
            })
            &&& last.state.ends > 0 ==> last.state.capacity == capacity
            &&& last.receiver ==> last.received + last.state.buf == last.accepted
            &&& last.received.is_prefix_of(last.accepted)
        }),
    decreases actions.len(),
{
    if actions.len() == 0 {
        assert(scenes.last().received + scenes.last().state.buf =~= scenes.last().accepted);
    } else {
        let n = actions.len() - 1;
        let front = scenes.drop_last();
        let earlier = actions.drop_last();
        assert forall|j: int| 0 <= j < earlier.len() implies acts(
            front[j],
            front[j + 1],
            #[trigger] earlier[j],
        ) by {
            assert(acts(scenes[j], scenes[j + 1], actions[j]));
        }
        assert(front[0] == scenes[0]);
        lemma_channel_run(capacity, front, earlier);
        let before = scenes[n];
        let after = scenes[n + 1];
        assert(acts(before, after, actions[n]));
        if after.receiver {
            assert(after.received + after.state.buf =~= after.accepted);
            assert(after.received =~= after.accepted.subrange(0, after.received.len() as int));
        } else {
            assert(after.received =~= after.accepted.subrange(0, after.received.len() as int));
        }
    }
}

/// Once the receiver has been dropped the channel accepts nothing, over any run: whatever is done
/// with the sender after that, no value is added to those that were accepted before.
pub proof fn law_nothing_is_accepted_without_receiver<T>(
    capacity: int,
    scenes: Seq<Scene<T>>,
    actions: Seq<Action<T>>,
    j: int,
    k: int,
)
    requires
        channel_run(capacity, scenes, actions),
        0 <= j <= k < scenes.len(),
        !scenes[j].receiver,
    ensures
        !scenes[k].receiver,
        scenes[k].accepted == scenes[j].accepted,
        !scenes[k].state.accepts(),
    decreases k - j,
{
    let front = scenes.take(k + 1);
    let earlier = actions.take(k);
    assert forall|i: int| 0 <= i < earlier.len() implies acts(
        front[i],
        front[i + 1],
        #[trigger] earlier[i],
    ) by {
        assert(acts(scenes[i], scenes[i + 1], actions[i]));
    }
    assert(front[0] == scenes[0]);
    lemma_channel_run(capacity, front, earlier);
    if j < k {
        law_nothing_is_accepted_without_receiver(capacity, scenes, actions, j, k - 1);
        assert(acts(scenes[k - 1], scenes[k], actions[k - 1]));
    }
}

/// A channel that has lost its receiver is one that accepts nothing, and so is one that is full.
/// Any other channel accepts what is sent, behind what it holds already.
pub proof fn law_sending_needs_a_receiver_and_room<T>(state: State<T>, value: T)
    requires
        state.inv(),
    ensures
        state.accepts() <==> state.ends == 2 && state.buf.len() < state.capacity,
        state.ends > 0 ==> !state.receiver_dropped().accepts(),
        state.accepted(value) == (State {
            ends: state.ends,
            tx: state.tx,
            rx: state.rx,
            buf: state.buf.push(value),
            capacity: state.capacity,
        }),
        0 <= state.buf.len() <= state.capacity,
{
}

/// The receiver gets the oldest value that the channel holds and takes it out. If there is none it
/// waits as long as the sender is there, and gets `None` once it is gone.
pub proof fn law_receiver_gets_the_oldest<T>(state: State<T>, waker: Waker)
    ensures
        state.buf.len() > 0 ==> {
            &&& state.received() == Poll::Ready(Some(state.buf[0]))
            &&& state.polled(waker).buf.len() == state.buf.len() - 1
            &&& forall|i: int|
                0 <= i < state.buf.len() - 1 ==> #[trigger] state.polled(waker).buf[i]
                    == state.buf[i + 1]
            &&& state.polled(waker).rx == state.rx
        },
        state.buf.len() == 0 ==> {
            &&& state.received() == (if state.ends < 2 {
                Poll::Ready(None::<T>)
            } else {
                Poll::Pending
            })
            &&& state.polled(waker).buf.len() == 0
            &&& state.polled(waker).rx == (if state.ends < 2 {
                None
            } else {
                Some(waker)
            })
        },
        state.polled(waker).ends == state.ends,
        state.polled(waker).tx == state.tx,
        state.polled(waker).capacity == state.capacity,
{
}

/// A new channel is empty, has both its ends, and has the capacity that it was set up with. An end
/// that is dropped leaves what the channel holds, and how much it can hold, as it was, as long as
/// the other end is there. The task of the other end is no longer registered.
pub proof fn law_ends_go_one_by_one<T>(state: State<T>, capacity: int)
    requires
        1 <= state.ends <= 2,
    ensures
        State::<T>::open(capacity).ends == 2,
        State::<T>::open(capacity).buf.len() == 0,
        State::<T>::open(capacity).capacity == capacity,
        State::<T>::open(capacity).tx is None,
        State::<T>::open(capacity).rx is None,
        state.sender_dropped().ends == state.ends - 1,
        state.receiver_dropped().ends == state.ends - 1,
        state.ends == 2 ==> {
            &&& state.sender_dropped().buf == state.buf
            &&& state.sender_dropped().capacity == state.capacity
            &&& state.sender_dropped().tx == state.tx
            &&& state.receiver_dropped().buf == state.buf
            &&& state.receiver_dropped().capacity == state.capacity
            &&& state.receiver_dropped().rx == state.rx
        },
        state.sender_dropped().rx is None,
        state.receiver_dropped().tx is None,
        state.ends == 1 ==> {
            &&& state.sender_dropped().buf.len() == 0
            &&& state.receiver_dropped().buf.len() == 0
        },
{
}

} // verus!
