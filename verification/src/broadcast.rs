//! An unsynchronized broadcast channel with guaranteed delivery.
//!
//! The [`Sender`] and the [`Receiver`]s communicate through a [`Channel`], which
//! holds the state that they share.
use crate::broad_rc::{BroadRc, BroadWeak, Inner};
use crate::registry::{
    slab_get_mut, slab_insert, slab_iter, slab_len, slab_new, slab_try_remove,
};
use crate::task::{register, wake_and_clear, wake_by_ref, Poll};
use slab::Slab;
use std::collections::VecDeque;
use std::task::Waker;
use vstd::prelude::*;

verus! {

/// Error raised when trying to [`Sender::try_send`] but the subscribers either do
/// not have the necessary capacity or there are no subscribers.
///
/// The error includes the number of receivers that the value was delivered to.
#[derive(Debug, Clone, Copy, PartialEq, Eq, PartialOrd, Ord)]
pub struct UnderCapacity(pub usize);

impl UnderCapacity {
    /// A description of the error.
    pub fn message(&self) -> (message: &'static str)
        ensures
            message@ == "subscribers are under capacity"@,
    {
        "subscribers are under capacity"
    }
}

/// What the channel keeps for one subscriber.
pub struct Subscriber<T> {
    /// The key by which the subscriber is known.
    pub key: usize,
    /// The last message that was sent to the subscriber.
    pub id: u64,
    /// The task to wake once receiving is available.
    pub waker: Option<Waker>,
    /// The messages that have not been received, oldest first.
    pub buf: Seq<T>,
    /// How many messages are held for the subscriber, or `None` if any number is.
    pub capacity: Option<usize>,
}

impl<T> Subscriber<T> {
    /// Whether there is no room for another message.
    pub open spec fn at_capacity(self) -> bool {
        match self.capacity {
            Some(capacity) => self.buf.len() == capacity,
            None => false,
        }
    }

    pub open spec fn inv(self) -> bool {
        match self.capacity {
            Some(capacity) => self.buf.len() <= capacity,
            None => true,
        }
    }
}

/// The contents of a channel.
pub struct State<T> {
    /// Whether the sender has not been dropped.
    pub open: bool,
    /// The current message identifier.
    pub id: u64,
    /// The task to wake once sending is available.
    pub sender: Option<Waker>,
    /// The subscribers, in the order of their keys.
    pub subscribers: Seq<Subscriber<T>>,
    /// Per-subscriber capacity, or `None` if it is unbounded.
    pub capacity: Option<usize>,
}

/// The wakers of `subscribers`, in their order.
pub open spec fn all_wakers<T>(subscribers: Seq<Subscriber<T>>) -> Seq<Waker>
    decreases subscribers.len(),
{
    if subscribers.len() == 0 {
        Seq::empty()
    } else {
        all_wakers(subscribers.drop_last()) + crate::task::pending_wake(subscribers.last().waker)
    }
}

/// The place of a new subscriber among `subscribers`, which are in the order of their keys.
pub open spec fn rank<T>(subscribers: Seq<Subscriber<T>>, key: usize) -> int
    decreases subscribers.len(),
{
    if subscribers.len() == 0 || subscribers.last().key < key {
        subscribers.len() as int
    } else {
        rank(subscribers.drop_last(), key)
    }
}

/// The identifier of the message after the one with identifier `id`.
pub open spec fn next_id(id: u64) -> u64 {
    if id == u64::MAX {
        1
    } else {
        (id + 1) as u64
    }
}

impl<T> State<T> {
    /// A channel that nobody has subscribed to yet.
    pub open spec fn new(capacity: Option<usize>) -> Self {
        State { open: true, id: 0, sender: None, subscribers: Seq::empty(), capacity }
    }

    /// A channel all ends of which have been dropped.
    pub open spec fn gone() -> Self {
        State { open: false, id: 0, sender: None, subscribers: Seq::empty(), capacity: None }
    }

    /// Subscribers are in the order of their keys, there are no more of them than can be counted,
    /// and none of them is held more messages for than the capacity of the channel.
    pub open spec fn inv(self) -> bool {
        &&& forall|i: int, j: int|
            0 <= i < j < self.subscribers.len() ==> (#[trigger] self.subscribers[i]).key < (
            #[trigger] self.subscribers[j]).key
        &&& forall|i: int|
            0 <= i < self.subscribers.len() ==> (#[trigger] self.subscribers[i]).inv()
                && self.subscribers[i].capacity == self.capacity
        &&& self.capacity matches Some(capacity) ==> capacity > 0
        &&& self.subscribers.len() <= usize::MAX
        &&& !self.open && self.subscribers.len() == 0 ==> self == Self::gone()
    }

    /// Whether `key` is the key of a subscriber.
    pub open spec fn has(self, key: usize) -> bool {
        exists|i: int| 0 <= i < self.subscribers.len() && (#[trigger] self.subscribers[i]).key == key
    }

    /// The place of the subscriber with the given key.
    pub open spec fn place(self, key: usize) -> int {
        choose|i: int| 0 <= i < self.subscribers.len() && (#[trigger] self.subscribers[i]).key == key
    }

    /// What is kept for the subscriber with the given key.
    pub open spec fn subscriber(self, key: usize) -> Subscriber<T> {
        self.subscribers[self.place(key)]
    }

    /// Whether every subscriber has room for a message.
    pub open spec fn has_room(self) -> bool {
        forall|i: int|
            0 <= i < self.subscribers.len() ==> !(#[trigger] self.subscribers[i]).at_capacity()
    }

    /// Whether sending the message with the current identifier has to wait for a subscriber.
    pub open spec fn is_blocked(self) -> bool {
        exists|i: int|
            0 <= i < self.subscribers.len() && blocks(#[trigger] self.subscribers[i], self.id)
    }

    /// The channel with the next message identifier.
    pub open spec fn bumped(self) -> Self {
        State { id: next_id(self.id), ..self }
    }

    /// The channel with a new subscriber, which is sent the messages after the current one.
    pub open spec fn subscribed(self, key: usize) -> Self {
        let subscriber = Subscriber {
            key,
            id: self.id,
            waker: None,
            buf: Seq::empty(),
            capacity: self.capacity,
        };
        State {
            subscribers: self.subscribers.insert(rank(self.subscribers, key), subscriber),
            ..self
        }
    }

    /// The channel without the subscriber with the given key.
    pub open spec fn unsubscribed(self, key: usize) -> Self {
        let subscribers = self.subscribers.remove(self.place(key));
        if !self.open && subscribers.len() == 0 {
            Self::gone()
        } else {
            State { subscribers, sender: None, ..self }
        }
    }

    /// The channel after the sender has been dropped.
    pub open spec fn sender_dropped(self) -> Self {
        if self.subscribers.len() == 0 {
            Self::gone()
        } else {
            State {
                open: false,
                subscribers: self.subscribers.map_values(
                    |subscriber: Subscriber<T>| Subscriber { waker: None, ..subscriber },
                ),
                ..self
            }
        }
    }

    /// What the subscriber in place `i` gets from the channel.
    pub open spec fn received(self, i: int) -> Poll<Option<T>> {
        let buf = self.subscribers[i].buf;
        if buf.len() > 0 {
            Poll::Ready(Some(buf[0]))
        } else if !self.open {
            Poll::Ready(None)
        } else {
            Poll::Pending
        }
    }

    /// The channel after the subscriber in place `i` has been polled by the task of `waker`.
    pub open spec fn polled(self, i: int, waker: Waker) -> Self {
        let subscriber = self.subscribers[i];
        let after = if subscriber.buf.len() > 0 {
            Subscriber { buf: subscriber.buf.drop_first(), ..subscriber }
        } else if !self.open {
            Subscriber { waker: None, ..subscriber }
        } else {
            Subscriber { waker: Some(waker), ..subscriber }
        };
        State { subscribers: self.subscribers.update(i, after), ..self }
    }
}

/// `after` is `before` with one more message, a clone of `value`.
pub open spec fn appended<T: Clone>(before: Seq<T>, after: Seq<T>, value: T) -> bool {
    &&& after.len() == before.len() + 1
    &&& after.drop_last() == before
    &&& cloned(value, after.last())
}

/// What [`Sender::try_send`] does to one subscriber: the message is appended if there is room for
/// it.
pub open spec fn offered<T: Clone>(
    before: Subscriber<T>,
    after: Subscriber<T>,
    value: T,
) -> bool {
    &&& after == Subscriber { buf: after.buf, ..before }
    &&& if before.at_capacity() {
        after.buf == before.buf
    } else {
        appended(before.buf, after.buf, value)
    }
}

/// The number of subscribers that have room for a message.
pub open spec fn room_count<T>(subscribers: Seq<Subscriber<T>>) -> int
    decreases subscribers.len(),
{
    if subscribers.len() == 0 {
        0
    } else {
        room_count(subscribers.drop_last()) + if subscribers.last().at_capacity() {
            0int
        } else {
            1
        }
    }
}

/// The wakers of the subscribers that have room for a message, in their order.
pub open spec fn room_wakers<T>(subscribers: Seq<Subscriber<T>>) -> Seq<Waker>
    decreases subscribers.len(),
{
    if subscribers.len() == 0 {
        Seq::empty()
    } else {
        room_wakers(subscribers.drop_last()) + if subscribers.last().at_capacity() {
            Seq::empty()
        } else {
            crate::task::pending_wake(subscribers.last().waker)
        }
    }
}

/// Whether the message with identifier `id` is appended to what is held for `subscriber` when it
/// is sent: it has not been before, and there is room for it.
pub open spec fn takes<T>(subscriber: Subscriber<T>, id: u64) -> bool {
    subscriber.id != id && !subscriber.at_capacity()
}

/// Whether sending the message with identifier `id` has to wait for `subscriber` to make room.
pub open spec fn blocks<T>(subscriber: Subscriber<T>, id: u64) -> bool {
    subscriber.id != id && subscriber.at_capacity()
}

/// What sending the message with identifier `id` does to one subscriber.
pub open spec fn posted<T: Clone>(
    before: Subscriber<T>,
    after: Subscriber<T>,
    id: u64,
    value: T,
) -> bool {
    if takes(before, id) {
        &&& after == Subscriber { buf: after.buf, id, ..before }
        &&& appended(before.buf, after.buf, value)
    } else {
        after == before
    }
}

/// The wakers of the subscribers that take the message with identifier `id`, in their order.
pub open spec fn post_wakers<T>(subscribers: Seq<Subscriber<T>>, id: u64) -> Seq<Waker>
    decreases subscribers.len(),
{
    if subscribers.len() == 0 {
        Seq::empty()
    } else {
        post_wakers(subscribers.drop_last(), id) + if takes(subscribers.last(), id) {
            crate::task::pending_wake(subscribers.last().waker)
        } else {
            Seq::empty()
        }
    }
}

/// What the channel keeps for one subscriber, but for the last message that was
/// sent to it, which is kept under its key.
struct ReceiverState<T> {
    /// The key of the subscriber.
    key: usize,
    /// Waker to wake once receiving is available.
    waker: Option<Waker>,
    /// The messages that have not been received.
    buf: VecDeque<T>,
    /// How many messages are held at most, unless the receiver is unbounded.
    capacity: usize,
    /// If the received is unbounded.
    unbounded: bool,
}

impl<T> ReceiverState<T> {
    spec fn subscriber(self, id: u64) -> Subscriber<T> {
        Subscriber {
            key: self.key,
            id,
            waker: self.waker,
            buf: self.buf@,
            capacity: if self.unbounded {
                None
            } else {
                Some(self.capacity)
            },
        }
    }

    /// Test if the current receiver is at capacity.
    fn at_capacity(&self) -> (full: bool)
        ensures
            full == self.subscriber(0).at_capacity(),
    {
        !self.unbounded && self.capacity == self.buf.len()
    }
}

/// Interior shared state.
struct Shared<T> {
    /// The current message identifier.
    id: u64,
    /// Waker to wake once sending is available.
    sender: Option<Waker>,
    /// The last message that was sent to each receiver.
    ids: Slab<u64>,
    /// Collection of receivers, in the order of their keys.
    receivers: Vec<ReceiverState<T>>,
    /// Per-subscriber capacity to use.
    capacity: Option<usize>,
}

/// The keys of `receivers`.
spec fn keys<T>(receivers: Seq<ReceiverState<T>>) -> Seq<usize> {
    Seq::new(receivers.len(), |i: int| receivers[i].key)
}

/// What is kept for `receivers`, with the last messages that were sent to them.
spec fn listed<T>(
    receivers: Seq<ReceiverState<T>>,
    items: Map<usize, u64>,
) -> Seq<Subscriber<T>> {
    Seq::new(receivers.len(), |i: int| receivers[i].subscriber(items[receivers[i].key]))
}

spec fn sorted(keys: Seq<usize>) -> bool {
    forall|i: int, j: int| 0 <= i < j < keys.len() ==> keys[i] < keys[j]
}

impl<T> Shared<T> {
    spec fn items(self) -> Map<usize, u64> {
        crate::registry::slab_items(self.ids)
    }

    /// The receiver in place `i`.
    spec fn subscriber(self, i: int) -> Subscriber<T> {
        self.subscribers()[i]
    }

    spec fn subscribers(self) -> Seq<Subscriber<T>> {
        listed(self.receivers@, self.items())
    }

    /// The contents of a channel with this state.
    spec fn state(self, open: bool) -> State<T> {
        State {
            open,
            id: self.id,
            sender: self.sender,
            subscribers: self.subscribers(),
            capacity: self.capacity,
        }
    }

    /// The receivers are those that the slab has keys for, in the order of the keys.
    spec fn wf(self) -> bool {
        &&& sorted(keys(self.receivers@))
        &&& self.items().dom() == keys(self.receivers@).to_set()
    }

    /// The entries of the slab, which are those of the receivers, in their order.
    fn entries(&self) -> (entries: Vec<(usize, u64)>)
        requires
            self.wf(),
        ensures
            entries@.len() == self.receivers@.len(),
            forall|i: int|
                0 <= i < entries@.len() ==> (#[trigger] entries@[i]).0 == self.receivers@[i].key
                    && entries@[i].1 == self.subscriber(i).id,
    {
        let entries = slab_iter(&self.ids);
        proof {
            let found = Seq::new(entries@.len(), |i: int| entries@[i].0);
            let known = keys(self.receivers@);
            assert forall|key: usize| found.contains(key) <==> #[trigger] known.contains(key) by {
                if found.contains(key) {
                    let i = found.index_of(key);
                    assert(self.items().contains_pair(entries@[i].0, entries@[i].1));
                    assert(self.items().dom().contains(key));
                }
                if known.contains(key) {
                    assert(self.items().dom().contains(key));
                    assert(self.items().contains_key(key));
                    let i = choose|i: int|
                        0 <= i < entries@.len() && (#[trigger] entries@[i]).0 == key;
                    assert(found[i] == key);
                }
            }
            lemma_sorted_unique(found, known);
            assert forall|i: int| 0 <= i < entries@.len() implies (#[trigger] entries@[i]).0
                == self.receivers@[i].key && entries@[i].1 == self.subscriber(i).id by {
                assert(found[i] == known[i]);
                assert(self.items().contains_pair(entries@[i].0, entries@[i].1));
            }
        }
        entries
    }
}

impl<T> Shared<T> {
    /// Bump the current message ID.
    fn bump_message_id(&mut self)
        ensures
            *final(self) == (Shared { id: next_id(old(self).id), ..*old(self) }),
    {
        // Increase the ID of messages to send.
        self.id = self.id.wrapping_add(1);
        // Avoid 0, since that is what receivers are initialized to.
        if self.id == 0 {
            self.id = 1;
        }
    }

    /// The number of receivers.
    fn len(&self) -> (len: usize)
        requires
            self.wf(),
        ensures
            len == self.receivers@.len(),
    {
        proof {
            keys(self.receivers@).unique_seq_to_set();
        }
        slab_len(&self.ids)
    }

    /// The place of the receiver with the given key.
    fn position(&self, key: usize) -> (place: Option<usize>)
        ensures
            match place {
                Some(i) => i < self.receivers@.len() && self.receivers@[i as int].key == key,
                None => forall|i: int|
                    0 <= i < self.receivers@.len() ==> (#[trigger] self.receivers@[i]).key != key,
            },
    {
        let mut i: usize = 0;
        while i < self.receivers.len()
            invariant
                i <= self.receivers@.len(),
                forall|j: int| 0 <= j < i ==> (#[trigger] self.receivers@[j]).key != key,
            decreases self.receivers@.len() - i,
        {
            if self.receivers[i].key == key {
                return Some(i);
            }
            i += 1;
        }
        None
    }

    /// Construct a new receiver and return its key.
    fn new_receiver(&mut self) -> (key: usize)
        requires
            old(self).wf(),
            old(self).receivers@.len() * 64 < isize::MAX,
        ensures
            final(self).wf(),
            forall|i: int|
                0 <= i < old(self).receivers@.len() ==> (#[trigger] old(self).receivers@[i]).key
                    != key,
            final(self).id == old(self).id,
            final(self).sender == old(self).sender,
            final(self).capacity == old(self).capacity,
            final(self).subscribers() == old(self).subscribers().insert(
                rank(old(self).subscribers(), key),
                Subscriber {
                    key,
                    id: old(self).id,
                    waker: None,
                    buf: Seq::empty(),
                    capacity: old(self).capacity,
                },
            ),
            0 <= rank(old(self).subscribers(), key) <= old(self).subscribers().len(),
    {
        let (capacity, unbounded) = match self.capacity {
            Some(capacity) => (capacity, false),
            None => (0, true),
        };
        let ghost before = *self;
        let ghost known = keys(self.receivers@);
        proof {
            known.unique_seq_to_set();
        }
        let key = slab_insert(&mut self.ids, self.id);
        proof {
            assert forall|i: int| 0 <= i < before.receivers@.len() implies (
            #[trigger] before.receivers@[i]).key != key by {
                assert(known[i] == before.receivers@[i].key);
                assert(before.items().dom().contains(known[i]));
            }
        }
        let mut place: usize = self.receivers.len();
        proof {
            assert(before.subscribers().take(place as int) =~= before.subscribers());
        }
        while place > 0 && self.receivers[place - 1].key > key
            invariant
                place <= self.receivers@.len(),
                self.receivers == before.receivers,
                forall|i: int|
                    0 <= i < before.receivers@.len() ==> (#[trigger] before.receivers@[i]).key
                        != key,
                forall|i: int|
                    place <= i < before.receivers@.len() ==> (#[trigger] before.receivers@[i]).key
                        > key,
                rank(before.subscribers(), key) == rank(
                    before.subscribers().take(place as int),
                    key,
                ),
            decreases place,
        {
            proof {
                let front = before.subscribers().take(place as int);
                assert(front.drop_last() =~= before.subscribers().take(place - 1));
                assert(front.last().key == before.receivers@[place - 1].key);
            }
            place -= 1;
        }
        proof {
            let front = before.subscribers().take(place as int);
            if place > 0 {
                assert(front.last().key == before.receivers@[place - 1].key);
            }
            assert(rank(front, key) == place);
        }
        self.receivers.insert(
            place,
            ReceiverState { key, waker: None, buf: VecDeque::new(), capacity, unbounded },
        );
        proof {
            let p = place as int;
            assert forall|i: int| 0 <= i < p implies #[trigger] known[i] < key by {
                if i < p - 1 {
                    assert(known[i] < known[p - 1]);
                }
                assert(before.receivers@[p - 1].key != key);
            }
            assert forall|i: int| p <= i < known.len() implies #[trigger] known[i] > key by {
                assert(before.receivers@[i].key > key);
            }
            lemma_insert_key(known, p, key);
            assert(keys(self.receivers@) =~= known.insert(p, key));
            assert(self.items().dom() =~= before.items().dom().insert(key));
            let subscriber = Subscriber {
                key,
                id: before.id,
                waker: None,
                buf: Seq::<T>::empty(),
                capacity: before.capacity,
            };
            assert forall|i: int| 0 <= i < self.subscribers().len() implies self.subscribers()[i]
                == before.subscribers().insert(p, subscriber)[i] by {
                if i < p {
                    assert(before.receivers@[i].key != key);
                } else if i > p {
                    assert(before.receivers@[i - 1].key != key);
                }
            }
            assert(self.subscribers() =~= before.subscribers().insert(p, subscriber));
        }
        key
    }

    /// Remove the receiver with the given key, which is in place `place`.
    fn remove(&mut self, key: usize, place: usize)
        requires
            old(self).wf(),
            place < old(self).receivers@.len(),
            old(self).receivers@[place as int].key == key,
        ensures
            final(self).wf(),
            final(self).id == old(self).id,
            final(self).sender == old(self).sender,
            final(self).capacity == old(self).capacity,
            final(self).subscribers() == old(self).subscribers().remove(place as int),
    {
        let ghost before = *self;
        let ghost known = keys(self.receivers@);
        let ghost p = place as int;
        let _ = slab_try_remove(&mut self.ids, key);
        let _ = self.receivers.remove(place);
        proof {
            assert(known[p] == key);
            lemma_remove_key(known, p);
            assert(keys(self.receivers@) =~= known.remove(p));
            assert(self.items().dom() =~= before.items().dom().remove(key));
            assert forall|i: int| 0 <= i < known.len() && i != p implies #[trigger] known[i]
                != key by {
                if i < p {
                    assert(known[i] < known[p]);
                } else {
                    assert(known[p] < known[i]);
                }
            }
            assert forall|i: int| 0 <= i < self.subscribers().len() implies self.subscribers()[i]
                == before.subscribers().remove(p)[i] by {
                let i0 = if i < p {
                    i
                } else {
                    i + 1
                };
                assert(known[i0] != key);
            }
            assert(self.subscribers() =~= before.subscribers().remove(p));
        }
    }

    /// Wake all receivers, and forget their wakers.
    fn wake_receivers(&mut self, wakes: &mut Vec<Waker>)
        requires
            old(self).wf(),
        ensures
            final(self).wf(),
            final(self).id == old(self).id,
            final(self).sender == old(self).sender,
            final(self).capacity == old(self).capacity,
            final(self).subscribers() == old(self).subscribers().map_values(
                |subscriber: Subscriber<T>| Subscriber { waker: None, ..subscriber },
            ),
            final(wakes)@ == old(wakes)@ + all_wakers(old(self).subscribers()),
    {
        let ghost before = *self;
        let ghost subscribers = self.subscribers();
        let ghost woken_before = wakes@;
        let entries = self.entries();
        let mut i: usize = 0;
        proof {
            assert(wakes@ =~= woken_before + all_wakers(subscribers.take(0)));
        }
        while i < entries.len()
            invariant
                i <= entries@.len() == before.receivers@.len() == self.receivers@.len(),
                subscribers == before.subscribers(),
                *self == (Shared { receivers: self.receivers, ..before }),
                forall|j: int|
                    0 <= j < before.receivers@.len() ==> #[trigger] self.receivers@[j] == (if j < i {
                        ReceiverState { waker: None, ..before.receivers@[j] }
                    } else {
                        before.receivers@[j]
                    }),
                wakes@ == woken_before + all_wakers(subscribers.take(i as int)),
            decreases entries@.len() - i,
        {
            let receiver = &mut self.receivers[i];
            wake_and_clear(&mut receiver.waker, wakes);
            i += 1;
            proof {
                let front = subscribers.take(i as int);
                assert(front.drop_last() =~= subscribers.take(i - 1));
                assert(front.last().waker == before.receivers@[i - 1].waker);
                assert(wakes@ =~= woken_before + all_wakers(front));
            }
        }
        proof {
            assert(subscribers.take(i as int) =~= subscribers);
            assert(keys(self.receivers@) =~= keys(before.receivers@));
            assert(self.subscribers() =~= subscribers.map_values(
                |subscriber: Subscriber<T>| Subscriber { waker: None, ..subscriber },
            ));
        }
    }

    /// Take the oldest message that is held for the receiver in place `place`, or else, if the
    /// sender is still there, make the receiver wait for one.
    fn receive(
        &mut self,
        place: usize,
        sender_present: bool,
        waker: &Waker,
        wakes: &mut Vec<Waker>,
    ) -> (result: Poll<Option<T>>)
        requires
            old(self).wf(),
            place < old(self).receivers@.len(),
        ensures
            final(self).wf(),
            final(self).receivers@.len() == old(self).receivers@.len(),
            ({
                let before = old(self).state(sender_present);
                &&& result == before.received(place as int)
                &&& final(self).state(sender_present) == before.polled(place as int, *waker)
                &&& final(wakes)@ == old(wakes)@ + (if result == Poll::Ready(None::<T>) {
                    Seq::empty()
                } else {
                    crate::task::pending_wake(before.sender)
                })
            }),
    {
        let ghost before = *self;
        let ghost p = place as int;
        let receiver = &mut self.receivers[place];
        let result = if let Some(value) = receiver.buf.pop_front() {
            // Popping freed a slot, so wake a sender waiting for room.
            wake_by_ref(&self.sender, wakes);
            Poll::Ready(Some(value))
        } else if !sender_present {
            receiver.waker = None;
            Poll::Ready(None)
        } else {
            register(&mut receiver.waker, waker);
            wake_by_ref(&self.sender, wakes);
            Poll::Pending
        };
        proof {
            if before.receivers@[p].buf@.len() > 0 {
                assert(self.receivers@[p].buf@ =~= before.receivers@[p].buf@.drop_first());
            } else {
                assert(self.receivers@[p].buf@ =~= before.receivers@[p].buf@);
            }
            assert(keys(self.receivers@) =~= keys(before.receivers@));
            assert(self.subscribers() =~= before.subscribers().update(p, self.subscriber(p)));
        }
        result
    }
}

impl<T: Clone> Shared<T> {
    /// Deliver `value` to the receivers that have room for it, and count them.
    fn offer(&mut self, value: &T, wakes: &mut Vec<Waker>) -> (delivered: usize)
        requires
            old(self).wf(),
        ensures
            final(self).wf(),
            final(self).id == old(self).id,
            final(self).sender == old(self).sender,
            final(self).capacity == old(self).capacity,
            final(self).subscribers().len() == old(self).subscribers().len(),
            forall|i: int|
                0 <= i < old(self).subscribers().len() ==> offered(
                    old(self).subscribers()[i],
                    #[trigger] final(self).subscribers()[i],
                    *value,
                ),
            delivered == room_count(old(self).subscribers()),
            final(wakes)@ == old(wakes)@ + room_wakers(old(self).subscribers()),
    {
        let ghost before = *self;
        let ghost subscribers = self.subscribers();
        let ghost woken_before = wakes@;
        let entries = self.entries();
        let mut delivered: usize = 0;
        let mut i: usize = 0;
        proof {
            assert(wakes@ =~= woken_before + room_wakers(subscribers.take(0)));
        }
        while i < entries.len()
            invariant
                i <= entries@.len() == before.receivers@.len() == self.receivers@.len(),
                subscribers == before.subscribers(),
                *self == (Shared { receivers: self.receivers, ..before }),
                forall|j: int|
                    0 <= j < i ==> (#[trigger] self.receivers@[j]).key == before.receivers@[j].key
                        && offered(subscribers[j], self.subscriber(j), *value),
                forall|j: int|
                    i <= j < before.receivers@.len() ==> #[trigger] self.receivers@[j]
                        == before.receivers@[j],
                delivered <= i,
                delivered == room_count(subscribers.take(i as int)),
                wakes@ == woken_before + room_wakers(subscribers.take(i as int)),
            decreases entries@.len() - i,
        {
            let ghost earlier = *self;
            let receiver = &mut self.receivers[i];
            // Skip a receiver whose buffer is at capacity.
            if !receiver.at_capacity() {
                delivered += 1;
                receiver.buf.push_back(value.clone());
                wake_by_ref(&receiver.waker, wakes);
            }
            i += 1;
            proof {
                let front = subscribers.take(i as int);
                assert(front.drop_last() =~= subscribers.take(i - 1));
                assert(front.last() == before.subscriber(i - 1));
                assert(before.receivers@[i - 1] == earlier.receivers@[i - 1]);
                assert(wakes@ =~= woken_before + room_wakers(front));
                if !subscribers[i - 1].at_capacity() {
                    assert(self.receivers@[i - 1].buf@.drop_last() =~= subscribers[i - 1].buf);
                }
                assert forall|j: int| 0 <= j < i implies (#[trigger] self.receivers@[j]).key
                    == before.receivers@[j].key && offered(
                    subscribers[j],
                    self.subscriber(j),
                    *value,
                ) by {
                    if j < i - 1 {
                        assert(self.receivers@[j] == earlier.receivers@[j]);
                        assert(self.subscriber(j) == earlier.subscriber(j));
                    }
                }
            }
        }
        proof {
            assert(subscribers.take(i as int) =~= subscribers);
            assert(keys(self.receivers@) =~= keys(before.receivers@));
            assert forall|j: int| 0 <= j < subscribers.len() implies offered(
                subscribers[j],
                #[trigger] self.subscribers()[j],
                *value,
            ) by {
                assert(self.receivers@[j].key == before.receivers@[j].key);
            }
        }
        delivered
    }

    /// Deliver `value`, the message with the current identifier, to the receivers that do not
    /// hold it already and have room for it. Count those that it has been delivered to so far.
    fn post(&mut self, value: &T, wakes: &mut Vec<Waker>) -> (delivered: usize)
        requires
            old(self).wf(),
        ensures
            final(self).wf(),
            final(self).id == old(self).id,
            final(self).sender == old(self).sender,
            final(self).capacity == old(self).capacity,
            final(self).subscribers().len() == old(self).subscribers().len(),
            forall|i: int|
                0 <= i < old(self).subscribers().len() ==> posted(
                    old(self).subscribers()[i],
                    #[trigger] final(self).subscribers()[i],
                    old(self).id,
                    *value,
                ),
            delivered <= old(self).subscribers().len(),
            delivered == old(self).subscribers().len() <==> forall|i: int|
                0 <= i < old(self).subscribers().len() ==> !blocks(
                    #[trigger] old(self).subscribers()[i],
                    old(self).id,
                ),
            final(wakes)@ == old(wakes)@ + post_wakers(old(self).subscribers(), old(self).id),
    {
        let ghost before = *self;
        let ghost subscribers = self.subscribers();
        let ghost woken_before = wakes@;
        let ghost id = self.id;
        let entries = self.entries();
        let mut delivered: usize = 0;
        let mut i: usize = 0;
        proof {
            assert(wakes@ =~= woken_before + post_wakers(subscribers.take(0), id));
        }
        while i < entries.len()
            invariant
                i <= entries@.len() == before.receivers@.len() == self.receivers@.len(),
                before.wf(),
                id == before.id,
                subscribers == before.subscribers(),
                *self == (Shared { receivers: self.receivers, ids: self.ids, ..before }),
                self.items().dom() == before.items().dom(),
                forall|j: int|
                    0 <= j < entries@.len() ==> (#[trigger] entries@[j]).0
                        == before.receivers@[j].key && entries@[j].1 == subscribers[j].id,
                forall|j: int|
                    0 <= j < i ==> (#[trigger] self.receivers@[j]).key == before.receivers@[j].key
                        && posted(subscribers[j], self.subscriber(j), id, *value),
                forall|j: int|
                    i <= j < before.receivers@.len() ==> #[trigger] self.receivers@[j]
                        == before.receivers@[j] && self.subscriber(j) == subscribers[j],
                delivered <= i,
                delivered == i <==> forall|j: int|
                    0 <= j < i ==> !blocks(#[trigger] subscribers[j], id),
                wakes@ == woken_before + post_wakers(subscribers.take(i as int), id),
            decreases entries@.len() - i,
        {
            let ghost earlier = *self;
            let (key, received) = entries[i];
            let receiver = &mut self.receivers[i];
            if received == self.id {
                // Already holds this message.
                delivered += 1;
            } else if !receiver.at_capacity() {
                receiver.buf.push_back(value.clone());
                wake_by_ref(&receiver.waker, wakes);
                if let Some(received) = slab_get_mut(&mut self.ids, key) {
                    *received = self.id;
                }
                delivered += 1;
            }
            i += 1;
            proof {
                let front = subscribers.take(i as int);
                let known = keys(before.receivers@);
                assert(front.drop_last() =~= subscribers.take(i - 1));
                assert(front.last() == subscribers[i - 1]);
                assert(subscribers[i - 1] == earlier.subscriber(i - 1));
                assert(earlier.receivers@[i - 1] == before.receivers@[i - 1]);
                assert(known[i - 1] == key);
                assert(known.contains(key));
                assert(earlier.items().contains_key(key));
                assert(wakes@ =~= woken_before + post_wakers(front, id));
                if takes(subscribers[i - 1], id) {
                    assert(self.receivers@[i - 1].buf@.drop_last() =~= subscribers[i - 1].buf);
                }
                assert(self.items().dom() =~= before.items().dom());
                assert forall|j: int| 0 <= j < known.len() && j != i - 1 implies
                    #[trigger] self.subscriber(j) == earlier.subscriber(j) by {
                    assert(known[j] != key) by {
                        if j < i - 1 {
                            assert(known[j] < known[i - 1]);
                        } else {
                            assert(known[i - 1] < known[j]);
                        }
                    }
                    assert(self.receivers@[j] == earlier.receivers@[j]);
                    assert(earlier.receivers@[j].key == known[j]);
                }
                assert forall|j: int| 0 <= j < i implies (#[trigger] self.receivers@[j]).key
                    == before.receivers@[j].key && posted(
                    subscribers[j],
                    self.subscriber(j),
                    id,
                    *value,
                ) by {
                    if j < i - 1 {
                        assert(self.receivers@[j] == earlier.receivers@[j]);
                        assert(self.subscriber(j) == earlier.subscriber(j));
                    }
                }
                assert forall|j: int| i <= j < before.receivers@.len() implies
                    #[trigger] self.receivers@[j] == before.receivers@[j] && self.subscriber(j)
                    == subscribers[j] by {
                    assert(self.receivers@[j] == earlier.receivers@[j]);
                    assert(self.subscriber(j) == earlier.subscriber(j));
                }
            }
        }
        proof {
            assert(subscribers.take(i as int) =~= subscribers);
            assert(keys(self.receivers@) =~= keys(before.receivers@));
            assert forall|j: int| 0 <= j < subscribers.len() implies posted(
                subscribers[j],
                #[trigger] self.subscribers()[j],
                id,
                *value,
            ) by {
                assert(self.receivers@[j].key == before.receivers@[j].key);
            }
        }
        delivered
    }
}

/// The state that the ends of a channel share.
pub struct Channel<T> {
    inner: Inner<Shared<T>>,
}

impl<T> View for Channel<T> {
    type V = State<T>;

    closed spec fn view(&self) -> State<T> {
        match self.inner.value() {
            Some(shared) => shared.state(self.inner.strong() > 0),
            None => State::gone(),
        }
    }
}

impl<T> Channel<T> {
    /// The state is there as long as one of the ends is, and there is a receiver for each
    /// subscriber.
    pub closed spec fn allocated(&self) -> bool {
        &&& self.inner.wf()
        &&& self.inner.value() matches Some(shared) ==> {
            &&& shared.wf()
            &&& self.inner.weak() == shared.receivers@.len()
        }
    }

    pub open spec fn wf(&self) -> bool {
        self.allocated() && self@.inv()
    }
}

/// What [`Sender::try_send`] does to a channel: it takes the next message identifier, and appends
/// the message to what is held for each subscriber that has room for it.
pub open spec fn tried<T: Clone>(before: State<T>, after: State<T>, value: T) -> bool {
    &&& after == State { subscribers: after.subscribers, ..before.bumped() }
    &&& after.subscribers.len() == before.subscribers.len()
    &&& forall|i: int|
        0 <= i < before.subscribers.len() ==> offered(
            before.subscribers[i],
            #[trigger] after.subscribers[i],
            value,
        )
}

/// What polling a [`Send`] by the task of `waker` does to a channel that has subscribers: it
/// registers the task, and appends the message to what is held for each subscriber that it has
/// not been appended for yet and that has room for it.
pub open spec fn sent<T: Clone>(
    before: State<T>,
    after: State<T>,
    waker: Waker,
    value: T,
) -> bool {
    &&& after == State {
        sender: Some(waker),
        subscribers: after.subscribers,
        ..before
    }
    &&& after.subscribers.len() == before.subscribers.len()
    &&& forall|i: int|
        0 <= i < before.subscribers.len() ==> posted(
            before.subscribers[i],
            #[trigger] after.subscribers[i],
            before.id,
            value,
        )
}

/// Sender end of the channel created through [`channel`].
pub struct Sender<T> {
    inner: BroadRc<Shared<T>>,
}

impl<T: Clone> Sender<T> {
    /// Subscribe to the broadcast channel.
    ///
    /// This will set up a new buffer for the returned [`Receiver`] which holds the number of
    /// elements specified when the channel was created with [`channel`].
    ///
    /// The returned [`Receiver`] is guaranteed to receive all updates to the current broadcast
    /// channel, even to the extent that sending to other receivers will be blocked. Note that
    /// this means that *slow receivers* are capable of hogging down the entire broadcast system
    /// since they must be delivered to (or dropped) in order for the system to make progress.
    pub fn subscribe(&mut self, channel: &mut Channel<T>) -> (receiver: Receiver<T>)
        requires
            old(channel).wf(),
            old(channel)@.open,
            old(channel)@.subscribers.len() * 64 < isize::MAX,
        ensures
            *final(self) == *old(self),
            final(channel).wf(),
            !old(channel)@.has(receiver@),
            final(channel)@ == old(channel)@.subscribed(receiver@),
    {
        let ghost before = channel@;
        let (shared, _) = self.inner.get_mut_unchecked(&mut channel.inner);
        let index = shared.new_receiver();
        proof {
            assert forall|i: int| 0 <= i < before.subscribers.len() implies (
            #[trigger] before.subscribers[i]).key != index by {
                assert(old(channel).inner.value()->0.receivers@[i].key != index);
            }
            law_subscribe_keeps_inv(before, index);
        }
        let inner = self.inner.weak(&mut channel.inner);
        Receiver { index, inner }
    }

    /// Get a count on the number of subscribers.
    pub fn subscribers(&self, channel: &mut Channel<T>) -> (count: usize)
        requires
            old(channel).wf(),
            old(channel)@.open,
        ensures
            final(channel).wf(),
            final(channel)@ == old(channel)@,
            count == old(channel)@.subscribers.len(),
    {
        let (shared, _) = self.inner.get_mut_unchecked(&mut channel.inner);
        shared.len()
    }

    /// Try to send a value to all subscribers in a non-blocking manner.
    ///
    /// This errors with [`UnderCapacity`] unless there are subscribers, and all of them have the
    /// capacity to receive the value.
    ///
    /// On an error, the subscribers that did have the capacity to receive the message will receive
    /// it.
    pub fn try_send(&mut self, channel: &mut Channel<T>, value: T, wakes: &mut Vec<Waker>) -> (result:
        Result<usize, UnderCapacity>)
        requires
            old(channel).wf(),
            old(channel)@.open,
        ensures
            *final(self) == *old(self),
            final(channel).wf(),
            tried(old(channel)@, final(channel)@, value),
            result is Ok <==> old(channel)@.subscribers.len() > 0 && old(channel)@.has_room(),
            match result {
                Ok(count) => count == old(channel)@.subscribers.len(),
                Err(UnderCapacity(count)) => count == room_count(old(channel)@.subscribers),
            },
            final(wakes)@ == old(wakes)@ + room_wakers(old(channel)@.subscribers),
    {
        let ghost before = channel@;
        let (shared, any_receivers_present) = self.inner.get_mut_unchecked(&mut channel.inner);
        shared.bump_message_id();
        proof {
            lemma_room_count(before.subscribers);
        }
        if !any_receivers_present {
            return Err(UnderCapacity(0));
        }
        let delivered = shared.offer(&value, wakes);
        let len = shared.len();
        proof {
            law_try_send_keeps_inv(before, shared.state(true), value);
        }
        if delivered == len {
            return Ok(delivered);
        }
        Err(UnderCapacity(delivered))
    }

    /// Send a message to every subscriber, returning the number it reached.
    ///
    /// This completes once the value has been buffered for each subscriber. If a subscriber's
    /// buffer is full it waits until that subscriber receives a value and frees a slot.
    ///
    /// Note that *not driving the returned future to completion* might result in some receivers
    /// not receiving the most up-to-date value.
    pub fn send(&mut self, value: T) -> (send: Send<'_, T>)
        ensures
            *final(self) == *old(self),
            send.value() == value,
            !send.started(),
    {
        Send { inner: &self.inner, value, started: false }
    }

    /// Drop the sender, waking all receivers.
    pub fn close(self, channel: &mut Channel<T>, wakes: &mut Vec<Waker>)
        requires
            old(channel).wf(),
            old(channel)@.open,
        ensures
            final(channel).wf(),
            final(channel)@ == old(channel)@.sender_dropped(),
            final(wakes)@ == old(wakes)@ + all_wakers(old(channel)@.subscribers),
    {
        proof {
            law_dropping_sender_keeps_inv(channel@);
        }
        let (shared, _) = self.inner.get_mut_unchecked(&mut channel.inner);
        shared.wake_receivers(wakes);
        self.inner.release(&mut channel.inner);
    }
}

/// Future produced by [`Sender::send`].
pub struct Send<'a, T> {
    inner: &'a BroadRc<Shared<T>>,
    value: T,
    started: bool,
}

impl<'a, T> Send<'a, T> {
    /// The message being sent.
    pub closed spec fn value(&self) -> T {
        self.value
    }

    /// Whether the future has been polled, and so the message has its identifier.
    pub closed spec fn started(&self) -> bool {
        self.started
    }
}

impl<'a, T: Clone> Send<'a, T> {
    /// Poll the future with the waker of the current task.
    ///
    /// It completes once the message has been buffered for each subscriber.
    pub fn poll(&mut self, channel: &mut Channel<T>, waker: &Waker, wakes: &mut Vec<Waker>) -> (result:
        Poll<usize>)
        requires
            old(channel).wf(),
            old(channel)@.open,
        ensures
            final(self).started(),
            final(self).value() == old(self).value(),
            final(channel).wf(),
            ({
                let before = if old(self).started() {
                    old(channel)@
                } else {
                    old(channel)@.bumped()
                };
                &&& final(wakes)@ == old(wakes)@ + post_wakers(before.subscribers, before.id)
                &&& if before.subscribers.len() == 0 {
                    &&& final(channel)@ == before
                    &&& result == Poll::Ready(0usize)
                } else {
                    &&& sent(before, final(channel)@, *waker, old(self).value())
                    &&& result is Pending <==> before.is_blocked()
                    &&& result matches Poll::Ready(count) ==> count == before.subscribers.len()
                }
            }),
    {
        let (shared, any_receivers_present) = self.inner.get_mut_unchecked(&mut channel.inner);
        if !self.started {
            shared.bump_message_id();
            self.started = true;
        }
        let ghost before = shared.state(true);
        if !any_receivers_present {
            return Poll::Ready(0);
        }
        register(&mut shared.sender, waker);
        let delivered = shared.post(&self.value, wakes);
        let len = shared.len();
        proof {
            law_send_keeps_inv(before, shared.state(true), *waker, self.value);
        }
        if delivered == len {
            return Poll::Ready(delivered);
        }
        Poll::Pending
    }
}

/// Receiver end of the channel created through [`channel`].
pub struct Receiver<T> {
    index: usize,
    inner: BroadWeak<Shared<T>>,
}

impl<T> View for Receiver<T> {
    type V = usize;

    /// The key of the subscriber.
    closed spec fn view(&self) -> usize {
        self.index
    }
}

impl<T> Receiver<T> {
    /// Receive a message on the channel.
    ///
    /// Trying to receive a message on a queue that has been closed by dropping its [`Sender`] will
    /// result in `None` being returned.
    pub fn recv(&mut self) -> (recv: Recv<'_, T>)
        ensures
            *final(self) == *old(self),
            recv@ == old(self)@,
    {
        Recv { index: self.index, inner: &self.inner }
    }

    /// Drop the receiver, waking the sender.
    pub fn close(self, channel: &mut Channel<T>, wakes: &mut Vec<Waker>)
        requires
            old(channel).wf(),
            old(channel)@.has(self@),
        ensures
            final(channel).wf(),
            final(channel)@ == old(channel)@.unsubscribed(self@),
            final(wakes)@ == old(wakes)@ + crate::task::pending_wake(old(channel)@.sender),
    {
        let ghost before = channel@;
        let (shared, _) = self.inner.get_mut_unchecked(&mut channel.inner);
        let position = shared.position(self.index);
        if let Some(place) = position {
            proof {
                lemma_place(before, place as int);
                law_dropping_receiver_keeps_inv(before, self@);
            }
            shared.remove(self.index, place);
        } else {
            proof {
                let i = before.place(self@);
                assert(shared.receivers@[i].key == before.subscribers[i].key);
            }
        }
        wake_and_clear(&mut shared.sender, wakes);
        self.inner.release(&mut channel.inner);
    }
}

/// Future associated with receiving through [`Receiver::recv`].
pub struct Recv<'a, T> {
    index: usize,
    inner: &'a BroadWeak<Shared<T>>,
}

impl<'a, T> View for Recv<'a, T> {
    type V = usize;

    /// The key of the subscriber.
    closed spec fn view(&self) -> usize {
        self.index
    }
}

impl<'a, T> Recv<'a, T> {
    /// Poll the future with the waker of the current task.
    ///
    /// It completes with the oldest message that is held for the receiver, or with `None` if there
    /// is none and the sender has been dropped. Unless it completes with `None`, it wakes a sender
    /// that waits for room.
    pub fn poll(&mut self, channel: &mut Channel<T>, waker: &Waker, wakes: &mut Vec<Waker>) -> (result:
        Poll<Option<T>>)
        requires
            old(channel).wf(),
            old(channel)@.subscribers.len() > 0,
        ensures
            final(self)@ == old(self)@,
            final(channel).wf(),
            if old(channel)@.has(old(self)@) {
                let place = old(channel)@.place(old(self)@);
                &&& result == old(channel)@.received(place)
                &&& final(channel)@ == old(channel)@.polled(place, *waker)
                &&& final(wakes)@ == old(wakes)@ + (if result == Poll::Ready(None::<T>) {
                    Seq::empty()
                } else {
                    crate::task::pending_wake(old(channel)@.sender)
                })
            } else {
                &&& result == Poll::Ready(None::<T>)
                &&& final(channel)@ == old(channel)@
                &&& final(wakes)@ == old(wakes)@
            },
    {
        let ghost before = channel@;
        let ghost key = self@;
        let (shared, sender_present) = self.inner.get_mut_unchecked(&mut channel.inner);
        let ghost shared0 = *shared;
        let place = match shared.position(self.index) {
            Some(place) => place,
            None => {
                proof {
                    assert forall|i: int| 0 <= i < before.subscribers.len() implies (
                    #[trigger] before.subscribers[i]).key != key by {
                        assert(shared0.receivers@[i].key != key);
                    }
                }
                return Poll::Ready(None);
            },
        };
        proof {
            lemma_place(before, place as int);
        }
        shared.receive(place, sender_present, waker, wakes)
    }
}

/// Setup a broadcast channel with the given per-subscriber capacity.
pub fn channel<T: Clone>(capacity: usize) -> (ends: (Channel<T>, Sender<T>))
    requires
        capacity > 0,
    ensures
        ends.0.wf(),
        ends.0@ == State::<T>::new(Some(capacity)),
{
    setup(Some(capacity))
}

/// Setup a broadcast channel which is unbounded.
pub fn unbounded<T: Clone>() -> (ends: (Channel<T>, Sender<T>))
    ensures
        ends.0.wf(),
        ends.0@ == State::<T>::new(None),
{
    setup(None)
}

fn setup<T: Clone>(capacity: Option<usize>) -> (ends: (Channel<T>, Sender<T>))
    requires
        capacity matches Some(capacity) ==> capacity > 0,
    ensures
        ends.0.wf(),
        ends.0@ == State::<T>::new(capacity),
{
    let shared = Shared { id: 0, sender: None, ids: slab_new(), receivers: Vec::new(), capacity };
    proof {
        assert(shared.items().dom() =~= keys(shared.receivers@).to_set());
        assert(shared.subscribers() =~= Seq::<Subscriber<T>>::empty());
    }
    let (inner, sender) = BroadRc::new(shared);
    (Channel { inner }, Sender { inner: sender })
}

/// Offering a message to the subscribers keeps them in order, and holds no more for any of them
/// than the capacity of the channel.
pub proof fn law_try_send_keeps_inv<T: Clone>(before: State<T>, after: State<T>, value: T)
    requires
        before.inv(),
        before.open,
        tried(before, after, value),
    ensures
        after.inv(),
{
    assert forall|i: int| 0 <= i < after.subscribers.len() implies (
    #[trigger] after.subscribers[i]).inv() && after.subscribers[i].capacity == after.capacity by {
        assert(before.subscribers[i].inv());
    }
    assert forall|i: int, j: int| 0 <= i < j < after.subscribers.len() implies (
    #[trigger] after.subscribers[i]).key < (#[trigger] after.subscribers[j]).key by {
        assert(before.subscribers[i].key < before.subscribers[j].key);
    }
}

/// Sending a message to the subscribers keeps them in order, and holds no more for any of them
/// than the capacity of the channel.
pub proof fn law_send_keeps_inv<T: Clone>(
    before: State<T>,
    after: State<T>,
    waker: Waker,
    value: T,
)
    requires
        before.inv(),
        before.open,
        sent(before, after, waker, value),
    ensures
        after.inv(),
{
    assert forall|i: int| 0 <= i < after.subscribers.len() implies (
    #[trigger] after.subscribers[i]).inv() && after.subscribers[i].capacity == after.capacity by {
        assert(before.subscribers[i].inv());
    }
    assert forall|i: int, j: int| 0 <= i < j < after.subscribers.len() implies (
    #[trigger] after.subscribers[i]).key < (#[trigger] after.subscribers[j]).key by {
        assert(before.subscribers[i].key < before.subscribers[j].key);
    }
}

/// Dropping the sender keeps the subscribers and what is held for them.
pub proof fn law_dropping_sender_keeps_inv<T>(before: State<T>)
    requires
        before.inv(),
        before.open,
    ensures
        before.sender_dropped().inv(),
        before.sender_dropped().subscribers.len() == before.subscribers.len(),
        forall|i: int|
            0 <= i < before.subscribers.len() ==> (#[trigger] before.sender_dropped().subscribers[i])
                == (Subscriber { waker: None, ..before.subscribers[i] }),
{
    let after = before.sender_dropped();
    assert forall|i: int| 0 <= i < after.subscribers.len() implies (
    #[trigger] after.subscribers[i]).inv() && after.subscribers[i].capacity == after.capacity by {
        assert(before.subscribers[i].inv());
    }
    assert forall|i: int, j: int| 0 <= i < j < after.subscribers.len() implies (
    #[trigger] after.subscribers[i]).key < (#[trigger] after.subscribers[j]).key by {
        assert(before.subscribers[i].key < before.subscribers[j].key);
    }
}

/// Dropping a receiver ends its subscription and no other.
pub proof fn law_dropping_receiver_keeps_inv<T>(before: State<T>, key: usize)
    requires
        before.inv(),
        before.has(key),
    ensures
        before.unsubscribed(key).inv(),
        !before.unsubscribed(key).has(key),
        before.unsubscribed(key).subscribers == before.subscribers.remove(before.place(key)),
{
    let p = before.place(key);
    assert(0 <= p < before.subscribers.len() && before.subscribers[p].key == key);
    let after = before.unsubscribed(key);
    let rest = before.subscribers.remove(p);
    assert(after.subscribers =~= rest);
    assert forall|i: int| 0 <= i < rest.len() implies (#[trigger] rest[i]).inv()
        && rest[i].capacity == before.capacity && rest[i].key != key by {
        let i0 = if i < p {
            i
        } else {
            i + 1
        };
        assert(rest[i] == before.subscribers[i0]);
    }
    assert forall|i: int, j: int| 0 <= i < j < rest.len() implies (#[trigger] rest[i]).key < (
    #[trigger] rest[j]).key by {
        let i0 = if i < p {
            i
        } else {
            i + 1
        };
        let j0 = if j < p {
            j
        } else {
            j + 1
        };
        assert(before.subscribers[i0].key < before.subscribers[j0].key);
    }
}

/// Subscribing adds one subscriber, which nothing is held for, and keeps the others.
pub proof fn law_subscribe_keeps_inv<T>(before: State<T>, key: usize)
    requires
        before.inv(),
        before.open,
        before.subscribers.len() < usize::MAX,
        !before.has(key),
    ensures
        before.subscribed(key).inv(),
        before.subscribed(key).has(key),
        before.subscribed(key).subscribers[before.subscribed(key).place(key)].buf.len() == 0,
        before.subscribed(key).subscribers.remove(before.subscribed(key).place(key))
            == before.subscribers,
{
    let p = rank(before.subscribers, key);
    let after = before.subscribed(key);
    lemma_rank(before, key);
    assert forall|i: int| 0 <= i < after.subscribers.len() implies (
    #[trigger] after.subscribers[i]).inv() && after.subscribers[i].capacity == after.capacity by {
        if i < p {
            assert(after.subscribers[i] == before.subscribers[i]);
        } else if i > p {
            assert(after.subscribers[i] == before.subscribers[i - 1]);
        }
    }
    assert forall|i: int, j: int| 0 <= i < j < after.subscribers.len() implies (
    #[trigger] after.subscribers[i]).key < (#[trigger] after.subscribers[j]).key by {
        let i0 = if i < p {
            i
        } else {
            i - 1
        };
        let j0 = if j < p {
            j
        } else {
            j - 1
        };
        if i != p {
            assert(after.subscribers[i] == before.subscribers[i0]);
        }
        if j != p {
            assert(after.subscribers[j] == before.subscribers[j0]);
        }
    }
    assert(after.subscribers[p].key == key);
    lemma_place(after, p);
    assert(after.subscribers.remove(p) =~= before.subscribers);
}

/// The place of a new subscriber is between those with smaller keys and those with larger ones.
proof fn lemma_rank<T>(state: State<T>, key: usize)
    requires
        state.inv(),
        !state.has(key),
    ensures
        ({
            let p = rank(state.subscribers, key);
            &&& 0 <= p <= state.subscribers.len()
            &&& forall|i: int| 0 <= i < p ==> (#[trigger] state.subscribers[i]).key < key
            &&& forall|i: int|
                p <= i < state.subscribers.len() ==> (#[trigger] state.subscribers[i]).key > key
        }),
    decreases state.subscribers.len(),
{
    let subscribers = state.subscribers;
    if subscribers.len() > 0 {
        let last = subscribers.len() - 1;
        assert(subscribers[last].key != key);
        if subscribers[last].key < key {
            assert forall|i: int| 0 <= i < last implies (#[trigger] subscribers[i]).key < key by {
                assert(subscribers[i].key < subscribers[last].key);
            }
        } else {
            let front = State { open: true, subscribers: subscribers.drop_last(), ..state };
            assert(forall|i: int|
                0 <= i < last ==> #[trigger] front.subscribers[i] == subscribers[i]);
            lemma_rank(front, key);
            assert forall|i: int| 0 <= i < rank(subscribers, key) implies (
            #[trigger] subscribers[i]).key < key by {
                assert(front.subscribers[i] == subscribers[i]);
            }
            assert forall|i: int| rank(subscribers, key) <= i < subscribers.len() implies (
            #[trigger] subscribers[i]).key > key by {
                if i < last {
                    assert(front.subscribers[i] == subscribers[i]);
                }
            }
        }
    }
}

/// Receiving keeps the subscribers in order, and holds no more for any of them than the capacity
/// of the channel.
pub proof fn law_receive_keeps_inv<T>(before: State<T>, i: int, waker: Waker)
    requires
        before.inv(),
        0 <= i < before.subscribers.len(),
    ensures
        before.polled(i, waker).inv(),
        forall|j: int|
            0 <= j < before.subscribers.len() && j != i ==> #[trigger] before.polled(
                i,
                waker,
            ).subscribers[j] == before.subscribers[j],
{
}

/// Nothing that happens to one subscription touches another one.
pub proof fn law_subscriptions_are_independent<T>(
    state: State<T>,
    key: usize,
    other: usize,
    waker: Waker,
)
    requires
        state.inv(),
        state.has(other),
        key != other,
    ensures
        state.open && !state.has(key) && state.subscribers.len() < usize::MAX ==> {
            &&& state.subscribed(key).has(other)
            &&& state.subscribed(key).subscriber(other) == state.subscriber(other)
        },
        state.has(key) ==> {
            &&& state.unsubscribed(key).has(other)
            &&& state.unsubscribed(key).subscriber(other) == state.subscriber(other)
            &&& state.polled(state.place(key), waker).has(other)
            &&& state.polled(state.place(key), waker).subscriber(other) == state.subscriber(other)
        },
{
    let i = state.place(other);
    assert(0 <= i < state.subscribers.len() && state.subscribers[i].key == other);
    if state.open && !state.has(key) && state.subscribers.len() < usize::MAX {
        law_subscribe_keeps_inv(state, key);
        lemma_rank(state, key);
        let after = state.subscribed(key);
        let p = rank(state.subscribers, key);
        let i0 = if i < p {
            i
        } else {
            i + 1
        };
        assert(after.subscribers[i0] == state.subscribers[i]);
        lemma_place(after, i0);
    }
    if state.has(key) {
        let p = state.place(key);
        assert(0 <= p < state.subscribers.len() && state.subscribers[p].key == key);
        law_dropping_receiver_keeps_inv(state, key);
        let left = state.unsubscribed(key);
        let i0 = if i < p {
            i
        } else {
            i - 1
        };
        assert(left.subscribers[i0] == state.subscribers[i]);
        lemma_place(left, i0);
        law_receive_keeps_inv(state, p, waker);
        let polled = state.polled(p, waker);
        assert(polled.subscribers[i] == state.subscribers[i]);
        lemma_place(polled, i);
    }
}

/// Sending keeps every subscription, and so does dropping the sender.
pub proof fn law_sending_keeps_subscriptions<T: Clone>(
    before: State<T>,
    after: State<T>,
    waker: Waker,
    value: T,
    key: usize,
)
    requires
        before.inv(),
        before.open,
        before.has(key),
    ensures
        tried(before, after, value) ==> {
            &&& after.has(key)
            &&& offered(before.subscriber(key), after.subscriber(key), value)
        },
        sent(before, after, waker, value) ==> {
            &&& after.has(key)
            &&& posted(before.subscriber(key), after.subscriber(key), before.id, value)
        },
        before.sender_dropped().has(key),
        before.sender_dropped().subscriber(key) == (Subscriber {
            waker: None,
            ..before.subscriber(key)
        }),
{
    let i = before.place(key);
    assert(0 <= i < before.subscribers.len() && before.subscribers[i].key == key);
    if tried(before, after, value) {
        law_try_send_keeps_inv(before, after, value);
        assert(offered(before.subscribers[i], after.subscribers[i], value));
        lemma_place(after, i);
    }
    if sent(before, after, waker, value) {
        law_send_keeps_inv(before, after, waker, value);
        assert(posted(before.subscribers[i], after.subscribers[i], before.id, value));
        lemma_place(after, i);
    }
    law_dropping_sender_keeps_inv(before);
    let dropped = before.sender_dropped();
    assert(dropped.subscribers[i].key == key);
    lemma_place(dropped, i);
}

/// Every subscriber was last sent the message with the current identifier, or one before it.
pub open spec fn past<T>(state: State<T>) -> bool {
    forall|i: int|
        0 <= i < state.subscribers.len() ==> (#[trigger] state.subscribers[i]).id <= state.id
}

/// Message identifiers are never zero, and no subscriber has been sent the next message yet, for
/// as long as the identifiers have not wrapped around.
pub proof fn law_next_message_is_new<T>(state: State<T>)
    ensures
        state.bumped().id != 0,
        state.bumped().id != state.id,
        past(state) && state.id < u64::MAX ==> {
            &&& past(state.bumped())
            &&& forall|i: int|
                0 <= i < state.subscribers.len() ==> (#[trigger] state.bumped().subscribers[i]).id
                    != state.bumped().id
        },
{
}

/// No change of the subscribers makes one of them ahead of the current message.
pub proof fn law_subscribers_stay_past<T>(state: State<T>, key: usize, i: int, waker: Waker)
    requires
        state.inv(),
        past(state),
    ensures
        past(State::<T>::new(state.capacity)),
        state.open && !state.has(key) ==> past(state.subscribed(key)),
        state.has(key) ==> past(state.unsubscribed(key)),
        past(state.sender_dropped()),
        0 <= i < state.subscribers.len() ==> past(state.polled(i, waker)),
{
    if state.open && !state.has(key) {
        lemma_rank(state, key);
        let p = rank(state.subscribers, key);
        let after = state.subscribed(key);
        assert forall|j: int| 0 <= j < after.subscribers.len() implies (
        #[trigger] after.subscribers[j]).id <= after.id by {
            if j < p {
                assert(after.subscribers[j] == state.subscribers[j]);
            } else if j > p {
                assert(after.subscribers[j] == state.subscribers[j - 1]);
            }
        }
    }
    if state.has(key) {
        let p = state.place(key);
        assert(0 <= p < state.subscribers.len() && state.subscribers[p].key == key);
        let after = state.unsubscribed(key);
        assert forall|j: int| 0 <= j < after.subscribers.len() implies (
        #[trigger] after.subscribers[j]).id <= after.id by {
            let j0 = if j < p {
                j
            } else {
                j + 1
            };
            assert(after.subscribers[j] == state.subscribers[j0]);
        }
    }
    let after = state.sender_dropped();
    assert forall|j: int| 0 <= j < after.subscribers.len() implies (
    #[trigger] after.subscribers[j]).id <= after.id by {
        assert(state.subscribers[j].id <= state.id);
    }
}

/// Sending a message makes no subscriber ahead of the current message.
pub proof fn law_sending_stays_past<T: Clone>(
    before: State<T>,
    after: State<T>,
    waker: Waker,
    value: T,
)
    requires
        past(before),
    ensures
        tried(before, after, value) && before.id < u64::MAX ==> past(after),
        sent(before, after, waker, value) ==> past(after),
{
    if tried(before, after, value) && before.id < u64::MAX {
        assert forall|i: int| 0 <= i < after.subscribers.len() implies (
        #[trigger] after.subscribers[i]).id <= after.id by {
            assert(before.subscribers[i].id <= before.id);
        }
    }
    if sent(before, after, waker, value) {
        assert forall|i: int| 0 <= i < after.subscribers.len() implies (
        #[trigger] after.subscribers[i]).id <= after.id by {
            assert(before.subscribers[i].id <= before.id);
        }
    }
}

/// What receiving does to a subscriber: the oldest message is taken, or the subscriber is told to
/// wait or that there are no more messages.
pub open spec fn took<T>(before: Subscriber<T>, after: Subscriber<T>) -> bool {
    &&& after == Subscriber { waker: after.waker, buf: after.buf, ..before }
    &&& after.buf == before.buf || before.buf.len() > 0 && after.buf == before.buf.drop_first()
}

/// What becomes of one subscriber while the message with identifier `id` is being sent: the future
/// that sends it is polled, or the subscriber receives, any number of times and in any order.
pub open spec fn sending<T: Clone>(history: Seq<Subscriber<T>>, id: u64, value: T) -> bool {
    forall|j: int|
        0 <= j < history.len() - 1 ==> posted(#[trigger] history[j], history[j + 1], id, value)
            || took(history[j], history[j + 1])
}

/// How many messages have been appended over `history`.
pub open spec fn copies<T>(history: Seq<Subscriber<T>>) -> int
    decreases history.len(),
{
    if history.len() <= 1 {
        0
    } else {
        let before = history[history.len() - 2];
        copies(history.drop_last()) + if history.last().buf.len() > before.buf.len() {
            1int
        } else {
            0
        }
    }
}

/// However often a future that sends a message is polled, the message is appended at most once
/// for each subscriber, and it has been appended for those that it is no longer blocked on.
pub proof fn law_send_delivers_exactly_once<T: Clone>(
    history: Seq<Subscriber<T>>,
    id: u64,
    value: T,
)
    requires
        history.len() > 0,
        sending(history, id, value),
        history[0].id != id,
    ensures
        copies(history) == (if history.last().id == id {
            1int
        } else {
            0
        }),
    decreases history.len(),
{
    if history.len() > 1 {
        let front = history.drop_last();
        assert forall|j: int| 0 <= j < front.len() - 1 implies posted(
            #[trigger] front[j],
            front[j + 1],
            id,
            value,
        ) || took(front[j], front[j + 1]) by {
            assert(history[j] == front[j]);
        }
        law_send_delivers_exactly_once(front, id, value);
        let j = history.len() - 2;
        assert(posted(history[j], history[j + 1], id, value) || took(history[j], history[j + 1]));
        assert(front.last() == history[j]);
    }
}

/// Polling the channel as a receiver is one of the steps of a subscriber's history, for the
/// subscriber that is polled and, trivially, for the others.
pub proof fn law_receiving_is_a_step<T>(before: State<T>, i: int, j: int, waker: Waker)
    requires
        0 <= i < before.subscribers.len(),
        0 <= j < before.subscribers.len(),
    ensures
        took(before.subscribers[j], before.polled(i, waker).subscribers[j]),
{
}

/// A future that sends a message completes once every subscriber has been sent it, and not before.
pub proof fn law_completed_send_reached_everyone<T: Clone>(
    before: State<T>,
    after: State<T>,
    waker: Waker,
    value: T,
)
    requires
        sent(before, after, waker, value),
    ensures
        !before.is_blocked() <==> forall|i: int|
            0 <= i < after.subscribers.len() ==> (#[trigger] after.subscribers[i]).id == after.id,
{
    if before.is_blocked() {
        let i = choose|i: int|
            0 <= i < before.subscribers.len() && blocks(#[trigger] before.subscribers[i], before.id);
        assert(posted(before.subscribers[i], after.subscribers[i], before.id, value));
        assert(after.subscribers[i].id != after.id);
    } else {
        assert forall|i: int| 0 <= i < after.subscribers.len() implies (
        #[trigger] after.subscribers[i]).id == after.id by {
            assert(posted(before.subscribers[i], after.subscribers[i], before.id, value));
            assert(!blocks(before.subscribers[i], before.id));
        }
    }
}

/// A send that is blocked on one subscriber alone is no longer blocked once that subscriber has
/// received a message, which there is, or its receiver has been dropped.
pub proof fn law_receiving_unblocks_send<T>(state: State<T>, i: int, waker: Waker)
    requires
        state.inv(),
        0 <= i < state.subscribers.len(),
        blocks(state.subscribers[i], state.id),
        forall|j: int|
            0 <= j < state.subscribers.len() && j != i ==> !blocks(
                #[trigger] state.subscribers[j],
                state.id,
            ),
    ensures
        state.is_blocked(),
        state.received(i) is Ready,
        state.received(i) != Poll::Ready(None::<T>),
        !state.polled(i, waker).is_blocked(),
        !state.unsubscribed(state.subscribers[i].key).is_blocked(),
{
    assert(state.subscribers[i].inv());
    assert(state.subscribers[i].buf.len() > 0);
    let polled = state.polled(i, waker);
    assert forall|j: int| 0 <= j < polled.subscribers.len() implies !blocks(
        #[trigger] polled.subscribers[j],
        polled.id,
    ) by {
        if j != i {
            assert(polled.subscribers[j] == state.subscribers[j]);
        }
    }
    lemma_place(state, i);
    let left = state.unsubscribed(state.subscribers[i].key);
    assert forall|j: int| 0 <= j < left.subscribers.len() implies !blocks(
        #[trigger] left.subscribers[j],
        left.id,
    ) by {
        let j0 = if j < i {
            j
        } else {
            j + 1
        };
        assert(left.subscribers[j] == state.subscribers[j0]);
    }
}

/// The channel after the subscriber in place `i` has been polled `n` times.
pub open spec fn after_polls<T>(state: State<T>, i: int, waker: Waker, n: nat) -> State<T>
    decreases n,
{
    if n == 0 {
        state
    } else {
        after_polls(state, i, waker, (n - 1) as nat).polled(i, waker)
    }
}

/// A receiver gets the messages that are held for it in order, each of them once, and also after
/// the sender has been dropped. Then it gets `None`.
pub proof fn law_messages_are_received_in_order<T>(state: State<T>, i: int, waker: Waker, n: nat)
    requires
        state.inv(),
        state.open,
        0 <= i < state.subscribers.len(),
        n <= state.subscribers[i].buf.len(),
    ensures
        after_polls(state, i, waker, n).received(i) == (if n < state.subscribers[i].buf.len() {
            Poll::Ready(Some(state.subscribers[i].buf[n as int]))
        } else {
            Poll::Pending
        }),
        after_polls(state.sender_dropped(), i, waker, n).received(i) == (if n
            < state.subscribers[i].buf.len() {
            Poll::Ready(Some(state.subscribers[i].buf[n as int]))
        } else {
            Poll::Ready(None)
        }),
{
    lemma_after_polls(state, i, waker, n);
    law_dropping_sender_keeps_inv(state);
    lemma_after_polls(state.sender_dropped(), i, waker, n);
}

proof fn lemma_after_polls<T>(state: State<T>, i: int, waker: Waker, n: nat)
    requires
        0 <= i < state.subscribers.len(),
        n <= state.subscribers[i].buf.len(),
    ensures
        ({
            let after = after_polls(state, i, waker, n);
            &&& after.open == state.open
            &&& after.subscribers.len() == state.subscribers.len()
            &&& after.subscribers[i].buf == state.subscribers[i].buf.skip(n as int)
        }),
    decreases n,
{
    let buf = state.subscribers[i].buf;
    if n > 0 {
        lemma_after_polls(state, i, waker, (n - 1) as nat);
        assert(buf.skip(n - 1).drop_first() =~= buf.skip(n as int));
    } else {
        assert(buf.skip(0) =~= buf);
    }
}

/// Messages that are sent come after those that are held already, for each subscriber.
pub proof fn law_sending_keeps_held_messages<T: Clone>(
    before: State<T>,
    after: State<T>,
    waker: Waker,
    value: T,
    i: int,
)
    requires
        tried(before, after, value) || sent(before, after, waker, value),
        0 <= i < before.subscribers.len(),
    ensures
        before.subscribers[i].buf.is_prefix_of(after.subscribers[i].buf),
        after.subscribers[i].buf.len() <= before.subscribers[i].buf.len() + 1,
{
    let held = before.subscribers[i].buf;
    let holds = after.subscribers[i].buf;
    assert(tried(before, after, value) ==> offered(
        before.subscribers[i],
        after.subscribers[i],
        value,
    ));
    if holds != held {
        assert(holds.drop_last() == held);
        assert(held =~= holds.subrange(0, held.len() as int));
    } else {
        assert(held =~= holds.subrange(0, held.len() as int));
    }
}

/// A receiver that is told to wait is woken by the next message that there is room for, however it
/// is sent, and when the sender is dropped.
pub proof fn law_pending_receiver_is_woken<T>(state: State<T>, i: int, waker: Waker)
    requires
        state.inv(),
        0 <= i < state.subscribers.len(),
        state.received(i) is Pending,
    ensures
        ({
            let after = state.polled(i, waker);
            let subscriber = after.subscribers[i];
            &&& !subscriber.at_capacity()
            &&& room_wakers(after.subscribers).contains(waker)
            &&& all_wakers(after.subscribers).contains(waker)
            &&& forall|id: u64|
                subscriber.id != id ==> (#[trigger] post_wakers(after.subscribers, id)).contains(
                    waker,
                )
        }),
{
    let after = state.polled(i, waker);
    assert(after.subscribers[i].inv());
    lemma_wakers(after.subscribers, i, waker);
    assert forall|id: u64| after.subscribers[i].id != id implies (#[trigger] post_wakers(
        after.subscribers,
        id,
    )).contains(waker) by {
        lemma_post_wakers(after.subscribers, i, waker, id);
    }
}

proof fn lemma_wakers<T>(subscribers: Seq<Subscriber<T>>, i: int, waker: Waker)
    requires
        0 <= i < subscribers.len(),
        subscribers[i].waker == Some(waker),
    ensures
        all_wakers(subscribers).contains(waker),
        !subscribers[i].at_capacity() ==> room_wakers(subscribers).contains(waker),
    decreases subscribers.len(),
{
    let front = subscribers.drop_last();
    if i == front.len() {
        assert(all_wakers(subscribers).last() == waker);
        if !subscribers[i].at_capacity() {
            assert(room_wakers(subscribers).last() == waker);
        }
    } else {
        lemma_wakers(front, i, waker);
        let k = all_wakers(front).index_of(waker);
        assert(all_wakers(subscribers)[k] == waker);
        if !subscribers[i].at_capacity() {
            let l = room_wakers(front).index_of(waker);
            assert(room_wakers(subscribers)[l] == waker);
        }
    }
}

proof fn lemma_post_wakers<T>(subscribers: Seq<Subscriber<T>>, i: int, waker: Waker, id: u64)
    requires
        0 <= i < subscribers.len(),
        subscribers[i].waker == Some(waker),
        takes(subscribers[i], id),
    ensures
        post_wakers(subscribers, id).contains(waker),
    decreases subscribers.len(),
{
    let front = subscribers.drop_last();
    if i == front.len() {
        assert(post_wakers(subscribers, id).last() == waker);
    } else {
        lemma_post_wakers(front, i, waker, id);
        let k = post_wakers(front, id).index_of(waker);
        assert(post_wakers(subscribers, id)[k] == waker);
    }
}

/// What may happen to a channel while one message is being sent.
pub enum Moment {
    /// The future that sends the message is polled by the task of `waker`.
    Poll { waker: Waker },
    /// The receiver with the given key is polled by the task of `waker`.
    Receive { key: usize, waker: Waker },
    /// The receiver with the given key is dropped.
    Leave { key: usize },
}

/// What a moment of sending `value` does to a channel.
pub open spec fn happens<T: Clone>(
    before: State<T>,
    after: State<T>,
    moment: Moment,
    value: T,
) -> bool {
    match moment {
        Moment::Poll { waker } => if before.subscribers.len() == 0 {
            after == before
        } else {
            sent(before, after, waker, value)
        },
        Moment::Receive { key, waker } => {
            &&& before.has(key)
            &&& after == before.polled(before.place(key), waker)
        },
        Moment::Leave { key } => {
            &&& before.has(key)
            &&& after == before.unsubscribed(key)
        },
    }
}

/// The channel goes through `states` while `value` is being sent. The first one is that in which
/// the message has got its identifier, which no subscriber has been sent a message with.
pub open spec fn send_run<T: Clone>(
    states: Seq<State<T>>,
    moments: Seq<Moment>,
    value: T,
) -> bool {
    &&& states.len() == moments.len() + 1
    &&& states[0].inv()
    &&& states[0].open
    &&& forall|i: int|
        0 <= i < states[0].subscribers.len() ==> (#[trigger] states[0].subscribers[i]).id
            != states[0].id
    &&& forall|j: int|
        0 <= j < moments.len() ==> happens(
            states[j],
            states[j + 1],
            #[trigger] moments[j],
            value,
        )
}

/// What is kept for the subscriber with the given key in each of `states`.
pub open spec fn life<T>(states: Seq<State<T>>, key: usize) -> Seq<Subscriber<T>> {
    Seq::new(states.len(), |j: int| states[j].subscriber(key))
}

/// However often the future that sends a message is polled, and whatever the receivers do
/// meanwhile, no more is held for any of them than the capacity of the channel, and the message
/// has been appended at most once for each of them that is still there: once if it has been sent
/// the message, and else not at all.
pub proof fn law_message_is_appended_at_most_once<T: Clone>(
    states: Seq<State<T>>,
    moments: Seq<Moment>,
    value: T,
)
    requires
        send_run(states, moments, value),
    ensures
        states.last().inv(),
        states.last().open,
        states.last().id == states[0].id,
        forall|key: usize| #[trigger]
            states.last().has(key) ==> copies(life(states, key)) == (if states.last().subscriber(
                key,
            ).id == states.last().id {
                1int
            } else {
                0
            }),
{
    lemma_send_run(states, moments, value);
    assert forall|key: usize| #[trigger] states.last().has(key) implies copies(life(states, key))
        == (if states.last().subscriber(key).id == states.last().id {
        1int
    } else {
        0
    }) by {
        lemma_life(states, moments, value, key);
        let i = states[0].place(key);
        assert(0 <= i < states[0].subscribers.len() && states[0].subscribers[i].key == key);
        law_send_delivers_exactly_once(life(states, key), states[0].id, value);
    }
}

/// Whatever has happened since a message got its identifier, polling the future that sends it
/// appends the message for each receiver that has room for it and that it has not been appended
/// for. The future completes if and only if the message has been appended, by then, once for each
/// receiver that is still there.
pub proof fn law_send_completes_once_buffered_for_everyone<T: Clone>(
    states: Seq<State<T>>,
    moments: Seq<Moment>,
    value: T,
    after: State<T>,
    waker: Waker,
)
    requires
        send_run(states, moments, value),
        states.last().subscribers.len() > 0,
        sent(states.last(), after, waker, value),
    ensures
        after.inv(),
        after.subscribers.len() == states.last().subscribers.len(),
        forall|key: usize| #[trigger] after.has(key) <==> states.last().has(key),
        forall|key: usize| #[trigger]
            after.has(key) && !states.last().subscriber(key).at_capacity() ==> copies(
                life(states.push(after), key),
            ) == 1,
        !states.last().is_blocked() <==> forall|key: usize| #[trigger]
            after.has(key) ==> copies(life(states.push(after), key)) == 1,
{
    let last = states.last();
    let longer = states.push(after);
    let moment = Moment::Poll { waker };
    lemma_send_run(states, moments, value);
    assert(send_run(longer, moments.push(moment), value)) by {
        assert forall|j: int| 0 <= j < moments.push(moment).len() implies happens(
            longer[j],
            longer[j + 1],
            #[trigger] moments.push(moment)[j],
            value,
        ) by {
            if j < moments.len() {
                assert(happens(states[j], states[j + 1], moments[j], value));
            }
        }
        assert(longer[0] == states[0]);
    }
    law_message_is_appended_at_most_once(longer, moments.push(moment), value);
    law_completed_send_reached_everyone(last, after, waker, value);
    assert forall|key: usize| #[trigger] after.has(key) <==> last.has(key) by {
        if last.has(key) {
            let i = last.place(key);
            assert(0 <= i < last.subscribers.len() && last.subscribers[i].key == key);
            assert(posted(last.subscribers[i], after.subscribers[i], last.id, value));
            assert(after.subscribers[i].key == key);
        }
        if after.has(key) {
            lemma_happens(last, after, moment, value, key);
        }
    }
    assert forall|key: usize| #[trigger]
        after.has(key) && !last.subscriber(key).at_capacity() implies copies(life(longer, key))
        == 1 by {
        let i = last.place(key);
        assert(last.has(key));
        assert(0 <= i < last.subscribers.len() && last.subscribers[i].key == key);
        assert(posted(last.subscribers[i], after.subscribers[i], last.id, value));
        lemma_place(after, i);
    }
    if last.is_blocked() {
        let i = choose|i: int|
            0 <= i < after.subscribers.len() && (#[trigger] after.subscribers[i]).id != after.id;
        lemma_place(after, i);
        assert(copies(life(longer, after.subscribers[i].key)) == 0);
    } else {
        assert forall|key: usize| #[trigger] after.has(key) implies copies(life(longer, key))
            == 1 by {
            let i = after.place(key);
            assert(0 <= i < after.subscribers.len() && after.subscribers[i].key == key);
        }
    }
}

/// A subscriber that is there after a moment was there before, and was sent the message, or
/// received, or was left alone.
proof fn lemma_happens<T: Clone>(
    before: State<T>,
    after: State<T>,
    moment: Moment,
    value: T,
    key: usize,
)
    requires
        before.inv(),
        happens(before, after, moment, value),
        after.has(key),
    ensures
        before.has(key),
        posted(before.subscriber(key), after.subscriber(key), before.id, value) || took(
            before.subscriber(key),
            after.subscriber(key),
        ),
{
    let i = after.place(key);
    assert(0 <= i < after.subscribers.len() && after.subscribers[i].key == key);
    match moment {
        Moment::Poll { waker } => if before.subscribers.len() > 0 {
            assert(posted(before.subscribers[i], after.subscribers[i], before.id, value));
            lemma_place(before, i);
        },
        Moment::Receive { key: by, waker } => {
            let p = before.place(by);
            assert(0 <= p < before.subscribers.len() && before.subscribers[p].key == by);
            law_receiving_is_a_step(before, p, i, waker);
            lemma_place(before, i);
        },
        Moment::Leave { key: gone } => {
            law_dropping_receiver_keeps_inv(before, gone);
            let p = before.place(gone);
            let i0 = if i < p {
                i
            } else {
                i + 1
            };
            assert(0 <= p < before.subscribers.len() && before.subscribers[p].key == gone);
            assert(after.subscribers[i] == before.subscribers[i0]);
            lemma_place(before, i0);
        },
    }
}

/// The channel stays well-formed and open, and the message keeps its identifier.
proof fn lemma_send_run<T: Clone>(states: Seq<State<T>>, moments: Seq<Moment>, value: T)
    requires
        send_run(states, moments, value),
    ensures
        forall|j: int|
            0 <= j < states.len() ==> (#[trigger] states[j]).inv() && states[j].open && states[j].id
                == states[0].id,
    decreases moments.len(),
{
    if moments.len() > 0 {
        let n = moments.len() - 1;
        lemma_shorter_send_run(states, moments, value);
        lemma_send_run(states.drop_last(), moments.drop_last(), value);
        assert(forall|j: int| 0 <= j <= n ==> states.drop_last()[j] == #[trigger] states[j]);
        let before = states[n];
        let after = states[n + 1];
        assert(before.inv() && before.open && before.id == states[0].id);
        assert(happens(before, after, moments[n], value));
        match moments[n] {
            Moment::Poll { waker } => if before.subscribers.len() > 0 {
                law_send_keeps_inv(before, after, waker, value);
            },
            Moment::Receive { key, waker } => {
                let p = before.place(key);
                assert(0 <= p < before.subscribers.len() && before.subscribers[p].key == key);
                law_receive_keeps_inv(before, p, waker);
            },
            Moment::Leave { key } => {
                law_dropping_receiver_keeps_inv(before, key);
            },
        }
        assert forall|j: int| 0 <= j < states.len() implies (#[trigger] states[j]).inv()
            && states[j].open && states[j].id == states[0].id by {
            if j <= n {
                assert(states.drop_last()[j].inv());
            }
        }
    }
}

proof fn lemma_shorter_send_run<T: Clone>(states: Seq<State<T>>, moments: Seq<Moment>, value: T)
    requires
        send_run(states, moments, value),
        moments.len() > 0,
    ensures
        send_run(states.drop_last(), moments.drop_last(), value),
{
    let front = states.drop_last();
    let earlier = moments.drop_last();
    assert forall|j: int| 0 <= j < earlier.len() implies happens(
        front[j],
        front[j + 1],
        #[trigger] earlier[j],
        value,
    ) by {
        assert(happens(states[j], states[j + 1], moments[j], value));
    }
    assert(front[0] == states[0]);
}

/// A subscriber that is there in the end was there all the time.
proof fn lemma_life<T: Clone>(
    states: Seq<State<T>>,
    moments: Seq<Moment>,
    value: T,
    key: usize,
)
    requires
        send_run(states, moments, value),
        states.last().has(key),
    ensures
        forall|j: int| 0 <= j < states.len() ==> (#[trigger] states[j]).has(key),
        sending(life(states, key), states[0].id, value),
    decreases moments.len(),
{
    let n = moments.len() - 1;
    if n >= 0 {
        lemma_send_run(states, moments, value);
        assert(happens(states[n], states[n + 1], moments[n], value));
        assert(states[n].inv() && states[n].id == states[0].id);
        lemma_happens(states[n], states[n + 1], moments[n], value, key);
        lemma_shorter_send_run(states, moments, value);
        let front = states.drop_last();
        lemma_life(front, moments.drop_last(), value, key);
        assert(front[0] == states[0]);
        assert forall|j: int| 0 <= j < states.len() implies (#[trigger] states[j]).has(key) by {
            if j <= n {
                assert(front[j].has(key));
            }
        }
        let history = life(states, key);
        assert forall|j: int| 0 <= j < history.len() - 1 implies posted(
            #[trigger] history[j],
            history[j + 1],
            states[0].id,
            value,
        ) || took(history[j], history[j + 1]) by {
            if j < n {
                assert(life(front, key)[j] == history[j]);
                assert(life(front, key)[j + 1] == history[j + 1]);
            }
        }
    }
}

/// What may happen to a channel.
pub enum Action<T> {
    /// A receiver is made, with the given key.
    Subscribe { key: usize },
    /// The receiver with the given key is dropped.
    Unsubscribe { key: usize },
    /// The receiver with the given key is polled by the task of `waker`.
    Receive { key: usize, waker: Waker },
    /// Sending `value` is tried.
    TrySend { value: T },
    /// A future that sends `value` is polled by the task of `waker`.
    PollSend { value: T, waker: Waker },
    /// The future that sends a message is dropped before it has completed.
    DropSend,
    /// The sender is dropped.
    CloseSender,
}

/// A channel, and what one of its receivers has seen of it.
pub struct Scene<T> {
    /// The contents of the channel.
    pub state: State<T>,
    /// The message that is being sent, if there is one.
    pub sending: Option<T>,
    /// The messages that the receiver is to get, in the order in which sending them began.
    pub values: Seq<T>,
    /// The messages that the receiver has got.
    pub collected: Seq<T>,
}

/// What an action does to the channel, and to what the receiver with key `key` has seen of it.
///
/// The receiver is to get every message that is sent. One that sending is tried of, it is to get
/// if there is room for it, and one whose future is dropped before it has completed, if it had
/// been buffered for the receiver by then. While a message is being sent nothing else is done
/// with the sender.
pub open spec fn acts<T: Clone>(
    before: Scene<T>,
    after: Scene<T>,
    action: Action<T>,
    key: usize,
) -> bool {
    match action {
        Action::Subscribe { key: new } => {
            &&& before.state.open
            &&& before.sending is None
            &&& before.state.subscribers.len() < usize::MAX
            &&& !before.state.has(new)
            &&& after == Scene { state: before.state.subscribed(new), ..before }
        },
        Action::Unsubscribe { key: gone } => {
            &&& gone != key
            &&& before.state.has(gone)
            &&& after == Scene { state: before.state.unsubscribed(gone), ..before }
        },
        Action::Receive { key: by, waker } => {
            let place = before.state.place(by);
            &&& before.state.has(by)
            &&& after == Scene {
                state: before.state.polled(place, waker),
                collected: match before.state.received(place) {
                    Poll::Ready(Some(value)) if by == key => before.collected.push(value),
                    _ => before.collected,
                },
                ..before
            }
        },
        Action::TrySend { value } => {
            &&& before.state.open
            &&& before.sending is None
            &&& tried(before.state, after.state, value)
            &&& after == Scene {
                state: after.state,
                values: if before.state.subscriber(key).at_capacity() {
                    before.values
                } else {
                    before.values.push(value)
                },
                ..before
            }
        },
        Action::PollSend { value, waker } => {
            let start = if before.sending is Some {
                before.state
            } else {
                before.state.bumped()
            };
            &&& before.state.open
            &&& before.sending matches Some(message) ==> message == value
            &&& sent(start, after.state, waker, value)
            &&& after == Scene {
                state: after.state,
                sending: if start.is_blocked() {
                    Some(value)
                } else {
                    None
                },
                values: if before.sending is Some {
                    before.values
                } else {
                    before.values.push(value)
                },
                collected: before.collected,
            }
        },
        Action::DropSend => {
            &&& before.sending is Some
            &&& after == Scene {
                sending: None,
                values: if before.state.subscriber(key).id == before.state.id {
                    before.values
                } else {
                    before.values.drop_last()
                },
                ..before
            }
        },
        Action::CloseSender => {
            &&& before.state.open
            &&& before.sending is None
            &&& after == Scene { state: before.state.sender_dropped(), ..before }
        },
    }
}

/// `copies` holds a clone of each of `values`, in their order, and nothing else.
pub open spec fn copied<T: Clone>(values: Seq<T>, copies: Seq<T>) -> bool {
    &&& copies.len() == values.len()
    &&& forall|i: int| 0 <= i < values.len() ==> cloned(values[i], #[trigger] copies[i])
}

impl<T> Scene<T> {
    /// The scene right after a receiver has subscribed to the channel.
    pub open spec fn opening(state: State<T>, key: usize) -> Self {
        Scene {
            state: state.subscribed(key),
            sending: None,
            values: Seq::empty(),
            collected: Seq::empty(),
        }
    }

    /// The messages that have been buffered for the receiver with the given key: all that it is
    /// to get, but for the one that is being sent while there is no room for it.
    pub open spec fn due(self, key: usize) -> Seq<T> {
        if self.sending is Some && self.state.subscriber(key).id != self.state.id {
            self.values.drop_last()
        } else {
            self.values
        }
    }

    /// The messages that the receiver with the given key has got, and those that are held for it.
    pub open spec fn seen(self, key: usize) -> Seq<T> {
        self.collected + self.state.subscriber(key).buf
    }
}

/// A channel goes through `scenes`, as one of its receivers sees it from the moment when it
/// subscribes, and for as long as it is there.
pub open spec fn receiver_run<T: Clone>(
    start: State<T>,
    scenes: Seq<Scene<T>>,
    actions: Seq<Action<T>>,
    key: usize,
) -> bool {
    &&& start.inv()
    &&& start.open
    &&& start.subscribers.len() < usize::MAX
    &&& !start.has(key)
    &&& scenes.len() == actions.len() + 1
    &&& scenes[0] == Scene::opening(start, key)
    &&& forall|j: int|
        0 <= j < actions.len() ==> acts(scenes[j], scenes[j + 1], #[trigger] actions[j], key)
}

/// Delivery is guaranteed: whatever happens to a channel, what a receiver has got, followed by
/// what is held for it, is a clone of each message whose sending began after it subscribed, each
/// of them once and in the order in which they were sent. The one exception is a message that is
/// still being sent, which there may be no room for yet.
///
/// Once the sender has been dropped, the receiver gets what is held for it, and then `None`, so
/// that when it gets `None` it has got everything.
///
/// This holds for as long as the identifiers of messages have not wrapped around.
pub proof fn law_receiver_gets_everything_sent<T: Clone>(
    start: State<T>,
    scenes: Seq<Scene<T>>,
    actions: Seq<Action<T>>,
    key: usize,
    waker: Waker,
)
    requires
        receiver_run(start, scenes, actions, key),
        past(start),
        start.id + actions.len() < u64::MAX,
    ensures
        ({
            let last = scenes.last();
            let place = last.state.place(key);
            let held = last.state.subscriber(key).buf;
            &&& last.state.inv()
            &&& last.state.has(key)
            &&& copied(last.due(key), last.seen(key))
            &&& !last.state.open ==> {
                &&& copied(last.values, last.seen(key))
                &&& forall|n: nat|
                    n < held.len() ==> (#[trigger] after_polls(
                        last.state,
                        place,
                        waker,
                        n,
                    )).received(place) == Poll::Ready(Some(held[n as int]))
                &&& forall|n: nat|
                    n >= held.len() ==> (#[trigger] after_polls(
                        last.state,
                        place,
                        waker,
                        n,
                    )).received(place) == Poll::Ready(None::<T>)
            }
            &&& last.state.received(place) == Poll::Ready(None::<T>) ==> copied(
                last.values,
                last.collected,
            )
        }),
{
    lemma_receiver_run(start, scenes, actions, key);
    let last = scenes.last();
    let place = last.state.place(key);
    assert(0 <= place < last.state.subscribers.len());
    let held = last.state.subscriber(key).buf;
    if !last.state.open {
        assert forall|n: nat| n < held.len() implies (#[trigger] after_polls(
            last.state,
            place,
            waker,
            n,
        )).received(place) == Poll::Ready(Some(held[n as int])) by {
            lemma_after_polls(last.state, place, waker, n);
        }
        assert forall|n: nat| n >= held.len() implies (#[trigger] after_polls(
            last.state,
            place,
            waker,
            n,
        )).received(place) == Poll::Ready(None::<T>) by {
            lemma_drained(last.state, place, waker, n);
        }
    }
    if last.state.received(place) == Poll::Ready(None::<T>) {
        assert(last.seen(key) =~= last.collected);
    }
}

/// A receiver that nothing is held for any more, and whose sender is gone, gets `None` however
/// often it is polled.
proof fn lemma_drained<T>(state: State<T>, i: int, waker: Waker, n: nat)
    requires
        !state.open,
        0 <= i < state.subscribers.len(),
        n >= state.subscribers[i].buf.len(),
    ensures
        ({
            let after = after_polls(state, i, waker, n);
            &&& !after.open
            &&& after.subscribers.len() == state.subscribers.len()
            &&& after.subscribers[i].buf.len() == 0
        }),
    decreases n,
{
    if n == state.subscribers[i].buf.len() {
        lemma_after_polls(state, i, waker, n);
    } else {
        lemma_drained(state, i, waker, (n - 1) as nat);
    }
}

/// What holds of every scene of a run.
spec fn scene_ok<T: Clone>(scene: Scene<T>, key: usize) -> bool {
    &&& scene.state.inv()
    &&& past(scene.state)
    &&& scene.state.has(key)
    &&& scene.sending matches Some(message) ==> {
        &&& scene.state.open
        &&& scene.values.len() > 0
        &&& scene.values.last() == message
    }
    &&& copied(scene.due(key), scene.seen(key))
}

proof fn lemma_receiver_run<T: Clone>(
    start: State<T>,
    scenes: Seq<Scene<T>>,
    actions: Seq<Action<T>>,
    key: usize,
)
    requires
        receiver_run(start, scenes, actions, key),
        past(start),
        start.id + actions.len() < u64::MAX,
    ensures
        scene_ok(scenes.last(), key),
        scenes.last().state.id <= start.id + actions.len(),
    decreases actions.len(),
{
    if actions.len() == 0 {
        law_subscribe_keeps_inv(start, key);
        law_subscribers_stay_past(start, key, 0, arbitrary());
    } else {
        let n = actions.len() - 1;
        let front = scenes.drop_last();
        let earlier = actions.drop_last();
        assert forall|j: int| 0 <= j < earlier.len() implies acts(
            front[j],
            front[j + 1],
            #[trigger] earlier[j],
            key,
        ) by {
            assert(acts(scenes[j], scenes[j + 1], actions[j], key));
        }
        assert(front[0] == scenes[0]);
        lemma_receiver_run(start, front, earlier, key);
        assert(acts(scenes[n], scenes[n + 1], actions[n], key));
        lemma_acts(scenes[n], scenes[n + 1], actions[n], key);
    }
}

/// An action keeps what holds of a scene.
proof fn lemma_acts<T: Clone>(before: Scene<T>, after: Scene<T>, action: Action<T>, key: usize)
    requires
        scene_ok(before, key),
        before.state.id < u64::MAX,
        acts(before, after, action, key),
    ensures
        scene_ok(after, key),
        after.state.id <= before.state.id + 1,
{
    match action {
        Action::Subscribe { key: new } => {
            law_subscribe_keeps_inv(before.state, new);
            law_subscriptions_are_independent(before.state, new, key, arbitrary());
            law_subscribers_stay_past(before.state, new, 0, arbitrary());
        },
        Action::Unsubscribe { key: gone } => {
            law_dropping_receiver_keeps_inv(before.state, gone);
            law_subscriptions_are_independent(before.state, gone, key, arbitrary());
            law_subscribers_stay_past(before.state, gone, 0, arbitrary());
        },
        Action::Receive { key: by, waker } => {
            lemma_acts_receive(before, after, by, waker, key);
        },
        Action::TrySend { value } => {
            lemma_acts_try_send(before, after, value, key);
        },
        Action::PollSend { value, waker } => {
            lemma_acts_poll_send(before, after, value, waker, key);
        },
        Action::DropSend => {},
        Action::CloseSender => {
            lemma_acts_close(before, after, key);
        },
    }
}

proof fn lemma_acts_receive<T: Clone>(
    before: Scene<T>,
    after: Scene<T>,
    by: usize,
    waker: Waker,
    key: usize,
)
    requires
        scene_ok(before, key),
        acts(before, after, Action::Receive { key: by, waker }, key),
    ensures
        scene_ok(after, key),
        after.state.id == before.state.id,
{
    let place = before.state.place(by);
    assert(0 <= place < before.state.subscribers.len() && before.state.subscribers[place].key
        == by);
    law_receive_keeps_inv(before.state, place, waker);
    law_subscribers_stay_past(before.state, by, place, waker);
    if by == key {
        assert(after.state.subscribers[place].key == key);
        lemma_place(after.state, place);
        assert(after.seen(key) =~= before.seen(key));
    } else {
        law_subscriptions_are_independent(before.state, by, key, waker);
    }
}

proof fn lemma_acts_try_send<T: Clone>(
    before: Scene<T>,
    after: Scene<T>,
    value: T,
    key: usize,
)
    requires
        scene_ok(before, key),
        before.state.id < u64::MAX,
        acts(before, after, Action::TrySend { value }, key),
    ensures
        scene_ok(after, key),
        after.state.id == before.state.id + 1,
{
    law_try_send_keeps_inv(before.state, after.state, value);
    law_sending_keeps_subscriptions(before.state, after.state, arbitrary(), value, key);
    law_sending_stays_past(before.state, after.state, arbitrary(), value);
    let held = before.state.subscriber(key).buf;
    let holds = after.state.subscriber(key).buf;
    if !before.state.subscriber(key).at_capacity() {
        lemma_copied_push(before.values, before.seen(key), value, holds.last());
        assert(after.seen(key) =~= before.seen(key).push(holds.last())) by {
            assert(holds =~= held.push(holds.last()));
        }
    }
}

proof fn lemma_acts_poll_send<T: Clone>(
    before: Scene<T>,
    after: Scene<T>,
    value: T,
    waker: Waker,
    key: usize,
)
    requires
        scene_ok(before, key),
        before.state.id < u64::MAX,
        acts(before, after, Action::PollSend { value, waker }, key),
    ensures
        scene_ok(after, key),
        after.state.id <= before.state.id + 1,
{
    let start = if before.sending is Some {
        before.state
    } else {
        before.state.bumped()
    };
    law_next_message_is_new(before.state);
    let i = before.state.place(key);
    assert(0 <= i < before.state.subscribers.len() && before.state.subscribers[i].key == key);
    assert(start.inv());
    lemma_place(start, i);
    assert(past(start));
    law_send_keeps_inv(start, after.state, waker, value);
    law_sending_keeps_subscriptions(start, after.state, waker, value, key);
    law_sending_stays_past(start, after.state, waker, value);
    let subscriber = before.state.subscriber(key);
    let held = subscriber.buf;
    let holds = after.state.subscriber(key).buf;
    assert(posted(subscriber, after.state.subscriber(key), start.id, value));
    if before.sending is None {
        assert(start.subscribers[i].id != start.id);
        assert(after.values.drop_last() =~= before.values);
    }
    if takes(subscriber, start.id) {
        let earlier = after.values.drop_last();
        assert(copied(earlier, before.seen(key)));
        lemma_copied_push(earlier, before.seen(key), value, holds.last());
        assert(earlier.push(value) =~= after.values);
        assert(after.seen(key) =~= before.seen(key).push(holds.last())) by {
            assert(holds =~= held.push(holds.last()));
        }
    } else {
        assert(after.seen(key) =~= before.seen(key));
        if subscriber.id != start.id {
            assert(blocks(start.subscribers[i], start.id));
            assert(start.is_blocked());
        }
    }
}

proof fn lemma_acts_close<T: Clone>(before: Scene<T>, after: Scene<T>, key: usize)
    requires
        scene_ok(before, key),
        acts(before, after, Action::CloseSender, key),
    ensures
        scene_ok(after, key),
        after.state.id <= before.state.id,
{
    law_dropping_sender_keeps_inv(before.state);
    law_subscribers_stay_past(before.state, key, 0, arbitrary());
    let i = before.state.place(key);
    assert(0 <= i < before.state.subscribers.len() && before.state.subscribers[i].key == key);
    assert(after.state.subscribers[i].key == key);
    lemma_place(after.state, i);
}

proof fn lemma_copied_push<T: Clone>(values: Seq<T>, copies: Seq<T>, value: T, copy: T)
    requires
        copied(values, copies),
        cloned(value, copy),
    ensures
        copied(values.push(value), copies.push(copy)),
{
}

/// A receiver can hold just the capacity of the channel: of the messages that sending is tried of
/// while it receives nothing, those after the first `capacity` find it full, and so the attempt
/// fails. If the channel is unbounded it is never full.
pub proof fn law_capacity_is_exact<T: Clone>(
    start: State<T>,
    states: Seq<State<T>>,
    values: Seq<T>,
    key: usize,
)
    requires
        start.inv(),
        start.open,
        start.subscribers.len() < usize::MAX,
        !start.has(key),
        states.len() == values.len() + 1,
        states[0] == start.subscribed(key),
        forall|j: int|
            0 <= j < values.len() ==> tried(states[j], states[j + 1], #[trigger] values[j]),
    ensures
        states.last().inv(),
        states.last().open,
        states.last().has(key),
        states.last().capacity == start.capacity,
        match start.capacity {
            Some(capacity) => {
                &&& states.last().subscriber(key).buf.len() == (if values.len() < capacity {
                    values.len()
                } else {
                    capacity as nat
                })
                &&& states.last().subscriber(key).at_capacity() <==> values.len() >= capacity
                &&& values.len() >= capacity ==> !states.last().has_room()
            },
            None => {
                &&& states.last().subscriber(key).buf.len() == values.len()
                &&& states.last().has_room()
            },
        },
    decreases values.len(),
{
    law_subscribe_keeps_inv(start, key);
    let last = states.last();
    if values.len() > 0 {
        let n = values.len() - 1;
        let front = states.drop_last();
        let earlier = values.drop_last();
        assert forall|j: int| 0 <= j < earlier.len() implies tried(
            front[j],
            front[j + 1],
            #[trigger] earlier[j],
        ) by {
            assert(tried(states[j], states[j + 1], values[j]));
        }
        law_capacity_is_exact(start, front, earlier, key);
        assert(front.last() == states[n]);
        assert(tried(states[n], states[n + 1], values[n]));
        law_try_send_keeps_inv(states[n], last, values[n]);
        law_sending_keeps_subscriptions(states[n], last, arbitrary(), values[n], key);
    }
    let i = last.place(key);
    assert(0 <= i < last.subscribers.len() && last.subscribers[i].key == key);
    assert(last.subscribers[i].inv() && last.subscribers[i].capacity == start.capacity);
}

/// What an action does to a channel, whoever looks at it.
pub open spec fn changes<T: Clone>(before: State<T>, after: State<T>, action: Action<T>) -> bool {
    match action {
        Action::Subscribe { key } => {
            &&& before.open
            &&& before.subscribers.len() < usize::MAX
            &&& !before.has(key)
            &&& after == before.subscribed(key)
        },
        Action::Unsubscribe { key } => {
            &&& before.has(key)
            &&& after == before.unsubscribed(key)
        },
        Action::Receive { key, waker } => {
            &&& before.has(key)
            &&& after == before.polled(before.place(key), waker)
        },
        Action::TrySend { value } => {
            &&& before.open
            &&& tried(before, after, value)
        },
        Action::PollSend { value, waker } => {
            &&& before.open
            &&& if before.subscribers.len() == 0 {
                after == before || after == before.bumped()
            } else {
                sent(before, after, waker, value) || sent(before.bumped(), after, waker, value)
            }
        },
        Action::DropSend => after == before,
        Action::CloseSender => {
            &&& before.open
            &&& after == before.sender_dropped()
        },
    }
}

/// The capacity of a channel never changes while one of its ends is there: in every state that is
/// reached from a new channel, by any run of subscribing, receiving, sending and dropping ends, it
/// is the one that the channel was created with, and so is that of each subscriber. No more is held
/// for any subscriber than that.
pub proof fn law_capacity_never_changes<T: Clone>(
    capacity: Option<usize>,
    states: Seq<State<T>>,
    actions: Seq<Action<T>>,
)
    requires
        capacity matches Some(capacity) ==> capacity > 0,
        states.len() == actions.len() + 1,
        states[0] == State::<T>::new(capacity),
        forall|j: int|
            0 <= j < actions.len() ==> changes(states[j], states[j + 1], #[trigger] actions[j]),
    ensures
        ({
            let last = states.last();
            &&& last.inv()
            &&& last.open || last.subscribers.len() > 0 ==> last.capacity == capacity
            &&& forall|i: int|
                0 <= i < last.subscribers.len() ==> (#[trigger] last.subscribers[i]).capacity
                    == capacity
            &&& capacity matches Some(bound) ==> forall|i: int|
                0 <= i < last.subscribers.len() ==> (#[trigger] last.subscribers[i]).buf.len()
                    <= bound
        }),
    decreases actions.len(),
{
    if actions.len() > 0 {
        let n = actions.len() - 1;
        let front = states.drop_last();
        let earlier = actions.drop_last();
        assert forall|j: int| 0 <= j < earlier.len() implies changes(
            front[j],
            front[j + 1],
            #[trigger] earlier[j],
        ) by {
            assert(changes(states[j], states[j + 1], actions[j]));
        }
        assert(front[0] == states[0]);
        law_capacity_never_changes(capacity, front, earlier);
        let before = states[n];
        let after = states[n + 1];
        assert(front.last() == before);
        assert(changes(before, after, actions[n]));
        match actions[n] {
            Action::Subscribe { key } => {
                law_subscribe_keeps_inv(before, key);
            },
            Action::Unsubscribe { key } => {
                law_dropping_receiver_keeps_inv(before, key);
            },
            Action::Receive { key, waker } => {
                let p = before.place(key);
                assert(0 <= p < before.subscribers.len() && before.subscribers[p].key == key);
                law_receive_keeps_inv(before, p, waker);
            },
            Action::TrySend { value } => {
                law_try_send_keeps_inv(before, after, value);
            },
            Action::PollSend { value, waker } => {
                assert(before.bumped().inv());
                if before.subscribers.len() > 0 {
                    if sent(before, after, waker, value) {
                        law_send_keeps_inv(before, after, waker, value);
                    } else {
                        law_send_keeps_inv(before.bumped(), after, waker, value);
                    }
                }
            },
            Action::DropSend => {},
            Action::CloseSender => {
                law_dropping_sender_keeps_inv(before);
            },
        }
        assert(after.inv());
        assert forall|i: int| 0 <= i < after.subscribers.len() implies (
        #[trigger] after.subscribers[i]).capacity == after.capacity by {}
    }
    let last = states.last();
    if capacity is Some {
        assert forall|i: int| 0 <= i < last.subscribers.len() implies (
        #[trigger] last.subscribers[i]).buf.len() <= capacity->0 by {
            assert(last.subscribers[i].inv());
        }
    }
}

/// A new channel is open, has the capacity that it was created with, and nobody has subscribed to
/// it. Someone who subscribes joins those who are there, with nothing held for it, with the
/// capacity of the channel, and having been sent everything up to the current message. Nothing else
/// changes.
pub proof fn law_subscribing_adds_one<T>(
    state: State<T>,
    key: usize,
    capacity: Option<usize>,
)
    requires
        state.inv(),
        state.open,
        !state.has(key),
    ensures
        State::<T>::new(capacity) == (State {
            open: true,
            id: 0,
            sender: None,
            subscribers: Seq::<Subscriber<T>>::empty(),
            capacity,
        }),
        ({
            let after = state.subscribed(key);
            &&& after == (State { subscribers: after.subscribers, ..state })
            &&& exists|p: int|
                0 <= p <= state.subscribers.len() && after.subscribers
                    == #[trigger] state.subscribers.insert(
                    p,
                    Subscriber {
                        key,
                        id: state.id,
                        waker: None,
                        buf: Seq::<T>::empty(),
                        capacity: state.capacity,
                    },
                )
        }),
{
    lemma_rank(state, key);
    let p = rank(state.subscribers, key);
    assert(state.subscribed(key).subscribers == state.subscribers.insert(
        p,
        Subscriber {
            key,
            id: state.id,
            waker: None,
            buf: Seq::<T>::empty(),
            capacity: state.capacity,
        },
    ));
}

/// A receiver that is dropped takes its subscription with it, and no other. The task that waits in
/// a send is no longer registered. Nothing else changes as long as one of the ends is there; then
/// the channel is gone.
pub proof fn law_unsubscribing_removes_one<T>(state: State<T>, i: int)
    requires
        state.inv(),
        0 <= i < state.subscribers.len(),
    ensures
        ({
            let after = state.unsubscribed(state.subscribers[i].key);
            &&& after.subscribers == state.subscribers.remove(i)
            &&& after.open == state.open
            &&& after.sender is None
            &&& state.open || state.subscribers.len() > 1 ==> after.id == state.id
                && after.capacity == state.capacity
        }),
{
    lemma_place(state, i);
    law_dropping_receiver_keeps_inv(state, state.subscribers[i].key);
}

/// Dropping the sender closes the channel. It keeps every subscription and what is held for it, and
/// no task is registered for any of them.
pub proof fn law_closing_keeps_what_is_held<T>(state: State<T>, i: int)
    requires
        state.inv(),
        state.open,
        0 <= i < state.subscribers.len(),
    ensures
        ({
            let after = state.sender_dropped();
            &&& !after.open
            &&& after.id == state.id
            &&& after.sender == state.sender
            &&& after.capacity == state.capacity
            &&& after.subscribers.len() == state.subscribers.len()
            &&& after.subscribers[i] == (Subscriber {
                key: state.subscribers[i].key,
                id: state.subscribers[i].id,
                waker: None,
                buf: state.subscribers[i].buf,
                capacity: state.subscribers[i].capacity,
            })
        }),
{
    law_dropping_sender_keeps_inv(state);
}

/// Once the sender has been dropped and no subscription is left, there is nothing in the channel.
pub proof fn law_nothing_outlives_the_ends<T>(state: State<T>)
    requires
        state.inv(),
    ensures
        state.subscribers.len() == 0 ==> {
            &&& !state.sender_dropped().open
            &&& state.sender_dropped().sender is None
            &&& state.sender_dropped().subscribers.len() == 0
        },
        !state.open && state.subscribers.len() == 0 ==> state.sender is None,
{
}

/// A subscriber is known by its key, which is that of no other one.
pub proof fn law_subscriber_is_known_by_its_key<T>(state: State<T>, key: usize)
    requires
        state.inv(),
    ensures
        forall|i: int, j: int|
            0 <= i < j < state.subscribers.len() ==> (#[trigger] state.subscribers[i]).key < (
            #[trigger] state.subscribers[j]).key,
        forall|i: int|
            0 <= i < state.subscribers.len() && (#[trigger] state.subscribers[i]).key == key
                ==> state.has(key) && state.place(key) == i && state.subscriber(key)
                == state.subscribers[i],
        state.has(key) ==> 0 <= state.place(key) < state.subscribers.len()
            && state.subscribers[state.place(key)].key == key,
{
    assert forall|i: int|
        0 <= i < state.subscribers.len() && (
        #[trigger] state.subscribers[i]).key == key implies state.has(key) && state.place(key) == i
        && state.subscriber(key) == state.subscribers[i] by {
        lemma_place(state, i);
    }
}

/// A receiver gets the oldest message that is held for it and takes it out. If there is none it
/// waits as long as the sender is there, and gets `None` once it is gone. Nothing else changes.
pub proof fn law_receiver_gets_the_oldest<T>(state: State<T>, i: int, waker: Waker)
    requires
        0 <= i < state.subscribers.len(),
    ensures
        ({
            let before = state.subscribers[i];
            let after = state.polled(i, waker);
            &&& after == (State { subscribers: after.subscribers, ..state })
            &&& after.subscribers.len() == state.subscribers.len()
            &&& forall|j: int|
                0 <= j < state.subscribers.len() && j != i ==> #[trigger] after.subscribers[j]
                    == state.subscribers[j]
            &&& after.subscribers[i].key == before.key
            &&& after.subscribers[i].id == before.id
            &&& after.subscribers[i].capacity == before.capacity
            &&& if before.buf.len() > 0 {
                &&& state.received(i) == Poll::Ready(Some(before.buf[0]))
                &&& after.subscribers[i].buf == before.buf.subrange(1, before.buf.len() as int)
                &&& after.subscribers[i].waker == before.waker
            } else if !state.open {
                &&& state.received(i) == Poll::Ready(None::<T>)
                &&& after.subscribers[i].buf.len() == 0
                &&& after.subscribers[i].waker is None
            } else {
                &&& state.received(i) is Pending
                &&& after.subscribers[i].buf.len() == 0
                &&& after.subscribers[i].waker == Some(waker)
            }
        }),
{
}

/// Trying to send gives each subscriber that has room for it one more message, behind those that
/// are held for it, and leaves those that are full as they are. It takes a new identifier and
/// changes nothing else. It succeeds if everyone had room.
pub proof fn law_trying_reaches_those_with_room<T: Clone>(
    before: State<T>,
    after: State<T>,
    value: T,
)
    requires
        tried(before, after, value),
    ensures
        after.open == before.open,
        after.sender == before.sender,
        after.capacity == before.capacity,
        after.id == (if before.id == u64::MAX {
            1int
        } else {
            before.id + 1
        }),
        after.subscribers.len() == before.subscribers.len(),
        forall|i: int|
            #![trigger after.subscribers[i]]
            0 <= i < before.subscribers.len() ==> {
                let was = before.subscribers[i];
                let is = after.subscribers[i];
                &&& is.key == was.key
                &&& is.id == was.id
                &&& is.waker == was.waker
                &&& is.capacity == was.capacity
                &&& if was.capacity is Some && was.buf.len() == was.capacity->0 {
                    is.buf == was.buf
                } else {
                    &&& is.buf.len() == was.buf.len() + 1
                    &&& is.buf.subrange(0, was.buf.len() as int) == was.buf
                    &&& cloned(value, is.buf[was.buf.len() as int])
                }
            },
        before.has_room() <==> forall|i: int|
            0 <= i < before.subscribers.len() ==> !((
            #[trigger] before.subscribers[i]).capacity is Some && before.subscribers[i].buf.len()
                == before.subscribers[i].capacity->0),
        room_count(before.subscribers) == before.subscribers.filter(
            |subscriber: Subscriber<T>|
                !(subscriber.capacity is Some && subscriber.buf.len() == subscriber.capacity->0),
        ).len(),
{
    lemma_room_is_counted(before.subscribers);
    assert forall|i: int|
        #![trigger after.subscribers[i]]
        0 <= i < before.subscribers.len() implies {
        let was = before.subscribers[i];
        let is = after.subscribers[i];
        &&& is.key == was.key
        &&& is.id == was.id
        &&& is.waker == was.waker
        &&& is.capacity == was.capacity
        &&& if was.capacity is Some && was.buf.len() == was.capacity->0 {
            is.buf == was.buf
        } else {
            &&& is.buf.len() == was.buf.len() + 1
            &&& is.buf.subrange(0, was.buf.len() as int) == was.buf
            &&& cloned(value, is.buf[was.buf.len() as int])
        }
    } by {
        let was = before.subscribers[i];
        let is = after.subscribers[i];
        assert(offered(was, is, value));
        if !was.at_capacity() {
            assert(is.buf.subrange(0, was.buf.len() as int) =~= is.buf.drop_last());
        }
    }
}

proof fn lemma_room_is_counted<T>(subscribers: Seq<Subscriber<T>>)
    ensures
        room_count(subscribers) == subscribers.filter(
            |subscriber: Subscriber<T>|
                !(subscriber.capacity is Some && subscriber.buf.len() == subscriber.capacity->0),
        ).len(),
    decreases subscribers.len(),
{
    reveal(Seq::filter);
    if subscribers.len() > 0 {
        lemma_room_is_counted(subscribers.drop_last());
    }
}

/// Polling a send gives each subscriber that has room for the message, and that was last sent
/// another one, that message, behind those that are held for it, and leaves the others as they are.
/// It registers the task that waits and changes nothing else. It has to wait if one of those that
/// were last sent another message is full.
pub proof fn law_sending_reaches_those_with_room<T: Clone>(
    before: State<T>,
    after: State<T>,
    waker: Waker,
    value: T,
)
    requires
        sent(before, after, waker, value),
    ensures
        after.open == before.open,
        after.sender == Some(waker),
        after.capacity == before.capacity,
        after.id == before.id,
        after.subscribers.len() == before.subscribers.len(),
        forall|i: int|
            #![trigger after.subscribers[i]]
            0 <= i < before.subscribers.len() ==> {
                let was = before.subscribers[i];
                let is = after.subscribers[i];
                &&& is.key == was.key
                &&& is.waker == was.waker
                &&& is.capacity == was.capacity
                &&& if was.id == before.id || was.capacity is Some && was.buf.len()
                    == was.capacity->0 {
                    is.id == was.id && is.buf == was.buf
                } else {
                    &&& is.id == before.id
                    &&& is.buf.len() == was.buf.len() + 1
                    &&& is.buf.subrange(0, was.buf.len() as int) == was.buf
                    &&& cloned(value, is.buf[was.buf.len() as int])
                }
            },
        before.is_blocked() <==> exists|i: int|
            0 <= i < before.subscribers.len() && (#[trigger] before.subscribers[i]).id != before.id
                && before.subscribers[i].capacity is Some && before.subscribers[i].buf.len()
                == before.subscribers[i].capacity->0,
{
    assert forall|i: int|
        #![trigger after.subscribers[i]]
        0 <= i < before.subscribers.len() implies {
        let was = before.subscribers[i];
        let is = after.subscribers[i];
        &&& is.key == was.key
        &&& is.waker == was.waker
        &&& is.capacity == was.capacity
        &&& if was.id == before.id || was.capacity is Some && was.buf.len() == was.capacity->0 {
            is.id == was.id && is.buf == was.buf
        } else {
            &&& is.id == before.id
            &&& is.buf.len() == was.buf.len() + 1
            &&& is.buf.subrange(0, was.buf.len() as int) == was.buf
            &&& cloned(value, is.buf[was.buf.len() as int])
        }
    } by {
        let was = before.subscribers[i];
        let is = after.subscribers[i];
        assert(posted(was, is, before.id, value));
        if takes(was, before.id) {
            assert(is.buf.subrange(0, was.buf.len() as int) =~= is.buf.drop_last());
        }
    }
    if before.is_blocked() {
        let i = choose|i: int|
            0 <= i < before.subscribers.len() && blocks(#[trigger] before.subscribers[i], before.id);
        assert(before.subscribers[i].id != before.id);
    }
    if exists|i: int|
        0 <= i < before.subscribers.len() && (#[trigger] before.subscribers[i]).id != before.id
            && before.subscribers[i].capacity is Some && before.subscribers[i].buf.len()
            == before.subscribers[i].capacity->0 {
        let i = choose|i: int|
            0 <= i < before.subscribers.len() && (#[trigger] before.subscribers[i]).id != before.id
                && before.subscribers[i].capacity is Some && before.subscribers[i].buf.len()
                == before.subscribers[i].capacity->0;
        assert(blocks(before.subscribers[i], before.id));
    }
}

/// The tasks that are woken are those registered for the subscribers that are given a message, or
/// for all of them when the sender is dropped, each of them once and in the order of the
/// subscribers.
pub proof fn law_wakers_are_those_registered<T>(subscribers: Seq<Subscriber<T>>, id: u64)
    ensures
        all_wakers(subscribers) == subscribers.filter(
            |subscriber: Subscriber<T>| subscriber.waker is Some,
        ).map_values(|subscriber: Subscriber<T>| subscriber.waker->0),
        room_wakers(subscribers) == subscribers.filter(
            |subscriber: Subscriber<T>|
                subscriber.waker is Some && !(subscriber.capacity is Some && subscriber.buf.len()
                    == subscriber.capacity->0),
        ).map_values(|subscriber: Subscriber<T>| subscriber.waker->0),
        post_wakers(subscribers, id) == subscribers.filter(
            |subscriber: Subscriber<T>|
                subscriber.waker is Some && subscriber.id != id && !(subscriber.capacity is Some
                    && subscriber.buf.len() == subscriber.capacity->0),
        ).map_values(|subscriber: Subscriber<T>| subscriber.waker->0),
    decreases subscribers.len(),
{
    reveal(Seq::filter);
    if subscribers.len() > 0 {
        law_wakers_are_those_registered(subscribers.drop_last(), id);
    }
    assert(all_wakers(subscribers) =~= subscribers.filter(
        |subscriber: Subscriber<T>| subscriber.waker is Some,
    ).map_values(|subscriber: Subscriber<T>| subscriber.waker->0));
    assert(room_wakers(subscribers) =~= subscribers.filter(
        |subscriber: Subscriber<T>|
            subscriber.waker is Some && !(subscriber.capacity is Some && subscriber.buf.len()
                == subscriber.capacity->0),
    ).map_values(|subscriber: Subscriber<T>| subscriber.waker->0));
    assert(post_wakers(subscribers, id) =~= subscribers.filter(
        |subscriber: Subscriber<T>|
            subscriber.waker is Some && subscriber.id != id && !(subscriber.capacity is Some
                && subscriber.buf.len() == subscriber.capacity->0),
    ).map_values(|subscriber: Subscriber<T>| subscriber.waker->0));
}

/// Each message that is sent has the identifier after that of the one before it, passing over
/// zero, and taking it changes nothing else.
pub proof fn law_identifiers_count_up<T>(state: State<T>)
    ensures
        state.bumped() == (State {
            id: if state.id == u64::MAX {
                1u64
            } else {
                (state.id + 1) as u64
            },
            open: state.open,
            sender: state.sender,
            subscribers: state.subscribers,
            capacity: state.capacity,
        }),
{
}

/// No two subscribers have the same key.
proof fn lemma_place<T>(state: State<T>, i: int)
    requires
        state.inv(),
        0 <= i < state.subscribers.len(),
    ensures
        state.has(state.subscribers[i].key),
        state.place(state.subscribers[i].key) == i,
{
    let key = state.subscribers[i].key;
    let j = state.place(key);
    assert(0 <= j < state.subscribers.len() && state.subscribers[j].key == key);
}

/// Every subscriber is counted if none of them is full.
proof fn lemma_room_count<T>(subscribers: Seq<Subscriber<T>>)
    ensures
        0 <= room_count(subscribers) <= subscribers.len(),
        room_count(subscribers) == subscribers.len() <==> forall|i: int|
            0 <= i < subscribers.len() ==> !(#[trigger] subscribers[i]).at_capacity(),
    decreases subscribers.len(),
{
    if subscribers.len() > 0 {
        let front = subscribers.drop_last();
        lemma_room_count(front);
        assert(forall|i: int| 0 <= i < front.len() ==> #[trigger] front[i] == subscribers[i]);
        if forall|i: int| 0 <= i < front.len() ==> !(#[trigger] front[i]).at_capacity() {
            assert forall|i: int| 0 <= i < front.len() implies !(
            #[trigger] subscribers[i]).at_capacity() by {
                assert(!front[i].at_capacity());
            }
        } else {
            let i = choose|i: int| 0 <= i < front.len() && (#[trigger] front[i]).at_capacity();
            assert(subscribers[i].at_capacity());
        }
    }
}

/// Inserting a key in its place keeps the order.
proof fn lemma_insert_key(known: Seq<usize>, p: int, key: usize)
    requires
        sorted(known),
        0 <= p <= known.len(),
        forall|i: int| 0 <= i < p ==> #[trigger] known[i] < key,
        forall|i: int| p <= i < known.len() ==> #[trigger] known[i] > key,
    ensures
        sorted(known.insert(p, key)),
        known.insert(p, key).to_set() == known.to_set().insert(key),
{
    let after = known.insert(p, key);
    assert forall|i: int, j: int| 0 <= i < j < after.len() implies after[i] < after[j] by {
        let i0 = if i < p {
            i
        } else {
            i - 1
        };
        let j0 = if j < p {
            j
        } else {
            j - 1
        };
        if i != p && j != p {
            assert(known[i0] < known[j0]);
        } else if i == p {
            assert(known[j0] > key);
        } else {
            assert(known[i] < key);
        }
    }
    assert forall|k: usize| after.contains(k) <==> #[trigger] known.to_set().insert(key).contains(
        k,
    ) by {
        if known.contains(k) {
            let i = known.index_of(k);
            if i < p {
                assert(after[i] == k);
            } else {
                assert(after[i + 1] == k);
            }
        }
        if k == key {
            assert(after[p] == k);
        }
        if after.contains(k) && k != key {
            let i = after.index_of(k);
            if i < p {
                assert(known[i] == k);
            } else {
                assert(known[i - 1] == k);
            }
        }
    }
    assert(after.to_set() =~= known.to_set().insert(key));
}

/// Removing a key keeps the order.
proof fn lemma_remove_key(known: Seq<usize>, p: int)
    requires
        sorted(known),
        0 <= p < known.len(),
    ensures
        sorted(known.remove(p)),
        known.remove(p).to_set() == known.to_set().remove(known[p]),
{
    let after = known.remove(p);
    assert forall|i: int, j: int| 0 <= i < j < after.len() implies after[i] < after[j] by {
        let i0 = if i < p {
            i
        } else {
            i + 1
        };
        let j0 = if j < p {
            j
        } else {
            j + 1
        };
        assert(known[i0] < known[j0]);
    }
    assert forall|k: usize| after.contains(k) <==> #[trigger] known.to_set().remove(
        known[p],
    ).contains(k) by {
        if known.contains(k) && k != known[p] {
            let i = known.index_of(k);
            if i < p {
                assert(after[i] == k);
            } else {
                assert(after[i - 1] == k);
            }
        }
        if after.contains(k) {
            let i = after.index_of(k);
            if i < p {
                assert(known[i] == k);
                assert(known[i] < known[p]);
            } else {
                assert(known[i + 1] == k);
                assert(known[p] < known[i + 1]);
            }
        }
    }
    assert(after.to_set() =~= known.to_set().remove(known[p]));
}

/// Two strictly increasing sequences with the same elements are equal.
proof fn lemma_sorted_unique(a: Seq<usize>, b: Seq<usize>)
    requires
        sorted(a),
        sorted(b),
        forall|key: usize| a.contains(key) <==> #[trigger] b.contains(key),
    ensures
        a == b,
    decreases a.len(),
{
    if a.len() == 0 {
        if b.len() > 0 {
            assert(b.contains(b[0]));
        }
    } else {
        assert(a.contains(a.last()));
        assert(b.contains(a.last()));
        assert(b.contains(b.last()));
        assert(a.contains(b.last()));
        let i = a.index_of(b.last());
        let j = b.index_of(a.last());
        assert(a.last() == b.last());
        assert forall|key: usize| a.drop_last().contains(key) <==> #[trigger] b.drop_last().contains(
            key,
        ) by {
            if a.drop_last().contains(key) {
                let k = a.drop_last().index_of(key);
                assert(a[k] == key);
                assert(b.contains(key));
                let l = b.index_of(key);
                assert(b.drop_last()[l] == key);
            }
            if b.drop_last().contains(key) {
                let k = b.drop_last().index_of(key);
                assert(b[k] == key);
                assert(b.contains(key));
                assert(a.contains(key));
                let l = a.index_of(key);
                assert(a.drop_last()[l] == key);
            }
        }
        lemma_sorted_unique(a.drop_last(), b.drop_last());
        assert(a =~= a.drop_last().push(a.last()));
        assert(b =~= b.drop_last().push(b.last()));
    }
}

} // verus!
