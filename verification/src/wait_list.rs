//! [`WaitList`] is a linked list of futures waiting on an event.
//!
//! This is the most fundamental primitive to many of the synchronization
//! utilities provided by this crate.
use crate::task::{clone_waker, register, Poll};
use std::task::Waker;
use vstd::prelude::*;

verus! {

/// What one slot of a wait list holds.
pub enum Slot<I, O> {
    /// Nothing.
    Vacant,
    /// A waiter that has not been woken.
    Waiting { input: I, waker: Waker },
    /// A waiter that has been woken and has not collected its output.
    Woken { output: O },
}

/// The contents of a wait list: its slots, and the slots of the waiters in the
/// queue, oldest first.
pub struct Waiters<I, O> {
    pub slots: Seq<Slot<I, O>>,
    pub queue: Seq<usize>,
}

/// `slots` with `slot` in place `id`, which may be the first place past the end.
pub open spec fn put<A>(slots: Seq<A>, id: int, slot: A) -> Seq<A> {
    if id < slots.len() {
        slots.update(id, slot)
    } else {
        slots.push(slot)
    }
}

impl<I, O> Waiters<I, O> {
    /// A list in which nobody waits and nobody was ever woken.
    pub open spec fn empty() -> Self {
        Waiters { slots: Seq::empty(), queue: Seq::empty() }
    }

    /// The queue holds exactly the waiters that have not been woken, each once.
    pub open spec fn inv(self) -> bool {
        &&& self.queue.no_duplicates()
        &&& forall|i: int|
            0 <= i < self.queue.len() ==> (#[trigger] self.queue[i]) < self.slots.len()
                && self.slots[self.queue[i] as int] is Waiting
        &&& forall|j: int|
            0 <= j < self.slots.len() && (#[trigger] self.slots[j]) is Waiting
                ==> self.queue.contains(j as usize)
        &&& self.slots.len() <= usize::MAX
    }

    /// Whether slot `id` can be given to a new waiter.
    pub open spec fn vacant(self, id: usize) -> bool {
        id == self.slots.len() || (id < self.slots.len() && self.slots[id as int] is Vacant)
    }

    /// Whether slot `id` belongs to a waiter, woken or not.
    pub open spec fn occupied(self, id: usize) -> bool {
        id < self.slots.len() && !(self.slots[id as int] is Vacant)
    }

    /// The input of the waiter in place `i` of the queue.
    pub open spec fn input(self, i: int) -> I {
        self.slots[self.queue[i] as int]->input
    }

    /// The waker of the waiter in place `i` of the queue.
    pub open spec fn waker(self, i: int) -> Waker {
        self.slots[self.queue[i] as int]->waker
    }

    /// The list with a new waiter in slot `id`, last in the queue.
    pub open spec fn enqueued(self, id: usize, input: I, waker: Waker) -> Self {
        Waiters {
            slots: put(self.slots, id as int, Slot::Waiting { input, waker }),
            queue: self.queue.push(id),
        }
    }

    /// The list without the waiter in slot `id`, which is in the queue.
    pub open spec fn dequeued(self, id: usize) -> Self {
        Waiters {
            slots: self.slots.update(id as int, Slot::Vacant),
            queue: self.queue.remove(self.queue.index_of(id)),
        }
    }

    /// The list without the woken waiter in slot `id`.
    pub open spec fn collected(self, id: usize) -> Self {
        Waiters { slots: self.slots.update(id as int, Slot::Vacant), queue: self.queue }
    }

    /// The list with another waker for the waiter in slot `id`, which is in the queue.
    pub open spec fn rewakered(self, id: usize, waker: Waker) -> Self {
        Waiters {
            slots: self.slots.update(
                id as int,
                Slot::Waiting { input: self.slots[id as int]->input, waker },
            ),
            queue: self.queue,
        }
    }

    /// The list with another input for the first waiter in the queue.
    pub open spec fn with_head_input(self, input: I) -> Self {
        Waiters {
            slots: self.slots.update(
                self.queue[0] as int,
                Slot::Waiting { input, waker: self.waker(0) },
            ),
            queue: self.queue,
        }
    }

    /// The list after the first waiter in the queue has been woken with `output`.
    pub open spec fn woken(self, output: O) -> Self {
        Waiters {
            slots: self.slots.update(self.queue[0] as int, Slot::Woken { output }),
            queue: self.queue.drop_first(),
        }
    }
}

/// Waking the first waiter keeps the invariant of the list.
pub proof fn law_wake_keeps_inv<I, O>(waiters: Waiters<I, O>, output: O)
    requires
        waiters.inv(),
        waiters.queue.len() > 0,
    ensures
        waiters.woken(output).inv(),
{
    let after = waiters.woken(output);
    let head = waiters.queue[0];
    assert forall|i: int| 0 <= i < after.queue.len() implies (#[trigger] after.queue[i])
        < after.slots.len() && after.slots[after.queue[i] as int] is Waiting by {
        assert(after.queue[i] == waiters.queue[i + 1]);
    }
    assert forall|j: int| 0 <= j < after.slots.len() && (#[trigger] after.slots[j]) is Waiting
        implies after.queue.contains(j as usize) by {
        assert(waiters.slots[j] is Waiting);
        let i = waiters.queue.index_of(j as usize);
        assert(after.queue[i - 1] == j as usize);
    }
}

/// Adding a waiter keeps the invariant of the list.
pub proof fn law_enqueue_keeps_inv<I, O>(
    waiters: Waiters<I, O>,
    id: usize,
    input: I,
    waker: Waker,
)
    requires
        waiters.inv(),
        waiters.vacant(id),
        waiters.slots.len() < usize::MAX,
    ensures
        waiters.enqueued(id, input, waker).inv(),
{
    let after = waiters.enqueued(id, input, waker);
    assert(after.queue[waiters.queue.len() as int] == id);
    assert forall|i: int| 0 <= i < after.queue.len() implies (#[trigger] after.queue[i])
        < after.slots.len() && after.slots[after.queue[i] as int] is Waiting by {
        if i < waiters.queue.len() {
            assert(after.queue[i] == waiters.queue[i]);
        }
    }
    assert forall|j: int| 0 <= j < after.slots.len() && (#[trigger] after.slots[j]) is Waiting
        implies after.queue.contains(j as usize) by {
        if j != id {
            assert(waiters.slots[j] is Waiting);
            let i = waiters.queue.index_of(j as usize);
            assert(after.queue[i] == j as usize);
        }
    }
    assert forall|i: int, j: int|
        0 <= i < after.queue.len() && 0 <= j < after.queue.len() && i != j implies after.queue[i]
        != after.queue[j] by {
        if i < waiters.queue.len() {
            assert(waiters.queue[i] < waiters.slots.len());
        }
        if j < waiters.queue.len() {
            assert(waiters.queue[j] < waiters.slots.len());
        }
    }
}

/// Collecting an output keeps the invariant of the list.
pub proof fn law_collect_keeps_inv<I, O>(waiters: Waiters<I, O>, id: usize)
    requires
        waiters.inv(),
        waiters.occupied(id),
        waiters.slots[id as int] is Woken,
    ensures
        waiters.collected(id).inv(),
{
    let after = waiters.collected(id);
    assert forall|i: int| 0 <= i < after.queue.len() implies (#[trigger] after.queue[i])
        < after.slots.len() && after.slots[after.queue[i] as int] is Waiting by {
        assert(waiters.queue[i] < waiters.slots.len());
    }
    assert forall|j: int| 0 <= j < after.slots.len() && (#[trigger] after.slots[j]) is Waiting
        implies after.queue.contains(j as usize) by {
        assert(waiters.slots[j] is Waiting);
    }
}

/// Removing a waiter from the queue keeps the invariant of the list.
pub proof fn law_dequeue_keeps_inv<I, O>(waiters: Waiters<I, O>, id: usize)
    requires
        waiters.inv(),
        waiters.occupied(id),
        waiters.slots[id as int] is Waiting,
    ensures
        waiters.dequeued(id).inv(),
{
    let after = waiters.dequeued(id);
    let k = waiters.queue.index_of(id);
    assert(waiters.queue.contains(id));
    assert forall|i: int| 0 <= i < after.queue.len() implies (#[trigger] after.queue[i])
        < after.slots.len() && after.slots[after.queue[i] as int] is Waiting by {
        let was = if i < k {
            i
        } else {
            i + 1
        };
        assert(after.queue[i] == waiters.queue[was]);
    }
    assert forall|j: int| 0 <= j < after.slots.len() && (#[trigger] after.slots[j]) is Waiting
        implies after.queue.contains(j as usize) by {
        assert(waiters.slots[j] is Waiting);
        let i = waiters.queue.index_of(j as usize);
        if i < k {
            assert(after.queue[i] == j as usize);
        } else {
            assert(after.queue[i - 1] == j as usize);
        }
    }
}

/// Registering another task for a waiter keeps the invariant of the list.
pub proof fn law_poll_keeps_inv<I, O>(waiters: Waiters<I, O>, id: usize, waker: Waker)
    requires
        waiters.inv(),
        waiters.occupied(id),
        waiters.slots[id as int] is Waiting,
    ensures
        waiters.rewakered(id, waker).inv(),
{
    let after = waiters.rewakered(id, waker);
    assert forall|i: int| 0 <= i < after.queue.len() implies (#[trigger] after.queue[i])
        < after.slots.len() && after.slots[after.queue[i] as int] is Waiting by {
        assert(waiters.queue[i] < waiters.slots.len());
    }
    assert forall|j: int| 0 <= j < after.slots.len() && (#[trigger] after.slots[j]) is Waiting
        implies after.queue.contains(j as usize) by {
        assert(waiters.slots[j] is Waiting);
    }
}

/// A future that joins the queue and is dropped before it is woken leaves the queue as it
/// found it.
pub proof fn law_cancel_undoes_wait<I, O>(
    waiters: Waiters<I, O>,
    id: usize,
    input: I,
    waker: Waker,
)
    requires
        waiters.inv(),
        waiters.vacant(id),
    ensures
        waiters.enqueued(id, input, waker).dequeued(id) == (Waiters {
            slots: put(waiters.slots, id as int, Slot::Vacant),
            queue: waiters.queue,
        }),
{
    let queue = waiters.queue.push(id);
    assert(queue[waiters.queue.len() as int] == id);
    assert forall|i: int| 0 <= i < waiters.queue.len() implies waiters.queue[i] != id by {
        assert(waiters.queue[i] < waiters.slots.len());
    }
    assert(queue.index_of(id) == waiters.queue.len());
    let after = waiters.enqueued(id, input, waker).dequeued(id);
    assert(after.queue =~= waiters.queue);
    assert(after.slots =~= put(waiters.slots, id as int, Slot::Vacant));
}

/// A waiter that leaves the queue, from whatever position, leaves the others in their order.
pub proof fn law_cancel_keeps_order<I, O>(waiters: Waiters<I, O>, id: usize)
    requires
        waiters.inv(),
        waiters.occupied(id),
        waiters.slots[id as int] is Waiting,
    ensures
        !waiters.dequeued(id).queue.contains(id),
        waiters.dequeued(id).queue == waiters.queue.filter(|other: usize| other != id),
{
    let queue = waiters.queue;
    assert(queue.contains(id));
    lemma_remove_is_filter(queue, id);
    let rest = queue.remove(queue.index_of(id));
    if rest.contains(id) {
        let i = rest.index_of(id);
        let k = queue.index_of(id);
        if i < k {
            assert(queue[i] == id);
        } else {
            assert(queue[i + 1] == id);
        }
    }
}

/// Taking the one occurrence of a value out of a sequence is keeping everything else.
proof fn lemma_remove_is_filter(queue: Seq<usize>, id: usize)
    requires
        queue.no_duplicates(),
        queue.contains(id),
    ensures
        queue.remove(queue.index_of(id)) == queue.filter(|other: usize| other != id),
    decreases queue.len(),
{
    let keep = |other: usize| other != id;
    let k = queue.index_of(id);
    let front = queue.drop_last();
    reveal(Seq::filter);
    if k == queue.len() - 1 {
        lemma_filter_all(front, id);
        assert(queue.remove(k) =~= front);
    } else {
        assert(front[k] == id);
        assert(front.index_of(id) == k);
        lemma_remove_is_filter(front, id);
        assert(queue.remove(k) =~= front.remove(k).push(queue.last()));
    }
}

proof fn lemma_filter_all(queue: Seq<usize>, id: usize)
    requires
        forall|i: int| 0 <= i < queue.len() ==> queue[i] != id,
    ensures
        queue.filter(|other: usize| other != id) == queue,
    decreases queue.len(),
{
    reveal(Seq::filter);
    if queue.len() > 0 {
        lemma_filter_all(queue.drop_last(), id);
        assert(queue.drop_last().push(queue.last()) =~= queue);
    }
}

/// The waiters of a queue are woken in the order in which they joined it: waking `k` of them,
/// one after the other, hands output `i` to the waiter in place `i`, and leaves the rest of the
/// queue behind.
pub proof fn law_wake_is_first_in_first_out<I, O>(waiters: Waiters<I, O>, outputs: Seq<O>)
    requires
        waiters.inv(),
        outputs.len() <= waiters.queue.len(),
    ensures
        wake_all(waiters, outputs).inv(),
        wake_all(waiters, outputs).queue == waiters.queue.skip(outputs.len() as int),
        wake_all(waiters, outputs).slots.len() == waiters.slots.len(),
        forall|i: int|
            0 <= i < outputs.len() ==> wake_all(
                waiters,
                outputs,
            ).slots[#[trigger] waiters.queue[i] as int] == (Slot::<I, O>::Woken {
                output: outputs[i],
            }),
        forall|j: int|
            0 <= j < waiters.slots.len() && !(waiters.queue.take(outputs.len() as int).contains(
                j as usize,
            )) ==> #[trigger] wake_all(waiters, outputs).slots[j] == waiters.slots[j],
    decreases outputs.len(),
{
    let k = outputs.len() as int;
    let after = wake_all(waiters, outputs);
    if k > 0 {
        let before = wake_all(waiters, outputs.drop_last());
        law_wake_is_first_in_first_out(waiters, outputs.drop_last());
        let id = waiters.queue[k - 1];
        assert(before.queue[0] == id);
        law_wake_keeps_inv(before, outputs.last());
        assert(after.queue =~= waiters.queue.skip(k));
        assert forall|i: int| 0 <= i < k implies after.slots[#[trigger] waiters.queue[i] as int]
            == (Slot::<I, O>::Woken { output: outputs[i] }) by {
            if i < k - 1 {
                assert(waiters.queue[i] != id);
                assert(before.slots[waiters.queue[i] as int] == (Slot::<I, O>::Woken {
                    output: outputs.drop_last()[i],
                }));
            }
        }
        assert forall|j: int|
            0 <= j < waiters.slots.len() && !waiters.queue.take(k).contains(j as usize) implies
            #[trigger] after.slots[j] == waiters.slots[j] by {
            assert(waiters.queue.take(k)[k - 1] == id);
            if waiters.queue.take(k - 1).contains(j as usize) {
                let i = waiters.queue.take(k - 1).index_of(j as usize);
                assert(waiters.queue.take(k)[i] == j as usize);
            }
        }
    } else {
        assert(waiters.queue.skip(0) =~= waiters.queue);
    }
}

/// The list after one waiter has been woken with each of `outputs`, in turn.
pub open spec fn wake_all<I, O>(waiters: Waiters<I, O>, outputs: Seq<O>) -> Waiters<I, O>
    decreases outputs.len(),
{
    if outputs.len() == 0 {
        waiters
    } else {
        wake_all(waiters, outputs.drop_last()).woken(outputs.last())
    }
}

/// What happens to one waiter leaves the waiters in other slots as they are.
pub proof fn law_waiters_are_independent<I, O>(
    waiters: Waiters<I, O>,
    id: usize,
    input: I,
    waker: Waker,
    other: usize,
)
    requires
        waiters.occupied(other),
        id <= waiters.slots.len(),
        id != other,
    ensures
        waiters.vacant(id) ==> waiters.enqueued(id, input, waker).slots[other as int]
            == waiters.slots[other as int],
        waiters.occupied(id) ==> {
            &&& waiters.dequeued(id).slots[other as int] == waiters.slots[other as int]
            &&& waiters.collected(id).slots[other as int] == waiters.slots[other as int]
            &&& waiters.rewakered(id, waker).slots[other as int] == waiters.slots[other as int]
        },
{
}

/// The first waiter of a queue stays first when another one joins it, and so do all others in
/// their places: whoever joins is behind everyone who is there already. It waits with the input
/// and for the task that it came with, and no other waiter changes.
pub proof fn law_joining_is_behind_everyone<I, O>(
    waiters: Waiters<I, O>,
    id: usize,
    input: I,
    waker: Waker,
)
    requires
        id <= waiters.slots.len(),
        id < waiters.slots.len() ==> waiters.slots[id as int] is Vacant,
    ensures
        waiters.vacant(id),
        ({
            let after = waiters.enqueued(id, input, waker);
            &&& after.queue.len() == waiters.queue.len() + 1
            &&& after.queue.last() == id
            &&& forall|i: int|
                0 <= i < waiters.queue.len() ==> #[trigger] after.queue[i] == waiters.queue[i]
            &&& after.slots.len() == (if id < waiters.slots.len() {
                waiters.slots.len()
            } else {
                waiters.slots.len() + 1
            })
            &&& after.slots[id as int] == (Slot::<I, O>::Waiting { input, waker })
            &&& forall|j: int|
                0 <= j < waiters.slots.len() && j != id ==> #[trigger] after.slots[j]
                    == waiters.slots[j]
        }),
{
}

/// Waking hands the output to the first waiter, which leaves the queue, and to nobody else. The
/// others move up by one place.
pub proof fn law_waking_moves_everyone_up<I, O>(waiters: Waiters<I, O>, output: O)
    requires
        waiters.inv(),
        waiters.queue.len() > 0,
    ensures
        ({
            let after = waiters.woken(output);
            &&& after.queue.len() == waiters.queue.len() - 1
            &&& forall|i: int|
                0 <= i < after.queue.len() ==> #[trigger] after.queue[i] == waiters.queue[i + 1]
            &&& after.slots.len() == waiters.slots.len()
            &&& after.slots[waiters.queue[0] as int] == (Slot::<I, O>::Woken { output })
            &&& forall|j: int|
                0 <= j < waiters.slots.len() && j != waiters.queue[0]
                    ==> #[trigger] after.slots[j] == waiters.slots[j]
        }),
{
    assert(waiters.queue[0] < waiters.slots.len());
}

/// A waiter that leaves, by collecting its output or by being cancelled, makes its slot vacant.
/// No other waiter changes, and those in the queue keep their order.
pub proof fn law_leaving_vacates_one_slot<I, O>(waiters: Waiters<I, O>, id: usize)
    requires
        waiters.inv(),
        id < waiters.slots.len(),
        !(waiters.slots[id as int] is Vacant),
    ensures
        waiters.occupied(id),
        !waiters.vacant(id),
        ({
            let after = if waiters.slots[id as int] is Waiting {
                waiters.dequeued(id)
            } else {
                waiters.collected(id)
            };
            &&& after.slots.len() == waiters.slots.len()
            &&& after.slots[id as int] is Vacant
            &&& forall|j: int|
                0 <= j < waiters.slots.len() && j != id ==> #[trigger] after.slots[j]
                    == waiters.slots[j]
            &&& after.queue == waiters.queue.filter(|other: usize| other != id)
        }),
{
    if waiters.slots[id as int] is Waiting {
        law_cancel_keeps_order(waiters, id);
    } else {
        assert forall|i: int| 0 <= i < waiters.queue.len() implies waiters.queue[i] != id by {
            assert(waiters.slots[waiters.queue[i] as int] is Waiting);
        }
        lemma_filter_all(waiters.queue, id);
    }
}

/// A waiter that is polled keeps its input and its place, and so does every other one.
pub proof fn law_polling_keeps_the_place<I, O>(
    waiters: Waiters<I, O>,
    id: usize,
    input: I,
    earlier: Waker,
    waker: Waker,
)
    requires
        id < waiters.slots.len(),
        waiters.slots[id as int] == (Slot::<I, O>::Waiting { input, waker: earlier }),
    ensures
        ({
            let after = waiters.rewakered(id, waker);
            &&& after.queue == waiters.queue
            &&& after.slots.len() == waiters.slots.len()
            &&& after.slots[id as int] == (Slot::<I, O>::Waiting { input, waker })
            &&& forall|j: int|
                0 <= j < waiters.slots.len() && j != id ==> #[trigger] after.slots[j]
                    == waiters.slots[j]
        }),
{
}

/// The head of the queue is its first waiter, and changing its input changes nothing else.
pub proof fn law_head_is_the_first_waiter<I, O>(
    waiters: Waiters<I, O>,
    input: I,
    waker: Waker,
    another: I,
)
    requires
        waiters.queue.len() > 0,
        waiters.queue[0] < waiters.slots.len(),
        waiters.slots[waiters.queue[0] as int] == (Slot::<I, O>::Waiting { input, waker }),
    ensures
        waiters.input(0) == input,
        waiters.waker(0) == waker,
        ({
            let after = waiters.with_head_input(another);
            &&& after.queue == waiters.queue
            &&& after.slots.len() == waiters.slots.len()
            &&& after.slots[waiters.queue[0] as int] == (Slot::<I, O>::Waiting {
                input: another,
                waker,
            })
            &&& forall|j: int|
                0 <= j < waiters.slots.len() && j != waiters.queue[0]
                    ==> #[trigger] after.slots[j] == waiters.slots[j]
        }),
{
}

/// Every waiter that has not been woken is in the queue, in one place. A new list has no waiters.
pub proof fn law_queue_holds_the_waiting<I, O>(waiters: Waiters<I, O>)
    requires
        waiters.inv(),
    ensures
        forall|i: int, j: int|
            0 <= i < j < waiters.queue.len() ==> waiters.queue[i] != waiters.queue[j],
        forall|i: int|
            0 <= i < waiters.queue.len() ==> (#[trigger] waiters.queue[i]) < waiters.slots.len()
                && waiters.slots[waiters.queue[i] as int] is Waiting,
        forall|j: int|
            0 <= j < waiters.slots.len() && (#[trigger] waiters.slots[j]) is Waiting
                ==> exists|i: int| 0 <= i < waiters.queue.len() && waiters.queue[i] == j,
        Waiters::<I, O>::empty().slots.len() == 0,
        Waiters::<I, O>::empty().queue.len() == 0,
{
    assert forall|j: int|
        0 <= j < waiters.slots.len() && (#[trigger] waiters.slots[j]) is Waiting implies exists|
        i: int,
    | 0 <= i < waiters.queue.len() && waiters.queue[i] == j by {
        let i = waiters.queue.index_of(j as usize);
        assert(waiters.queue[i] == j);
    }
}

/// What may happen to a wait list.
pub enum Event<I, O> {
    /// A waiter joins, in slot `id`.
    Join { id: usize, input: I, waker: Waker },
    /// The waiter in slot `id`, which has not been woken, is polled.
    Poll { id: usize, waker: Waker },
    /// A waiter is woken, and it is the one in slot `id`.
    Wake { id: usize, output: O },
    /// The woken waiter in slot `id` collects its output, or is cancelled.
    Collect { id: usize },
    /// The waiter in slot `id`, which has not been woken, is cancelled.
    Leave { id: usize },
}

/// A wait list in which every waiter draws a number when it joins.
pub struct Line<I, O> {
    /// The contents of the list.
    pub waiters: Waiters<I, O>,
    /// How many waiters have joined, which is the next number.
    pub joined: int,
    /// The number of the waiter in each slot.
    pub number: Map<usize, int>,
    /// The numbers of the waiters that have been woken, in the order in which they were.
    pub woken: Seq<int>,
    /// How many waiters have been cancelled before they were woken.
    pub left: int,
}

/// What an event does to a line.
pub open spec fn goes<I, O>(before: Line<I, O>, after: Line<I, O>, event: Event<I, O>) -> bool {
    let waiters = before.waiters;
    match event {
        Event::Join { id, input, waker } => {
            &&& waiters.vacant(id)
            &&& waiters.slots.len() < usize::MAX
            &&& after == Line {
                waiters: waiters.enqueued(id, input, waker),
                joined: before.joined + 1,
                number: before.number.insert(id, before.joined),
                ..before
            }
        },
        Event::Poll { id, waker } => {
            &&& id < waiters.slots.len()
            &&& waiters.slots[id as int] is Waiting
            &&& after == Line { waiters: waiters.rewakered(id, waker), ..before }
        },
        Event::Wake { id, output } => {
            &&& id < waiters.slots.len()
            &&& waiters.slots[id as int] is Waiting
            &&& waiters.woken(output).slots[id as int] is Woken
            &&& after == Line {
                waiters: waiters.woken(output),
                woken: before.woken.push(before.number[id]),
                ..before
            }
        },
        Event::Collect { id } => {
            &&& id < waiters.slots.len()
            &&& waiters.slots[id as int] is Woken
            &&& after == Line { waiters: waiters.collected(id), ..before }
        },
        Event::Leave { id } => {
            &&& id < waiters.slots.len()
            &&& waiters.slots[id as int] is Waiting
            &&& after == Line {
                waiters: waiters.dequeued(id),
                left: before.left + 1,
                ..before
            }
        },
    }
}

/// A wait list goes through `lines` after it has been created.
pub open spec fn list_run<I, O>(lines: Seq<Line<I, O>>, events: Seq<Event<I, O>>) -> bool {
    &&& lines.len() == events.len() + 1
    &&& lines[0].waiters == Waiters::<I, O>::empty()
    &&& lines[0].joined == 0
    &&& lines[0].woken.len() == 0
    &&& lines[0].left == 0
    &&& forall|j: int| 0 <= j < events.len() ==> goes(lines[j], lines[j + 1], #[trigger] events[j])
}

/// Over any run of joining, polling, waking and cancelling, waiters are woken in the order in
/// which they joined: of those that have been woken, one that was woken earlier had joined
/// earlier, and whoever still waits joined after all of them. Those in the queue stand in the
/// order in which they joined. If nobody was cancelled, the waiter that was woken in the n-th
/// place is the one that joined in the n-th place.
pub proof fn law_waiters_are_woken_as_they_joined<I, O>(
    lines: Seq<Line<I, O>>,
    events: Seq<Event<I, O>>,
)
    requires
        list_run(lines, events),
    ensures
        ({
            let last = lines.last();
            let queue = last.waiters.queue;
            &&& forall|a: int, b: int|
                0 <= a < b < last.woken.len() ==> last.woken[a] < last.woken[b]
            &&& forall|a: int, j: int|
                0 <= a < last.woken.len() && 0 <= j < last.waiters.slots.len() && (
                #[trigger] last.waiters.slots[j]) is Waiting ==> #[trigger] last.woken[a]
                    < last.number[j as usize]
            &&& forall|a: int, b: int|
                0 <= a < b < queue.len() ==> last.number[#[trigger] queue[a]]
                    < last.number[#[trigger] queue[b]]
            &&& last.left == 0 ==> forall|a: int|
                0 <= a < last.woken.len() ==> #[trigger] last.woken[a] == a
            &&& last.left == 0 ==> last.woken.len() + queue.len() == last.joined
        }),
{
    lemma_list_run(lines, events);
    let last = lines.last();
    assert forall|a: int, j: int|
        0 <= a < last.woken.len() && 0 <= j < last.waiters.slots.len() && (
        #[trigger] last.waiters.slots[j]) is Waiting implies #[trigger] last.woken[a]
        < last.number[j as usize] by {
        let i = last.waiters.queue.index_of(j as usize);
        assert(last.waiters.queue[i] == j as usize);
    }
}

/// What holds of every line of a run.
spec fn line_ok<I, O>(line: Line<I, O>) -> bool {
    let queue = line.waiters.queue;
    &&& line.waiters.inv()
    &&& line.left >= 0
    &&& forall|a: int, b: int| 0 <= a < b < line.woken.len() ==> line.woken[a] < line.woken[b]
    &&& forall|a: int| 0 <= a < line.woken.len() ==> #[trigger] line.woken[a] < line.joined
    &&& forall|a: int, b: int|
        0 <= a < b < queue.len() ==> line.number[#[trigger] queue[a]]
            < line.number[#[trigger] queue[b]]
    &&& forall|a: int| 0 <= a < queue.len() ==> line.number[#[trigger] queue[a]] < line.joined
    &&& forall|a: int, b: int|
        0 <= a < line.woken.len() && 0 <= b < queue.len() ==> #[trigger] line.woken[a]
            < line.number[#[trigger] queue[b]]
    &&& line.left == 0 ==> {
        &&& line.woken.len() + queue.len() == line.joined
        &&& forall|a: int| 0 <= a < line.woken.len() ==> #[trigger] line.woken[a] == a
        &&& forall|b: int|
            0 <= b < queue.len() ==> line.number[#[trigger] queue[b]] == line.woken.len() + b
    }
}

proof fn lemma_list_run<I, O>(lines: Seq<Line<I, O>>, events: Seq<Event<I, O>>)
    requires
        list_run(lines, events),
    ensures
        line_ok(lines.last()),
    decreases events.len(),
{
    if events.len() > 0 {
        let n = events.len() - 1;
        let front = lines.drop_last();
        let earlier = events.drop_last();
        assert forall|j: int| 0 <= j < earlier.len() implies goes(
            front[j],
            front[j + 1],
            #[trigger] earlier[j],
        ) by {
            assert(goes(lines[j], lines[j + 1], events[j]));
        }
        assert(front[0] == lines[0]);
        lemma_list_run(front, earlier);
        assert(goes(lines[n], lines[n + 1], events[n]));
        lemma_goes(lines[n], lines[n + 1], events[n]);
    }
}

proof fn lemma_goes<I, O>(before: Line<I, O>, after: Line<I, O>, event: Event<I, O>)
    requires
        line_ok(before),
        goes(before, after, event),
    ensures
        line_ok(after),
{
    let waiters = before.waiters;
    let queue = waiters.queue;
    match event {
        Event::Join { id, input, waker } => {
            law_enqueue_keeps_inv(waiters, id, input, waker);
            law_joining_is_behind_everyone(waiters, id, input, waker);
            assert forall|i: int| 0 <= i < queue.len() implies #[trigger] queue[i] != id by {
                assert(waiters.slots[queue[i] as int] is Waiting);
            }
            assert forall|i: int| 0 <= i < queue.len() implies
                after.number[#[trigger] after.waiters.queue[i]] == before.number[queue[i]] by {
                assert(queue[i] != id);
            }
        },
        Event::Poll { id, waker } => {
            law_poll_keeps_inv(waiters, id, waker);
        },
        Event::Wake { id, output } => {
            assert(queue.contains(id));
            law_wake_keeps_inv(waiters, output);
            law_waking_moves_everyone_up(waiters, output);
            assert(id == queue[0]);
            assert forall|i: int| 0 <= i < after.waiters.queue.len() implies
                #[trigger] after.waiters.queue[i] == queue[i + 1] by {}
        },
        Event::Collect { id } => {
            law_collect_keeps_inv(waiters, id);
        },
        Event::Leave { id } => {
            law_dequeue_keeps_inv(waiters, id);
            assert(queue.contains(id));
            let k = queue.index_of(id);
            assert forall|i: int| 0 <= i < after.waiters.queue.len() implies
                #[trigger] after.waiters.queue[i] == queue[if i < k {
                i
            } else {
                i + 1
            }] by {}
        },
    }
}

/// The value that a waiter holds.
enum State<I, O> {
    /// The waiter has not been woken; its waker is `Some`.
    Input(I),
    /// The waiter has been woken; its waker is `None`.
    Output(O),
}

/// A waiter, and its place in the queue.
struct Waiter<I, O> {
    /// The next waiter in the queue.
    next: Option<usize>,
    /// The previous waiter in the queue.
    prev: Option<usize>,
    /// The input or the output of the waiter.
    state: State<I, O>,
    /// The waker of the waiting task, or `None` once the waiter has been woken
    /// and dequeued.
    waker: Option<Waker>,
}

/// The slot before place `i` in `order`.
spec fn prev_of(order: Seq<usize>, i: int) -> Option<usize> {
    if i == 0 {
        None
    } else {
        Some(order[i - 1])
    }
}

/// The slot after place `i` in `order`.
spec fn next_of(order: Seq<usize>, i: int) -> Option<usize> {
    if i + 1 == order.len() {
        None
    } else {
        Some(order[i + 1])
    }
}

/// The linked list of waiters.
struct Inner<I, O> {
    /// The head of the queue; the oldest waiter.
    head: Option<usize>,
    /// The tail of the queue; the newest waiter.
    tail: Option<usize>,
    /// The waiters, in the queue or woken.
    slots: Vec<Option<Waiter<I, O>>>,
    /// Slots that hold no waiter.
    free: Vec<usize>,
    /// The slots that following `next` from `head` leads through.
    order: Ghost<Seq<usize>>,
}

spec fn slot_view<I, O>(slot: Option<Waiter<I, O>>) -> Slot<I, O> {
    match slot {
        None => Slot::Vacant,
        Some(waiter) => match waiter.state {
            State::Input(input) => Slot::Waiting { input, waker: waiter.waker->0 },
            State::Output(output) => Slot::Woken { output },
        },
    }
}

impl<I, O> Inner<I, O> {
    spec fn view(self) -> Waiters<I, O> {
        Waiters {
            slots: Seq::new(self.slots@.len(), |j: int| slot_view(self.slots@[j])),
            queue: self.order@,
        }
    }

    /// The waiter in slot `id`.
    spec fn waiter(self, id: usize) -> Waiter<I, O> {
        self.slots@[id as int]->0
    }

    spec fn node_linked(self, i: int) -> bool {
        let id = self.order@[i];
        &&& id < self.slots@.len()
        &&& self.slots@[id as int] is Some
        &&& self.waiter(id).prev == prev_of(self.order@, i)
        &&& self.waiter(id).next == next_of(self.order@, i)
    }

    /// The pointers link the slots of `order` both ways, in that order.
    spec fn linked(self) -> bool {
        let order = self.order@;
        &&& order.no_duplicates()
        &&& forall|i: int| 0 <= i < order.len() ==> #[trigger] self.node_linked(i)
        &&& self.head == (if order.len() == 0 {
            None
        } else {
            Some(order[0])
        })
        &&& self.tail == (if order.len() == 0 {
            None
        } else {
            Some(order[order.len() - 1])
        })
    }

    /// Every slot on the free list is free.
    spec fn free_ok(self) -> bool {
        &&& self.free@.no_duplicates()
        &&& forall|i: int|
            0 <= i < self.free@.len() ==> (#[trigger] self.free@[i]) < self.slots@.len()
                && self.slots@[self.free@[i] as int] is None
    }

    /// A waiter that has not been woken is in the queue, and has a waker and an
    /// input; a woken one is not, and has an output.
    spec fn states_ok(self) -> bool {
        forall|j: int|
            0 <= j < self.slots@.len() && (#[trigger] self.slots@[j]) is Some ==> {
                &&& (self.slots@[j]->0.waker is Some <==> self.order@.contains(j as usize))
                &&& (self.slots@[j]->0.waker is Some <==> self.slots@[j]->0.state is Input)
            }
    }

    spec fn wf(self) -> bool {
        &&& self.linked()
        &&& self.free_ok()
        &&& self.states_ok()
    }

    proof fn lemma_inv(self)
        requires
            self.wf(),
        ensures
            self@.inv(),
    {
        let v = self@;
        assert forall|i: int| 0 <= i < v.queue.len() implies (#[trigger] v.queue[i])
            < v.slots.len() && v.slots[v.queue[i] as int] is Waiting by {
            assert(self.node_linked(i));
            let id = self.order@[i];
            assert(self.order@.contains(id));
            assert(self.slots@[id as int] is Some);
        }
        assert(self.slots.len() == self.slots@.len());
        assert forall|j: int| 0 <= j < v.slots.len() && (#[trigger] v.slots[j]) is Waiting implies
            v.queue.contains(j as usize) by {
            assert(self.slots@[j] is Some);
        }
    }

    /// `after` is this list with another input for the head waiter.
    spec fn differs_in_head_input(self, after: Self, input: I) -> bool {
        &&& after == (Inner { slots: after.slots, ..self })
        &&& after.slots@ == self.slots@.update(
            self.order@[0] as int,
            Some(Waiter { state: State::Input(input), ..self.waiter(self.order@[0]) }),
        )
    }

    /// Giving the head waiter another input changes nothing else.
    proof fn lemma_head_input(self, after: Self, input: I)
        requires
            self.wf(),
            self.order@.len() > 0,
            self.differs_in_head_input(after, input),
        ensures
            after.wf(),
            after@.inv(),
            after@ == self@.with_head_input(input),
    {
        assert(self.node_linked(0));
        assert(self.order@.contains(self.order@[0]));
        assert forall|i: int| 0 <= i < after.order@.len() implies #[trigger] after.node_linked(
            i,
        ) by {
            assert(self.node_linked(i));
        }
        assert forall|j: int|
            0 <= j < after.slots@.len() && (#[trigger] after.slots@[j]) is Some implies {
            &&& (after.slots@[j]->0.waker is Some <==> after.order@.contains(j as usize))
            &&& (after.slots@[j]->0.waker is Some <==> after.slots@[j]->0.state is Input)
        } by {
            assert(self.slots@[j] is Some);
        }
        after.lemma_inv();
        assert(after@.slots =~= self@.with_head_input(input).slots);
    }

    /// Points the waiter in slot `id` at `next`.
    fn set_next(&mut self, id: usize, next: Option<usize>)
        requires
            id < old(self).slots@.len(),
            old(self).slots@[id as int] is Some,
        ensures
            *final(self) == (Inner { slots: final(self).slots, ..*old(self) }),
            final(self).slots@ == old(self).slots@.update(
                id as int,
                Some(Waiter { next, ..old(self).waiter(id) }),
            ),
    {
        match &mut self.slots[id] {
            Some(waiter) => {
                waiter.next = next;
            },
            None => {},
        }
    }

    /// Points the waiter in slot `id` back at `prev`.
    fn set_prev(&mut self, id: usize, prev: Option<usize>)
        requires
            id < old(self).slots@.len(),
            old(self).slots@[id as int] is Some,
        ensures
            *final(self) == (Inner { slots: final(self).slots, ..*old(self) }),
            final(self).slots@ == old(self).slots@.update(
                id as int,
                Some(Waiter { prev, ..old(self).waiter(id) }),
            ),
    {
        match &mut self.slots[id] {
            Some(waiter) => {
                waiter.prev = prev;
            },
            None => {},
        }
    }
}

/// The borrowed contents of a [`WaitList`].
///
/// For a given `WaitList` only one of these may exist at once.
pub struct Borrowed<I, O> {
    inner: Inner<I, O>,
}

impl<I, O> View for Borrowed<I, O> {
    type V = Waiters<I, O>;

    closed spec fn view(&self) -> Waiters<I, O> {
        self.inner@
    }
}

impl<I, O> Borrowed<I, O> {
    /// The pointers of the linked list agree with the contents.
    pub closed spec fn linked(&self) -> bool {
        self.inner.wf()
    }

    pub open spec fn wf(&self) -> bool {
        self.linked() && self@.inv()
    }

    /// Adds a waiter to the end of the linked list, and returns its slot.
    fn enqueue(&mut self, input: I, waker: Waker) -> (id: usize)
        requires
            old(self).wf(),
        ensures
            final(self).wf(),
            old(self)@.vacant(id),
            final(self)@ == old(self)@.enqueued(id, input, waker),
    {
        let ghost before = self.inner;
        let ghost order = self.inner.order@;
        let tail = self.inner.tail;
        let waiter = Waiter {
            next: None,
            // The previous waiter is the current tail of the queue, if there is one.
            prev: tail,
            state: State::Input(input),
            waker: Some(waker),
        };
        let id = match self.inner.free.pop() {
            Some(id) => {
                self.inner.slots.set(id, Some(waiter));
                id
            },
            None => {
                let id = self.inner.slots.len();
                self.inner.slots.push(Some(waiter));
                id
            },
        };
        // Update the old tail's next pointer.
        if let Some(prev) = tail {
            proof {
                assert(before.node_linked(order.len() - 1));
            }
            self.inner.set_next(prev, Some(id));
        }
        // Set the waiter as the new tail of the linked list.
        self.inner.tail = Some(id);
        // Also set it as the head if there isn't currently a head.
        if self.inner.head.is_none() {
            self.inner.head = Some(id);
        }
        self.inner.order = Ghost(order.push(id));
        proof {
            assert(!order.contains(id)) by {
                if order.contains(id) {
                    let i = choose|i: int| 0 <= i < order.len() && order[i] == id;
                    assert(before.node_linked(i));
                }
            }
            let after = self.inner;
            assert forall|i: int| 0 <= i < after.order@.len() implies #[trigger] after.node_linked(
                i,
            ) by {
                if i < order.len() {
                    assert(before.node_linked(i));
                }
            }
            assert forall|j: int|
                0 <= j < after.slots@.len() && (#[trigger] after.slots@[j]) is Some implies {
                &&& (after.slots@[j]->0.waker is Some <==> after.order@.contains(j as usize))
                &&& (after.slots@[j]->0.waker is Some <==> after.slots@[j]->0.state is Input)
            } by {
                assert(after.order@[order.len() as int] == id);
                assert(after.slots.len() == after.slots@.len());
                if j != id {
                    assert(before.slots@[j] is Some);
                    if order.contains(j as usize) {
                        let i = choose|i: int| 0 <= i < order.len() && order[i] == j as usize;
                        assert(after.order@[i] == j as usize);
                    }
                    if after.order@.contains(j as usize) {
                        let i = choose|i: int|
                            0 <= i < after.order@.len() && after.order@[i] == j as usize;
                        assert(order[i] == j as usize);
                    }
                }
            }
            assert(after.linked());
            assert(after.free_ok());
            after.lemma_inv();
            assert(self@.slots =~= old(self)@.enqueued(id, input, waker).slots);
        }
        id
    }

    /// Takes a waiter out of an arbitrary position in the linked list. Its slot
    /// keeps what it holds.
    fn dequeue(&mut self, id: usize)
        requires
            old(self).inner.linked(),
            old(self).inner.order@.contains(id),
        ensures
            final(self).inner.linked(),
            final(self).inner.order@ == old(self).inner.order@.remove(
                old(self).inner.order@.index_of(id),
            ),
            final(self).inner.free == old(self).inner.free,
            final(self).inner.slots@.len() == old(self).inner.slots@.len(),
            forall|j: int|
                0 <= j < old(self).inner.slots@.len() ==> {
                    let before = old(self).inner.slots@[j];
                    let after = #[trigger] final(self).inner.slots@[j];
                    match before {
                        None => after is None,
                        Some(waiter) => after is Some && after->0.state == waiter.state
                            && after->0.waker == waiter.waker,
                    }
                },
    {
        let ghost before = self.inner;
        let ghost order = self.inner.order@;
        let ghost k = order.index_of(id);
        proof {
            assert(before.node_linked(k));
            if k > 0 {
                assert(before.node_linked(k - 1));
            }
            if k + 1 < order.len() {
                assert(before.node_linked(k + 1));
            }
        }
        let (prev, next) = match &self.inner.slots[id] {
            Some(waiter) => (waiter.prev, waiter.next),
            None => (None, None),
        };
        // Update the pointer of the previous node, or the queue head.
        match prev {
            Some(prev) => self.inner.set_next(prev, next),
            None => {
                self.inner.head = next;
            },
        }
        // Update the pointer of the next node, or the queue tail.
        match next {
            Some(next) => self.inner.set_prev(next, prev),
            None => {
                self.inner.tail = prev;
            },
        }
        self.inner.order = Ghost(order.remove(k));
        proof {
            let after = self.inner;
            assert forall|i: int| 0 <= i < after.order@.len() implies #[trigger] after.node_linked(
                i,
            ) by {
                if i < k {
                    assert(before.node_linked(i));
                } else {
                    assert(before.node_linked(i + 1));
                }
            }
        }
    }

    /// Hands over the output of the waiter in slot `id`, and frees the slot, if
    /// the waiter has been woken.
    fn collect(&mut self, id: usize) -> (output: Option<O>)
        requires
            old(self).wf(),
            old(self)@.occupied(id),
        ensures
            final(self).wf(),
            match output {
                Some(output) => {
                    &&& old(self)@.slots[id as int] == (Slot::<I, O>::Woken { output })
                    &&& final(self)@ == old(self)@.collected(id)
                },
                None => {
                    &&& old(self)@.slots[id as int] is Waiting
                    &&& *final(self) == *old(self)
                },
            },
    {
        let woken = match &self.inner.slots[id] {
            Some(waiter) => waiter.waker.is_none(),
            None => false,
        };
        if !woken {
            return None;
        }
        let ghost before = self.inner;
        let mut slot: Option<Waiter<I, O>> = None;
        std::mem::swap(&mut slot, &mut self.inner.slots[id]);
        self.inner.free.push(id);
        proof {
            let after = self.inner;
            assert forall|i: int| 0 <= i < after.order@.len() implies #[trigger] after.node_linked(
                i,
            ) by {
                assert(before.node_linked(i));
                assert(before.order@.contains(before.order@[i]));
            }
            assert forall|j: int|
                0 <= j < after.slots@.len() && (#[trigger] after.slots@[j]) is Some implies {
                &&& (after.slots@[j]->0.waker is Some <==> after.order@.contains(j as usize))
                &&& (after.slots@[j]->0.waker is Some <==> after.slots@[j]->0.state is Input)
            } by {
                assert(before.slots@[j] is Some);
            }
            after.lemma_inv();
            assert(self@.slots =~= old(self)@.collected(id).slots);
        }
        match slot {
            Some(waiter) => match waiter.state {
                State::Output(output) => Some(output),
                State::Input(_) => None,
            },
            None => None,
        }
    }

    /// Makes the waiter in slot `id`, which is in the queue, wake the task of `waker`.
    fn reregister(&mut self, id: usize, waker: &Waker)
        requires
            old(self).wf(),
            old(self)@.occupied(id),
            old(self)@.slots[id as int] is Waiting,
        ensures
            final(self).wf(),
            final(self)@ == old(self)@.rewakered(id, *waker),
    {
        let ghost before = self.inner;
        if let Some(waiter) = &mut self.inner.slots[id] {
            register(&mut waiter.waker, waker);
        }
        proof {
            let after = self.inner;
            assert forall|i: int| 0 <= i < after.order@.len() implies #[trigger] after.node_linked(
                i,
            ) by {
                assert(before.node_linked(i));
            }
            assert forall|j: int|
                0 <= j < after.slots@.len() && (#[trigger] after.slots@[j]) is Some implies {
                &&& (after.slots@[j]->0.waker is Some <==> after.order@.contains(j as usize))
                &&& (after.slots@[j]->0.waker is Some <==> after.slots@[j]->0.state is Input)
            } by {
                assert(before.slots@[j] is Some);
            }
            after.lemma_inv();
            assert(self@.slots =~= old(self)@.rewakered(id, *waker).slots);
        }
    }

    /// Removes the waiter in slot `id`, which is in the queue, and frees the slot.
    fn withdraw(&mut self, id: usize)
        requires
            old(self).wf(),
            old(self)@.occupied(id),
            old(self)@.slots[id as int] is Waiting,
        ensures
            final(self).wf(),
            final(self)@ == old(self)@.dequeued(id),
    {
        let ghost before = self.inner;
        let ghost order = self.inner.order@;
        let ghost k = order.index_of(id);
        self.dequeue(id);
        let ghost middle = self.inner;
        self.inner.slots.set(id, None);
        self.inner.free.push(id);
        proof {
            let after = self.inner;
            assert(after.slots.len() == after.slots@.len());
            assert forall|i: int| 0 <= i < after.order@.len() implies #[trigger] after.node_linked(
                i,
            ) by {
                assert(middle.node_linked(i));
                let was = if i < k {
                    i
                } else {
                    i + 1
                };
                assert(after.order@[i] == order[was]);
            }
            assert forall|j: int|
                0 <= j < after.slots@.len() && (#[trigger] after.slots@[j]) is Some implies {
                &&& (after.slots@[j]->0.waker is Some <==> after.order@.contains(j as usize))
                &&& (after.slots@[j]->0.waker is Some <==> after.slots@[j]->0.state is Input)
            } by {
                assert(middle.slots@[j] is Some);
                assert(before.slots@[j] is Some);
                if order.contains(j as usize) {
                    let i = order.index_of(j as usize);
                    if i < k {
                        assert(after.order@[i] == j as usize);
                    } else {
                        assert(after.order@[i - 1] == j as usize);
                    }
                }
                if after.order@.contains(j as usize) {
                    let i = after.order@.index_of(j as usize);
                    if i < k {
                        assert(order[i] == j as usize);
                    } else {
                        assert(order[i + 1] == j as usize);
                    }
                }
            }
            assert forall|i: int| 0 <= i < after.free@.len() implies (#[trigger] after.free@[i])
                < after.slots@.len() && after.slots@[after.free@[i] as int] is None by {
                if i < before.free@.len() {
                    assert(before.free@[i] < before.slots@.len());
                    assert(middle.slots@[before.free@[i] as int] is None);
                }
            }
            after.lemma_inv();
            assert(self@.slots =~= old(self)@.dequeued(id).slots);
        }
    }

    /// Check whether there are any futures waiting in this list.
    #[must_use]
    pub fn is_empty(&self) -> (empty: bool)
        requires
            self.wf(),
        ensures
            empty == (self@.queue.len() == 0),
    {
        self.inner.head.is_none()
    }

    /// Retrieve a shared reference to the input given by the head entry in the list, if there is
    /// one.
    #[must_use]
    pub fn head_input(&self) -> (input: Option<&I>)
        requires
            self.wf(),
        ensures
            match input {
                Some(input) => self@.queue.len() > 0 && *input == self@.input(0),
                None => self@.queue.len() == 0,
            },
    {
        match self.inner.head {
            Some(head) => {
                proof {
                    assert(self.inner.node_linked(0));
                    assert(self.inner.order@.contains(head));
                }
                match &self.inner.slots[head] {
                    Some(waiter) => match &waiter.state {
                        State::Input(input) => Some(input),
                        State::Output(_) => None,
                    },
                    None => None,
                }
            },
            None => None,
        }
    }

    /// Retrieve a unique reference to the input given by the head entry in the list, if there is
    /// one.
    #[must_use]
    pub fn head_input_mut(&mut self) -> (input: Option<&mut I>)
        requires
            old(self).wf(),
        ensures
            final(self).wf(),
            match input {
                Some(input) => {
                    &&& old(self)@.queue.len() > 0
                    &&& *input == old(self)@.input(0)
                    &&& final(self)@ == old(self)@.with_head_input(*final(input))
                },
                None => old(self)@.queue.len() == 0 && final(self)@ == old(self)@,
            },
    {
        match self.inner.head {
            Some(head) => {
                proof {
                    assert(self.inner.node_linked(0));
                    assert(self.inner.order@.contains(head));
                    let before = self.inner;
                    assert forall|after: Inner<I, O>|
                        #![trigger after.wf()]
                        #![trigger after@]
                        before.differs_in_head_input(
                            after,
                            after.waiter(head).state->Input_0,
                        ) implies after.wf() && after@.inv() && after@ == before@.with_head_input(
                        after.waiter(head).state->Input_0,
                    ) by {
                        before.lemma_head_input(after, after.waiter(head).state->Input_0);
                    }
                }
                match &mut self.inner.slots[head] {
                    Some(waiter) => match &mut waiter.state {
                        State::Input(input) => Some(input),
                        State::Output(_) => None,
                    },
                    None => None,
                }
            },
            None => None,
        }
    }

    /// Wake and dequeue the first waiter in the queue, handing it `output`.
    ///
    /// Its waker is appended to `wakes` and its input is dropped. If there is no
    /// waiter in the queue, `output` is given back.
    pub fn wake_one(&mut self, output: O, wakes: &mut Vec<Waker>) -> (result: Result<(), O>)
        requires
            old(self).wf(),
        ensures
            final(self).wf(),
            match result {
                Ok(()) => {
                    &&& old(self)@.queue.len() > 0
                    &&& final(self)@ == old(self)@.woken(output)
                    &&& final(wakes)@ == old(wakes)@.push(old(self)@.waker(0))
                },
                Err(returned) => {
                    &&& old(self)@.queue.len() == 0
                    &&& returned == output
                    &&& final(self)@ == old(self)@
                    &&& final(wakes)@ == old(wakes)@
                },
            },
    {
        let head = match self.inner.head {
            Some(head) => head,
            None => {
                return Err(output);
            },
        };
        let ghost before = self.inner;
        let ghost order = self.inner.order@;
        proof {
            assert(before.node_linked(0));
            assert(order.contains(head));
            assert(order.index_of(head) == 0);
        }
        // Take the `Waker`, both for later waking and to mark it as woken, and
        // replace the old input with our output.
        if let Some(waiter) = &mut self.inner.slots[head] {
            if let Some(waker) = waiter.waker.take() {
                wakes.push(waker);
            }
            waiter.state = State::Output(output);
        }
        let ghost middle = self.inner;
        proof {
            assert forall|i: int| 0 <= i < order.len() implies #[trigger] middle.node_linked(i) by {
                assert(before.node_linked(i));
            }
        }
        // Dequeue the first waiter now that it's not necessary to keep it in the queue.
        self.dequeue(head);
        proof {
            let after = self.inner;
            assert(after.order@ =~= order.drop_first());
            assert(after.slots.len() == after.slots@.len());
            assert forall|j: int|
                0 <= j < after.slots@.len() && (#[trigger] after.slots@[j]) is Some implies {
                &&& (after.slots@[j]->0.waker is Some <==> after.order@.contains(j as usize))
                &&& (after.slots@[j]->0.waker is Some <==> after.slots@[j]->0.state is Input)
            } by {
                assert(middle.slots@[j] is Some);
                assert(before.slots@[j] is Some);
                if order.contains(j as usize) && j != head {
                    let i = choose|i: int| 0 <= i < order.len() && order[i] == j as usize;
                    assert(after.order@[i - 1] == j as usize);
                }
                if after.order@.contains(j as usize) {
                    let i = choose|i: int|
                        0 <= i < after.order@.len() && after.order@[i] == j as usize;
                    assert(order[i + 1] == j as usize);
                }
            }
            assert forall|i: int| 0 <= i < after.free@.len() implies (#[trigger] after.free@[i])
                < after.slots@.len() && after.slots@[after.free@[i] as int] is None by {
                assert(before.free@[i] < before.slots@.len());
            }
            after.lemma_inv();
            assert(self@.slots =~= old(self)@.woken(output).slots);
        }
        Ok(())
    }
}

/// A list of futures waiting on an event.
///
/// This is the most fundamental primitive to many of the synchronization utilities provided by
/// this crate.
pub struct WaitList<I, O> {
    /// The contents of the list, or `None` while they are borrowed.
    inner: Option<Inner<I, O>>,
}

impl<I, O> View for WaitList<I, O> {
    type V = Waiters<I, O>;

    closed spec fn view(&self) -> Waiters<I, O> {
        self.inner->0@
    }
}

impl<I, O> WaitList<I, O> {
    /// Whether the contents of the list are currently borrowed.
    pub closed spec fn is_borrowed(&self) -> bool {
        self.inner is None
    }

    /// The pointers of the linked list agree with the contents.
    pub closed spec fn linked(&self) -> bool {
        self.inner is Some ==> self.inner->0.wf()
    }

    pub open spec fn wf(&self) -> bool {
        self.linked() && (!self.is_borrowed() ==> self@.inv())
    }

    /// Create a new empty `WaitList`.
    #[must_use]
    pub fn new() -> (list: Self)
        ensures
            list.wf(),
            !list.is_borrowed(),
            list@ == Waiters::<I, O>::empty(),
    {
        let inner = Inner {
            head: None,
            tail: None,
            slots: Vec::new(),
            free: Vec::new(),
            order: Ghost(Seq::empty()),
        };
        proof {
            inner.lemma_inv();
            assert(inner@.slots =~= Seq::empty());
        }
        Self { inner: Some(inner) }
    }

    /// Attempt to borrow uniquely the contents of this list, returning [`None`] if it is already
    /// currently borrowed.
    ///
    /// The borrow lasts until it is given back with [`WaitList::release`].
    #[must_use]
    pub fn try_borrow(&mut self) -> (borrowed: Option<Borrowed<I, O>>)
        requires
            old(self).wf(),
        ensures
            final(self).wf(),
            final(self).is_borrowed(),
            match borrowed {
                Some(borrowed) => {
                    &&& !old(self).is_borrowed()
                    &&& borrowed.wf()
                    &&& borrowed@ == old(self)@
                },
                None => old(self).is_borrowed(),
            },
    {
        match self.inner.take() {
            Some(inner) => Some(Borrowed { inner }),
            None => None,
        }
    }

    /// Borrow uniquely the contents of this list, which is not borrowed already.
    ///
    /// The borrow lasts until it is given back with [`WaitList::release`].
    #[must_use]
    pub fn borrow(&mut self) -> (borrowed: Borrowed<I, O>)
        requires
            old(self).wf(),
            !old(self).is_borrowed(),
        ensures
            final(self).wf(),
            final(self).is_borrowed(),
            borrowed.wf(),
            borrowed@ == old(self)@,
    {
        self.try_borrow().unwrap()
    }

    /// End a borrow of this list.
    pub fn release(&mut self, borrowed: Borrowed<I, O>)
        requires
            old(self).is_borrowed(),
            borrowed.wf(),
        ensures
            final(self).wf(),
            !final(self).is_borrowed(),
            final(self)@ == borrowed@,
    {
        self.inner = Some(borrowed.inner);
    }

    /// Wait on the wait list.
    ///
    /// The returned future joins the queue when it is first polled, and resolves once
    /// [`Borrowed::wake_one`] is called and it is at the front of the queue.
    pub fn wait(&self, input: I) -> (wait: Wait<I>)
        ensures
            wait@ == Phase::Created(input),
    {
        Wait { phase: Phase::Created(input) }
    }
}

/// How far a waiting future has come.
pub enum Phase<I> {
    /// The future has not been polled, and will join the queue with this input.
    Created(I),
    /// The future has a waiter in this slot of the list.
    Queued(usize),
    /// The future has completed.
    Done,
}

/// The future returned by [`WaitList::wait`].
pub struct Wait<I> {
    phase: Phase<I>,
}

impl<I> View for Wait<I> {
    type V = Phase<I>;

    closed spec fn view(&self) -> Phase<I> {
        self.phase
    }
}

impl<I> Wait<I> {
    /// The slot that the future refers to, if any, is one of a waiter.
    pub open spec fn valid<O>(&self, waiters: Waiters<I, O>) -> bool {
        match self@ {
            Phase::Queued(id) => waiters.occupied(id),
            _ => true,
        }
    }

    /// Whether the future has a waiter in the list.
    pub(crate) fn is_queued(&self) -> (queued: bool)
        ensures
            queued == (self@ is Queued),
    {
        matches!(self.phase, Phase::Queued(_))
    }

    /// A future that has completed.
    pub(crate) fn done() -> (wait: Self)
        ensures
            wait@ is Done,
    {
        Wait { phase: Phase::Done }
    }

    /// Poll the future with the waker of the current task.
    ///
    /// The first poll adds a waiter to the end of the queue. Later ones keep its waker up to date
    /// until it has been woken, at which point its output is handed over.
    pub fn poll<O>(&mut self, list: &mut WaitList<I, O>, waker: &Waker) -> (result: Poll<O>)
        requires
            old(list).wf(),
            !old(list).is_borrowed(),
            !(old(self)@ is Done),
            old(self).valid(old(list)@),
        ensures
            final(list).wf(),
            !final(list).is_borrowed(),
            final(self).valid(final(list)@),
            match old(self)@ {
                Phase::Created(input) => {
                    &&& result is Pending
                    &&& final(self)@ is Queued
                    &&& old(list)@.vacant(final(self)@->Queued_0)
                    &&& final(list)@ == old(list)@.enqueued(final(self)@->Queued_0, input, *waker)
                },
                Phase::Queued(id) => match old(list)@.slots[id as int] {
                    Slot::Waiting { input, .. } => {
                        &&& result is Pending
                        &&& final(self)@ == old(self)@
                        &&& final(list)@ == old(list)@.rewakered(id, *waker)
                    },
                    Slot::Woken { output } => {
                        &&& result == Poll::Ready(output)
                        &&& final(self)@ is Done
                        &&& final(list)@ == old(list)@.collected(id)
                    },
                    Slot::Vacant => false,
                },
                Phase::Done => false,
            },
    {
        let mut borrowed = list.borrow();
        let mut phase = Phase::Done;
        std::mem::swap(&mut phase, &mut self.phase);
        match phase {
            Phase::Created(input) => {
                let id = borrowed.enqueue(input, clone_waker(waker));
                list.release(borrowed);
                self.phase = Phase::Queued(id);
                Poll::Pending
            },
            Phase::Queued(id) => {
                let output = borrowed.collect(id);
                match output {
                    Some(output) => {
                        list.release(borrowed);
                        Poll::Ready(output)
                    },
                    None => {
                        borrowed.reregister(id, waker);
                        list.release(borrowed);
                        self.phase = Phase::Queued(id);
                        Poll::Pending
                    },
                }
            },
            Phase::Done => {
                list.release(borrowed);
                Poll::Pending
            },
        }
    }

    /// Drop the future before it has completed.
    ///
    /// A waiter that has not been woken leaves the queue, from whatever position it has there.
    /// If it had been woken, the output that it has not collected is returned.
    pub fn cancel<O>(self, list: &mut WaitList<I, O>) -> (output: Option<O>)
        requires
            old(list).wf(),
            !old(list).is_borrowed(),
            self.valid(old(list)@),
        ensures
            final(list).wf(),
            !final(list).is_borrowed(),
            match self@ {
                Phase::Queued(id) => match old(list)@.slots[id as int] {
                    Slot::Waiting { .. } => {
                        &&& output is None
                        &&& final(list)@ == old(list)@.dequeued(id)
                    },
                    Slot::Woken { output: left } => {
                        &&& output == Some(left)
                        &&& final(list)@ == old(list)@.collected(id)
                    },
                    Slot::Vacant => false,
                },
                _ => output is None && final(list)@ == old(list)@,
            },
    {
        match self.phase {
            Phase::Queued(id) => {
                let mut borrowed = list.borrow();
                let output = borrowed.collect(id);
                if output.is_none() {
                    borrowed.withdraw(id);
                }
                list.release(borrowed);
                output
            },
            _ => None,
        }
    }
}

} // verus!
