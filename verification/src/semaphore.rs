//! [`Semaphore`] provides an unsynchronized asynchronous semaphore for permit
//! acquisition.
use crate::task::Poll;
use crate::wait_list::{Phase, Slot, Wait, WaitList, Waiters};
use std::task::Waker;
use vstd::prelude::*;

verus! {

/// How permits are released to waiters.
#[derive(Debug, Clone, Copy)]
pub enum Fairness {
    /// Deducted up front and handed straight to the woken waiter, so no-one else
    /// can take them.
    Fair,
    /// Just made available; woken waiters re-contend for them.
    Unfair,
}

/// The value handed to a woken waiter through the wait list.
#[derive(Debug)]
pub enum WakeUp {
    /// Permits may be available; the waiter must re-contend for them, or pass the
    /// wakeup on if it is cancelled before doing so.
    Unfair,
    /// The requested permits, of which there are this many, were granted directly.
    /// The grant holds them until the waiter turns it into a `Permit`.
    Fair(usize),
}

/// The contents of a semaphore.
pub struct SemaphoreState {
    /// Which semaphore this is. Nothing is known of the identities of two semaphores, so that
    /// what belongs to one of them does not pass for what belongs to the other.
    pub identity: int,
    /// The tasks that wait for permits, each with the number that it wants.
    pub waiters: Waiters<usize, WakeUp>,
    /// The number of available permits.
    pub available: int,
    /// The number of permits there are, available or not.
    pub total: int,
}

/// The number of permits that a woken waiter in `slot` has been granted.
pub open spec fn grant(slot: Slot<usize, WakeUp>) -> int {
    match slot {
        Slot::Woken { output: WakeUp::Fair(permits) } => permits as int,
        _ => 0,
    }
}

/// The number of permits that woken waiters have been granted and have not
/// collected.
pub open spec fn granted(slots: Seq<Slot<usize, WakeUp>>) -> int
    decreases slots.len(),
{
    if slots.len() == 0 {
        0
    } else {
        granted(slots.drop_last()) + grant(slots.last())
    }
}

/// The number of permits that the first `k` waiters in the queue want.
pub open spec fn demand(waiters: Waiters<usize, WakeUp>, k: int) -> int
    decreases k,
{
    if k <= 0 {
        0
    } else {
        demand(waiters, k - 1) + waiters.input(k - 1)
    }
}

/// The number of waiters, from place `i` of the queue on, that `permits` permits
/// are enough for, taking them in turn and stopping at the first that wants more
/// than is left.
pub open spec fn served(waiters: Waiters<usize, WakeUp>, i: int, permits: int) -> int
    decreases waiters.queue.len() - i,
{
    if 0 <= i < waiters.queue.len() && waiters.input(i) <= permits {
        1 + served(waiters, i + 1, permits - waiters.input(i))
    } else {
        0
    }
}

/// What a waiter that wants `wanted` permits is woken with.
pub open spec fn wake_up(fairness: Fairness, wanted: usize) -> WakeUp {
    match fairness {
        Fairness::Fair => WakeUp::Fair(wanted),
        Fairness::Unfair => WakeUp::Unfair,
    }
}

/// The list after the first `k` waiters in the queue have been woken.
pub open spec fn woken_up(
    waiters: Waiters<usize, WakeUp>,
    k: int,
    fairness: Fairness,
) -> Waiters<usize, WakeUp>
    decreases k,
{
    if k <= 0 {
        waiters
    } else {
        woken_up(waiters, k - 1, fairness).woken(wake_up(fairness, waiters.input(k - 1)))
    }
}

/// The wakers of the first `k` waiters in the queue.
pub open spec fn first_wakers(waiters: Waiters<usize, WakeUp>, k: int) -> Seq<Waker> {
    Seq::new(k as nat, |i: int| waiters.waker(i))
}

impl SemaphoreState {
    /// The number of permits that were handed out and not given back.
    pub open spec fn held(self) -> int {
        self.total - self.available - granted(self.waiters.slots)
    }

    pub open spec fn inv(self) -> bool {
        &&& self.waiters.inv()
        &&& 0 <= self.available
        &&& 0 <= self.held()
        &&& self.total <= usize::MAX
    }

    /// The number of waiters that a release of `permits` permits wakes.
    pub open spec fn wakes_on_release(self, permits: int) -> int {
        served(self.waiters, 0, self.available + permits)
    }

    /// The semaphore after `permits` permits have been released to it.
    pub open spec fn released(self, permits: int, fairness: Fairness) -> Self {
        let k = self.wakes_on_release(permits);
        SemaphoreState {
            waiters: woken_up(self.waiters, k, fairness),
            available: self.available + permits - match fairness {
                Fairness::Fair => demand(self.waiters, k),
                Fairness::Unfair => 0,
            },
            ..self
        }
    }

    /// The wakers handed out by a release of `permits` permits.
    pub open spec fn release_wakers(self, permits: int) -> Seq<Waker> {
        first_wakers(self.waiters, self.wakes_on_release(permits))
    }

    /// The semaphore after the waiter in slot `id` has been cancelled.
    ///
    /// If it has not been woken it leaves the queue. If it has, whatever it was granted is
    /// released, so that the wakeup reaches the next waiter.
    pub open spec fn cancelled(self, id: usize) -> Self {
        match self.waiters.slots[id as int] {
            Slot::Waiting { .. } => SemaphoreState { waiters: self.waiters.dequeued(id), ..self },
            slot => self.collected(id).released(grant(slot), Fairness::Unfair),
        }
    }

    /// The wakers handed out by cancelling the waiter in slot `id`.
    pub open spec fn cancel_wakers(self, id: usize) -> Seq<Waker> {
        match self.waiters.slots[id as int] {
            Slot::Waiting { .. } => Seq::empty(),
            slot => self.collected(id).release_wakers(grant(slot)),
        }
    }

    /// The semaphore after the woken waiter in slot `id` has taken what it was woken with.
    pub open spec fn collected(self, id: usize) -> Self {
        SemaphoreState { waiters: self.waiters.collected(id), ..self }
    }

    /// The semaphore after `permits` available permits have been taken from it.
    pub open spec fn taken(self, permits: int) -> Self {
        SemaphoreState { available: self.available - permits, ..self }
    }
}

/// A slot that changes makes a difference of what it grants.
proof fn lemma_granted_update(
    slots: Seq<Slot<usize, WakeUp>>,
    j: int,
    slot: Slot<usize, WakeUp>,
)
    requires
        0 <= j < slots.len(),
    ensures
        granted(slots.update(j, slot)) == granted(slots) - grant(slots[j]) + grant(slot),
        granted(slots) >= grant(slots[j]) >= 0,
    decreases slots.len(),
{
    let after = slots.update(j, slot);
    if j == slots.len() - 1 {
        assert(after.drop_last() =~= slots.drop_last());
        lemma_granted_nonneg(slots.drop_last());
    } else {
        assert(after.drop_last() =~= slots.drop_last().update(j, slot));
        lemma_granted_update(slots.drop_last(), j, slot);
    }
}

proof fn lemma_granted_nonneg(slots: Seq<Slot<usize, WakeUp>>)
    ensures
        granted(slots) >= 0,
    decreases slots.len(),
{
    if slots.len() > 0 {
        lemma_granted_nonneg(slots.drop_last());
    }
}

proof fn lemma_granted_put(
    slots: Seq<Slot<usize, WakeUp>>,
    j: int,
    slot: Slot<usize, WakeUp>,
)
    requires
        0 <= j <= slots.len(),
        j < slots.len() ==> slots[j] is Vacant,
    ensures
        granted(crate::wait_list::put(slots, j, slot)) == granted(slots) + grant(slot),
{
    if j < slots.len() {
        lemma_granted_update(slots, j, slot);
    } else {
        assert(slots.push(slot).drop_last() =~= slots);
    }
}

proof fn lemma_demand_nonneg(waiters: Waiters<usize, WakeUp>, k: int)
    ensures
        demand(waiters, k) >= 0,
    decreases k,
{
    if k > 0 {
        lemma_demand_nonneg(waiters, k - 1);
    }
}

/// What waking the first `k` waiters does to the list.
proof fn lemma_woken_up(waiters: Waiters<usize, WakeUp>, k: int, fairness: Fairness)
    requires
        waiters.inv(),
        0 <= k <= waiters.queue.len(),
    ensures
        woken_up(waiters, k, fairness).inv(),
        woken_up(waiters, k, fairness).queue == waiters.queue.skip(k),
        woken_up(waiters, k, fairness).slots.len() == waiters.slots.len(),
        forall|i: int|
            0 <= i < k ==> woken_up(waiters, k, fairness).slots[#[trigger] waiters.queue[i] as int]
                == (Slot::<usize, WakeUp>::Woken { output: wake_up(fairness, waiters.input(i)) }),
        forall|j: int|
            0 <= j < waiters.slots.len() && !waiters.queue.take(k).contains(j as usize)
                ==> #[trigger] woken_up(waiters, k, fairness).slots[j] == waiters.slots[j],
        granted(woken_up(waiters, k, fairness).slots) == granted(waiters.slots) + (match fairness {
            Fairness::Fair => demand(waiters, k),
            Fairness::Unfair => 0,
        }),
    decreases k,
{
    let after = woken_up(waiters, k, fairness);
    if k > 0 {
        let before = woken_up(waiters, k - 1, fairness);
        lemma_woken_up(waiters, k - 1, fairness);
        let id = waiters.queue[k - 1];
        assert(before.queue[0] == id);
        let output = wake_up(fairness, waiters.input(k - 1));
        assert(!waiters.queue.take(k - 1).contains(id));
        assert(before.slots[id as int] == waiters.slots[id as int]);
        crate::wait_list::law_wake_keeps_inv(before, output);
        assert(after.queue =~= waiters.queue.skip(k));
        lemma_granted_update(before.slots, id as int, Slot::Woken { output });
        assert forall|j: int|
            0 <= j < waiters.slots.len() && !waiters.queue.take(k).contains(j as usize) implies
            #[trigger] after.slots[j] == waiters.slots[j] by {
            assert(waiters.queue.take(k)[k - 1] == id);
            if waiters.queue.take(k - 1).contains(j as usize) {
                let i = waiters.queue.take(k - 1).index_of(j as usize);
                assert(waiters.queue.take(k)[i] == j as usize);
            }
        }
    } else {
        assert(waiters.queue.skip(0) =~= waiters.queue);
    }
}

/// An asynchronous semaphore for permit acquisition.
///
/// A semaphore allows limiting access to a shared resource to a certain number
/// of callers at a time. It is created with a certain number of _permits_ which
/// can be shared among tasks, and tasks can wait for permits to become
/// available.
///
/// This semaphore supports both fair and unfair operations. There are two
/// aspects of fairness to consider:
///
/// 1. Whether a task that wants fewer permits can obtain those permits while a
///    task that wants more permits waits. The default [`Semaphore::acquire`]
///    does not allow this, but [`Semaphore::acquire_unfair`] does.
/// 2. Whether a task can steal the permits from another task if that second
///    task has not been scheduled yet (so the permits have been released but
///    have yet to be acquired). By default it can. However if permits are
///    released with [`Permit::release_fair`], they will be directly and fairly
///    handed off to the first waiter in line, disallowing anyone else from
///    opportunistically taking them.
pub struct Semaphore {
    /// List of waiters.
    ///
    /// Each waiter contains a `usize` that stores the number of permits desired.
    waiters: WaitList<usize, WakeUp>,
    /// The number of available permits in the semaphore.
    permits: usize,
    /// The total number of permits in the semaphore.
    total_permits: usize,
    /// Which semaphore this is.
    identity: Ghost<int>,
}

impl View for Semaphore {
    type V = SemaphoreState;

    closed spec fn view(&self) -> SemaphoreState {
        SemaphoreState {
            identity: self.identity@,
            waiters: self.waiters@,
            available: self.permits as int,
            total: self.total_permits as int,
        }
    }
}

impl Semaphore {
    /// The list of waiters is intact, and not borrowed.
    pub closed spec fn list_wf(&self) -> bool {
        self.waiters.wf() && !self.waiters.is_borrowed()
    }

    pub open spec fn wf(&self) -> bool {
        self.list_wf() && self@.inv()
    }

    /// Create a new semaphore with the given number of permits.
    #[must_use]
    pub fn new(permits: usize) -> (semaphore: Self)
        ensures
            semaphore.wf(),
            semaphore@ == (SemaphoreState {
                identity: semaphore@.identity,
                waiters: Waiters::empty(),
                available: permits as int,
                total: permits as int,
            }),
    {
        Self {
            waiters: WaitList::new(),
            permits,
            total_permits: permits,
            identity: Ghost(arbitrary()),
        }
    }

    /// Retrieve the number of currently available permits.
    #[must_use]
    pub fn available_permits(&self) -> (permits: usize)
        ensures
            permits == self@.available,
    {
        self.permits
    }

    /// Retrieve the total number of permits, including those currently handed
    /// out.
    #[must_use]
    pub fn total_permits(&self) -> (permits: usize)
        ensures
            permits == self@.total,
    {
        self.total_permits
    }

    /// Add additional permits to the semaphore.
    pub fn add_permits(&mut self, new_permits: usize, wakes: &mut Vec<Waker>)
        requires
            old(self).wf(),
            old(self)@.total + new_permits <= usize::MAX,
        ensures
            final(self).wf(),
            final(self)@ == (SemaphoreState {
                total: old(self)@.total + new_permits,
                ..old(self)@.released(new_permits as int, Fairness::Unfair)
            }),
            final(self)@.held() == old(self)@.held(),
            final(wakes)@ == old(wakes)@ + old(self)@.release_wakers(new_permits as int),
    {
        self.total_permits = self.total_permits + new_permits;
        self.release_permits(new_permits, Fairness::Unfair, wakes);
    }

    /// Add new permits to the semaphore, using a fair wakeup algorithm to
    /// ensure that the new permits won't be taken by any waiter other than the
    /// one at the front of the queue.
    pub fn add_permits_fair(&mut self, new_permits: usize, wakes: &mut Vec<Waker>)
        requires
            old(self).wf(),
            old(self)@.total + new_permits <= usize::MAX,
        ensures
            final(self).wf(),
            final(self)@ == (SemaphoreState {
                total: old(self)@.total + new_permits,
                ..old(self)@.released(new_permits as int, Fairness::Fair)
            }),
            final(self)@.held() == old(self)@.held(),
            final(wakes)@ == old(wakes)@ + old(self)@.release_wakers(new_permits as int),
    {
        self.total_permits = self.total_permits + new_permits;
        self.release_permits(new_permits, Fairness::Fair, wakes);
    }

    /// Attempt to acquire permits from the semaphore immediately.
    ///
    /// [`None`] is returned if there are not enough permits available **or** a
    /// task is currently waiting for a permit.
    pub fn try_acquire(&mut self, to_acquire: usize) -> (permit: Option<Permit>)
        requires
            old(self).wf(),
        ensures
            final(self).wf(),
            permit is Some <==> old(self)@.waiters.queue.len() == 0 && to_acquire
                <= old(self)@.available,
            match permit {
                Some(permit) => {
                    &&& permit@ == to_acquire
                    &&& permit.semaphore() == old(self)@.identity
                    &&& final(self)@ == old(self)@.taken(to_acquire as int)
                },
                None => final(self)@ == old(self)@,
            },
    {
        // If a task is already waiting for some permits, we mustn't steal it.
        let borrowed = self.waiters.borrow();
        let empty = borrowed.is_empty();
        self.waiters.release(borrowed);
        if !empty {
            return None;
        }
        self.try_acquire_unfair(to_acquire)
    }

    /// Attempt to acquire permits from the semaphore immediately, potentially
    /// unfairly stealing permits from a task that is waiting for permits.
    ///
    /// [`None`] is returned if there are not enough permits available, but
    /// **not** if a task is currently waiting for a permit.
    pub fn try_acquire_unfair(&mut self, to_acquire: usize) -> (permit: Option<Permit>)
        requires
            old(self).wf(),
        ensures
            final(self).wf(),
            permit is Some <==> to_acquire <= old(self)@.available,
            match permit {
                Some(permit) => {
                    &&& permit@ == to_acquire
                    &&& permit.semaphore() == old(self)@.identity
                    &&& final(self)@ == old(self)@.taken(to_acquire as int)
                },
                None => final(self)@ == old(self)@,
            },
    {
        match self.permits.checked_sub(to_acquire) {
            Some(new_permits) => {
                self.permits = new_permits;
                Some(Permit { permits: to_acquire, semaphore: self.identity })
            },
            None => None,
        }
    }

    /// Acquire permits from the semaphore.
    pub fn acquire(&self, to_acquire: usize) -> (acquire: Acquire)
        ensures
            acquire.semaphore() == self@.identity,
            acquire.to_acquire() == to_acquire,
            !acquire.unfair(),
            acquire@ == Phase::Created(to_acquire),
    {
        Acquire {
            to_acquire,
            unfair: false,
            wait: self.waiters.wait(to_acquire),
            semaphore: self.identity,
        }
    }

    /// Acquire permits from the semaphore, potentially unfairly stealing
    /// permits from a task that is waiting for permits.
    pub fn acquire_unfair(&self, to_acquire: usize) -> (acquire: Acquire)
        ensures
            acquire.semaphore() == self@.identity,
            acquire.to_acquire() == to_acquire,
            acquire.unfair(),
            acquire@ == Phase::Created(to_acquire),
    {
        Acquire {
            to_acquire,
            unfair: true,
            wait: self.waiters.wait(to_acquire),
            semaphore: self.identity,
        }
    }

    /// Make `permits` permits available, and wake the waiters at the front of the
    /// queue that there are enough permits for.
    fn release_permits(&mut self, permits: usize, fairness: Fairness, wakes: &mut Vec<Waker>)
        requires
            old(self).wf(),
            permits <= old(self)@.held(),
        ensures
            final(self).wf(),
            final(self)@ == old(self)@.released(permits as int, fairness),
            final(self)@.held() == old(self)@.held() - permits,
            final(wakes)@ == old(wakes)@ + old(self)@.release_wakers(permits as int),
    {
        let ghost start = self@;
        let ghost w = self.waiters@;
        let ghost avail = self.permits + permits;
        let ghost woken_before = wakes@;
        proof {
            lemma_granted_nonneg(w.slots);
        }
        let mut permits = self.permits + permits;
        self.permits = permits;
        let mut waiters = self.waiters.borrow();
        let ghost mut k: int = 0;
        proof {
            assert(wakes@ =~= woken_before + first_wakers(w, 0));
        }
        loop
            invariant
                w.inv(),
                self.waiters.wf(),
                self.waiters.is_borrowed(),
                self.total_permits == start.total,
                self.identity@ == start.identity,
                waiters.wf(),
                0 <= k <= w.queue.len(),
                waiters@ == woken_up(w, k, fairness),
                permits == avail - demand(w, k),
                self.permits == (match fairness {
                    Fairness::Fair => permits as int,
                    Fairness::Unfair => avail,
                }),
                served(w, 0, avail) == k + served(w, k, permits as int),
                wakes@ == woken_before + first_wakers(w, k),
            ensures
                served(w, 0, avail) == k,
            decreases w.queue.len() - k,
        {
            proof {
                lemma_woken_up(w, k, fairness);
            }
            let wanted_permits = match waiters.head_input() {
                Some(wanted_permits) => *wanted_permits,
                None => {
                    break ;
                },
            };
            proof {
                let id = w.queue[k];
                assert(waiters@.queue[0] == id);
                assert(!w.queue.take(k).contains(id));
                assert(waiters@.slots[id as int] == w.slots[id as int]);
                assert(wanted_permits == w.input(k));
            }
            permits = match permits.checked_sub(wanted_permits) {
                Some(new_permits) => new_permits,
                None => {
                    break ;
                },
            };
            let wake = match fairness {
                Fairness::Fair => {
                    // Commit the deduction; the grant returns the permits if the
                    // waiter is cancelled before it claims them.
                    self.permits = permits;
                    WakeUp::Fair(wanted_permits)
                },
                Fairness::Unfair => WakeUp::Unfair,
            };
            let _ = waiters.wake_one(wake, wakes);
            proof {
                k = k + 1;
                assert(wakes@ =~= woken_before + first_wakers(w, k));
            }
        }
        self.waiters.release(waiters);
        proof {
            lemma_woken_up(w, k, fairness);
            lemma_demand_nonneg(w, k);
        }
    }
}

/// A guard holding a number of permits obtained from a [`Semaphore`].
///
/// The permits return to the semaphore that they were obtained from, through
/// [`Permit::release`] or [`Permit::release_fair`].
pub struct Permit {
    permits: usize,
    /// Which semaphore the permits were obtained from.
    semaphore: Ghost<int>,
}

impl View for Permit {
    type V = int;

    closed spec fn view(&self) -> int {
        self.permits as int
    }
}

impl Permit {
    /// The identity of the semaphore this guard is for.
    pub closed spec fn semaphore(&self) -> int {
        self.semaphore@
    }

    /// Get the number of permits this guard holds.
    #[must_use]
    pub fn permits(&self) -> (permits: usize)
        ensures
            permits == self@,
    {
        self.permits
    }

    /// Leak the permits without releasing it to the semaphore.
    ///
    /// This reduces the total number of permits in the semaphore.
    pub fn leak(self, semaphore: &mut Semaphore)
        requires
            old(semaphore).wf(),
            self.semaphore() == old(semaphore)@.identity,
            self@ <= old(semaphore)@.held(),
        ensures
            final(semaphore).wf(),
            final(semaphore)@ == (SemaphoreState {
                total: old(semaphore)@.total - self@,
                ..old(semaphore)@
            }),
            final(semaphore)@.held() == old(semaphore)@.held() - self@,
    {
        proof {
            lemma_granted_nonneg(semaphore.waiters@.slots);
        }
        let reduced_permits = semaphore.total_permits - self.permits;
        semaphore.total_permits = reduced_permits;
    }

    /// Release the permits using a fair wakeup algorithm to ensure that the new
    /// permits won't be taken by any waiter other than the one at the front of
    /// the queue.
    ///
    /// To release the permits with an unfair wakeup algorithm, call
    /// [`Permit::release`].
    pub fn release_fair(self, semaphore: &mut Semaphore, wakes: &mut Vec<Waker>)
        requires
            old(semaphore).wf(),
            self.semaphore() == old(semaphore)@.identity,
            self@ <= old(semaphore)@.held(),
        ensures
            final(semaphore).wf(),
            final(semaphore)@ == old(semaphore)@.released(self@, Fairness::Fair),
            final(semaphore)@.held() == old(semaphore)@.held() - self@,
            final(wakes)@ == old(wakes)@ + old(semaphore)@.release_wakers(self@),
    {
        semaphore.release_permits(self.permits, Fairness::Fair, wakes);
    }

    /// Release the permits with an unfair wakeup algorithm, as is done when the guard
    /// falls out of scope.
    pub fn release(self, semaphore: &mut Semaphore, wakes: &mut Vec<Waker>)
        requires
            old(semaphore).wf(),
            self.semaphore() == old(semaphore)@.identity,
            self@ <= old(semaphore)@.held(),
        ensures
            final(semaphore).wf(),
            final(semaphore)@ == old(semaphore)@.released(self@, Fairness::Unfair),
            final(semaphore)@.held() == old(semaphore)@.held() - self@,
            final(wakes)@ == old(wakes)@ + old(semaphore)@.release_wakers(self@),
    {
        semaphore.release_permits(self.permits, Fairness::Unfair, wakes);
    }
}

/// The future returned by [`Semaphore::acquire`] and [`Semaphore::acquire_unfair`].
pub struct Acquire {
    /// The number of permits to acquire.
    to_acquire: usize,
    /// Whether permits may be taken while other tasks wait.
    unfair: bool,
    /// The place in the queue of the semaphore.
    wait: Wait<usize>,
    /// Which semaphore the permits are acquired from.
    semaphore: Ghost<int>,
}

impl View for Acquire {
    type V = Phase<usize>;

    closed spec fn view(&self) -> Phase<usize> {
        self.wait@
    }
}

impl Acquire {
    /// The identity of the semaphore that the future acquires permits from.
    pub closed spec fn semaphore(&self) -> int {
        self.semaphore@
    }

    /// The number of permits that the future acquires.
    pub closed spec fn to_acquire(&self) -> usize {
        self.to_acquire
    }

    /// Whether the future takes permits while other tasks wait.
    pub closed spec fn unfair(&self) -> bool {
        self.unfair
    }

    /// The waiter that the future refers to, if any, wants, or was granted, the
    /// permits that the future acquires.
    pub open spec fn valid(&self, waiters: Waiters<usize, WakeUp>) -> bool {
        match self@ {
            Phase::Created(wanted) => wanted == self.to_acquire(),
            Phase::Queued(id) => waiters.occupied(id) && match waiters.slots[id as int] {
                Slot::Waiting { input, .. } => input == self.to_acquire(),
                Slot::Woken { output: WakeUp::Fair(permits) } => permits == self.to_acquire(),
                _ => true,
            },
            Phase::Done => true,
        }
    }

    /// The future has completed, and took its permits from `before`.
    pub open spec fn took(
        &self,
        before: SemaphoreState,
        after: SemaphoreState,
        result: Poll<Permit>,
    ) -> bool {
        &&& self@ is Done
        &&& result matches Poll::Ready(permit) && permit@ == self.to_acquire() && permit.semaphore()
            == before.identity
        &&& after == before.taken(self.to_acquire() as int)
    }

    /// The future has joined the end of the queue in `before`.
    pub open spec fn queued(
        &self,
        before: SemaphoreState,
        after: SemaphoreState,
        waker: Waker,
        result: Poll<Permit>,
    ) -> bool {
        &&& result is Pending
        &&& self@ is Queued
        &&& before.waiters.vacant(self@->Queued_0)
        &&& after == SemaphoreState {
            waiters: before.waiters.enqueued(self@->Queued_0, self.to_acquire(), waker),
            ..before
        }
    }

    /// Poll the future with the waker of the current task.
    ///
    /// The first poll takes the permits if it may, and joins the queue if it may not. A future
    /// that is woken with a grant completes with it. One that is woken to contend takes the
    /// permits without deferring to waiters still queued behind it; if there are not enough, it
    /// passes the wakeup on and joins the queue again.
    pub fn poll(
        &mut self,
        semaphore: &mut Semaphore,
        waker: &Waker,
        wakes: &mut Vec<Waker>,
    ) -> (result: Poll<Permit>)
        requires
            old(semaphore).wf(),
            old(self).semaphore() == old(semaphore)@.identity,
            !(old(self)@ is Done),
            old(self).valid(old(semaphore)@.waiters),
        ensures
            final(semaphore).wf(),
            final(self).semaphore() == old(self).semaphore(),
            final(self).valid(final(semaphore)@.waiters),
            final(self).to_acquire() == old(self).to_acquire(),
            final(self).unfair() == old(self).unfair(),
            final(semaphore)@.held() == old(semaphore)@.held() + (match result {
                Poll::Ready(permit) => permit@,
                Poll::Pending => 0,
            }),
            match old(self)@ {
                Phase::Created(_) => {
                    &&& final(wakes)@ == old(wakes)@
                    &&& if old(self).to_acquire() <= old(semaphore)@.available && (
                    old(self).unfair() || old(semaphore)@.waiters.queue.len() == 0) {
                        final(self).took(old(semaphore)@, final(semaphore)@, result)
                    } else {
                        final(self).queued(old(semaphore)@, final(semaphore)@, *waker, result)
                    }
                },
                Phase::Queued(id) => {
                    let collected = old(semaphore)@.collected(id);
                    match old(semaphore)@.waiters.slots[id as int] {
                        Slot::Waiting { .. } => {
                            &&& result is Pending
                            &&& final(self)@ == old(self)@
                            &&& final(semaphore)@ == (SemaphoreState {
                                waiters: old(semaphore)@.waiters.rewakered(id, *waker),
                                ..old(semaphore)@
                            })
                            &&& final(wakes)@ == old(wakes)@
                        },
                        Slot::Woken { output: WakeUp::Fair(permits) } => {
                            &&& result matches Poll::Ready(permit) && permit@ == permits
                                && permit.semaphore() == old(semaphore)@.identity
                            &&& final(self)@ is Done
                            &&& final(semaphore)@ == collected
                            &&& final(wakes)@ == old(wakes)@
                        },
                        Slot::Woken { output: WakeUp::Unfair } => if old(self).to_acquire()
                            <= old(semaphore)@.available {
                            &&& final(self).took(collected, final(semaphore)@, result)
                            &&& final(wakes)@ == old(wakes)@
                        } else {
                            &&& final(self).queued(
                                collected.released(0, Fairness::Unfair),
                                final(semaphore)@,
                                *waker,
                                result,
                            )
                            &&& final(wakes)@ == old(wakes)@ + collected.release_wakers(0)
                        },
                        Slot::Vacant => false,
                    }
                },
                Phase::Done => false,
            },
    {
        let ghost start = semaphore@;
        let woken = self.wait.is_queued();
        if woken {
            proof {
                let id = self@->Queued_0;
                lemma_granted_update(start.waiters.slots, id as int, Slot::Vacant);
                lemma_granted_update(
                    start.waiters.slots,
                    id as int,
                    Slot::Waiting { input: start.waiters.slots[id as int]->input, waker: *waker },
                );
            }
            match self.wait.poll(&mut semaphore.waiters, waker) {
                Poll::Pending => {
                    return Poll::Pending;
                },
                Poll::Ready(WakeUp::Fair(_)) => {
                    return Poll::Ready(
                        Permit { permits: self.to_acquire, semaphore: self.semaphore },
                    );
                },
                Poll::Ready(WakeUp::Unfair) => {
                    // We were woken from the head of the queue, so take the
                    // permits without deferring to waiters still queued behind us.
                    if let Some(permit) = semaphore.try_acquire_unfair(self.to_acquire) {
                        return Poll::Ready(permit);
                    }
                    // Wake the next waiter so the wakeup isn't lost.
                    semaphore.release_permits(0, Fairness::Unfair, wakes);
                    self.wait = semaphore.waiters.wait(self.to_acquire);
                },
            }
        }
        let attempt = if self.unfair {
            semaphore.try_acquire_unfair(self.to_acquire)
        } else {
            semaphore.try_acquire(self.to_acquire)
        };
        if let Some(permit) = attempt {
            self.wait = Wait::done();
            return Poll::Ready(permit);
        }
        let ghost before = semaphore@;
        let _ = self.wait.poll(&mut semaphore.waiters, waker);
        proof {
            lemma_granted_put(
                before.waiters.slots,
                self@->Queued_0 as int,
                Slot::Waiting { input: self.to_acquire, waker: *waker },
            );
        }
        Poll::Pending
    }

    /// Drop the future before it has completed.
    ///
    /// A waiter that has not been woken leaves the queue. One that was woken to contend passes
    /// the wakeup on, and one that was granted permits releases them.
    pub fn cancel(self, semaphore: &mut Semaphore, wakes: &mut Vec<Waker>)
        requires
            old(semaphore).wf(),
            self.semaphore() == old(semaphore)@.identity,
            self.valid(old(semaphore)@.waiters),
        ensures
            final(semaphore).wf(),
            final(semaphore)@.held() == old(semaphore)@.held(),
            match self@ {
                Phase::Queued(id) => {
                    &&& final(semaphore)@ == old(semaphore)@.cancelled(id)
                    &&& final(wakes)@ == old(wakes)@ + old(semaphore)@.cancel_wakers(id)
                },
                _ => final(semaphore)@ == old(semaphore)@ && final(wakes)@ == old(wakes)@,
            },
    {
        proof {
            if let Phase::Queued(id) = self@ {
                lemma_granted_update(semaphore@.waiters.slots, id as int, Slot::Vacant);
            }
        }
        match self.wait.cancel(&mut semaphore.waiters) {
            Some(WakeUp::Unfair) => semaphore.release_permits(0, Fairness::Unfair, wakes),
            Some(WakeUp::Fair(permits)) => semaphore.release_permits(
                permits,
                Fairness::Unfair,
                wakes,
            ),
            None => {
                assert(wakes@ =~= old(wakes)@ + Seq::<Waker>::empty());
            },
        }
    }
}

/// A release serves the waiters at the front of the queue whose demand the available permits
/// meet, and as many of them as there can be: there are no more waiters, or the next one wants
/// more than is left.
pub proof fn law_release_serves_longest_prefix(state: SemaphoreState, permits: int)
    requires
        state.inv(),
        permits >= 0,
    ensures
        ({
            let k = state.wakes_on_release(permits);
            &&& 0 <= k <= state.waiters.queue.len()
            &&& demand(state.waiters, k) <= state.available + permits
            &&& k < state.waiters.queue.len() ==> demand(state.waiters, k + 1) > state.available
                + permits
        }),
{
    lemma_served(state.waiters, 0, state.available + permits);
}

proof fn lemma_served(waiters: Waiters<usize, WakeUp>, i: int, permits: int)
    requires
        0 <= i <= waiters.queue.len(),
        permits >= 0,
    ensures
        ({
            let k = i + served(waiters, i, permits);
            &&& i <= k <= waiters.queue.len()
            &&& demand(waiters, k) - demand(waiters, i) <= permits
            &&& k < waiters.queue.len() ==> demand(waiters, k + 1) - demand(waiters, i) > permits
        }),
    decreases waiters.queue.len() - i,
{
    if i < waiters.queue.len() && waiters.input(i) <= permits {
        lemma_served(waiters, i + 1, permits - waiters.input(i));
    }
}

/// A release wakes waiters in the order in which they joined the queue, and leaves the others
/// waiting in that order. A waiter that is woken by a fair release is granted the number of
/// permits that it wants.
pub proof fn law_release_is_first_in_first_out(
    state: SemaphoreState,
    permits: int,
    fairness: Fairness,
)
    requires
        state.inv(),
        permits >= 0,
    ensures
        ({
            let k = state.wakes_on_release(permits);
            let after = state.released(permits, fairness);
            &&& after.waiters.queue == state.waiters.queue.skip(k)
            &&& forall|i: int|
                0 <= i < k ==> after.waiters.slots[#[trigger] state.waiters.queue[i] as int] == (
                Slot::<usize, WakeUp>::Woken {
                    output: wake_up(fairness, state.waiters.input(i)),
                })
            &&& forall|i: int|
                k <= i < state.waiters.queue.len()
                    ==> after.waiters.slots[#[trigger] state.waiters.queue[i] as int]
                    == state.waiters.slots[state.waiters.queue[i] as int]
        }),
{
    let k = state.wakes_on_release(permits);
    lemma_served(state.waiters, 0, state.available + permits);
    lemma_woken_up(state.waiters, k, fairness);
    assert forall|i: int| k <= i < state.waiters.queue.len() implies woken_up(
        state.waiters,
        k,
        fairness,
    ).slots[#[trigger] state.waiters.queue[i] as int]
        == state.waiters.slots[state.waiters.queue[i] as int] by {
        assert(!state.waiters.queue.take(k).contains(state.waiters.queue[i]));
    }
}

/// A release neither makes nor loses permits: those released become available, or are granted
/// to waiters. The total does not change.
pub proof fn law_release_conserves_permits(
    state: SemaphoreState,
    permits: int,
    fairness: Fairness,
)
    requires
        state.inv(),
        0 <= permits <= state.held(),
    ensures
        state.released(permits, fairness).inv(),
        state.released(permits, fairness).total == state.total,
        state.released(permits, fairness).held() == state.held() - permits,
{
    let k = state.wakes_on_release(permits);
    lemma_served(state.waiters, 0, state.available + permits);
    lemma_woken_up(state.waiters, k, fairness);
    lemma_demand_nonneg(state.waiters, k);
}

/// Permits that are taken and released again while nobody waits leave the semaphore as it was.
pub proof fn law_release_undoes_acquire(state: SemaphoreState, permits: int, fairness: Fairness)
    requires
        state.inv(),
        state.waiters.queue.len() == 0,
        0 <= permits <= state.available,
    ensures
        state.taken(permits).released(permits, fairness) == state,
{
}

/// Permits that a fair release hands to a waiter are not available to anyone else: whatever is
/// taken before the waiter collects its grant comes out of what was left over, and the grant
/// stays as it is.
pub proof fn law_fair_release_reserves_permits(
    state: SemaphoreState,
    permits: int,
    stolen: int,
    i: int,
)
    requires
        state.inv(),
        0 <= permits <= state.held(),
        0 <= i < state.wakes_on_release(permits),
        0 <= stolen <= state.released(permits, Fairness::Fair).available,
    ensures
        stolen <= state.available + permits - demand(
            state.waiters,
            state.wakes_on_release(permits),
        ),
        state.released(permits, Fairness::Fair).taken(
            stolen,
        ).waiters.slots[state.waiters.queue[i] as int] == (Slot::<usize, WakeUp>::Woken {
            output: WakeUp::Fair(state.waiters.input(i)),
        }),
{
    law_release_is_first_in_first_out(state, permits, Fairness::Fair);
}

/// A release leaves no permit stranded: if the permits that it makes available are enough for
/// the first waiter in the queue, that waiter is woken.
pub proof fn law_release_wakes_a_servable_head(
    state: SemaphoreState,
    permits: int,
    fairness: Fairness,
)
    requires
        state.inv(),
        permits >= 0,
        state.waiters.queue.len() > 0,
        state.waiters.input(0) <= state.available + permits,
    ensures
        state.wakes_on_release(permits) >= 1,
        state.released(permits, fairness).waiters.slots[state.waiters.queue[0] as int] is Woken,
        state.release_wakers(permits)[0] == state.waiters.waker(0),
{
    lemma_served(state.waiters, 1, state.available + permits - state.waiters.input(0));
    law_release_is_first_in_first_out(state, permits, fairness);
    assert(state.waiters.queue[0] == state.waiters.queue[0]);
}

/// A release keeps every other future of the semaphore valid.
pub proof fn law_release_keeps_futures_valid(
    state: SemaphoreState,
    permits: int,
    fairness: Fairness,
    acquire: &Acquire,
)
    requires
        state.inv(),
        permits >= 0,
        acquire.valid(state.waiters),
    ensures
        acquire.valid(state.released(permits, fairness).waiters),
{
    let k = state.wakes_on_release(permits);
    lemma_served(state.waiters, 0, state.available + permits);
    lemma_woken_up(state.waiters, k, fairness);
    if let Phase::Queued(id) = acquire@ {
        if state.waiters.queue.take(k).contains(id) {
            let i = state.waiters.queue.take(k).index_of(id);
            assert(state.waiters.queue[i] == id);
        }
    }
}

/// What one future does to the semaphore keeps every other one valid: joining the queue, taking
/// what it was woken with, registering another task, and being cancelled.
pub proof fn law_futures_are_independent(
    state: SemaphoreState,
    id: usize,
    wanted: usize,
    waker: Waker,
    acquire: &Acquire,
)
    requires
        state.inv(),
        acquire.valid(state.waiters),
        acquire@ != Phase::<usize>::Queued(id),
    ensures
        state.waiters.vacant(id) ==> acquire.valid(state.waiters.enqueued(id, wanted, waker)),
        state.waiters.occupied(id) ==> {
            &&& acquire.valid(state.waiters.collected(id))
            &&& acquire.valid(state.waiters.rewakered(id, waker))
            &&& acquire.valid(state.cancelled(id).waiters)
        },
{
    if state.waiters.occupied(id) {
        let slot = state.waiters.slots[id as int];
        if !(slot is Waiting) {
            lemma_granted_update(state.waiters.slots, id as int, Slot::Vacant);
            crate::wait_list::law_collect_keeps_inv(state.waiters, id);
            law_release_keeps_futures_valid(
                state.collected(id),
                grant(slot),
                Fairness::Unfair,
                acquire,
            );
        }
    }
}

/// Cancelling a waiter neither makes nor loses permits. In particular, permits that it was
/// granted and did not collect go back to the semaphore, or on to other waiters.
pub proof fn law_cancel_conserves_permits(state: SemaphoreState, id: usize)
    requires
        state.inv(),
        state.waiters.occupied(id),
    ensures
        state.cancelled(id).inv(),
        state.cancelled(id).total == state.total,
        state.cancelled(id).held() == state.held(),
{
    let slot = state.waiters.slots[id as int];
    lemma_granted_update(state.waiters.slots, id as int, Slot::Vacant);
    if slot is Waiting {
        crate::wait_list::law_dequeue_keeps_inv(state.waiters, id);
    } else {
        crate::wait_list::law_collect_keeps_inv(state.waiters, id);
        law_release_conserves_permits(state.collected(id), grant(slot), Fairness::Unfair);
    }
}

/// Cancelling a waiter that has been woken does not strand what it was woken for: if the
/// available permits, together with those that it was granted, are enough for the first waiter
/// in the queue, that waiter is woken.
pub proof fn law_cancel_passes_wakeup_on(state: SemaphoreState, id: usize)
    requires
        state.inv(),
        state.waiters.occupied(id),
        state.waiters.slots[id as int] is Woken,
        state.waiters.queue.len() > 0,
        state.waiters.input(0) <= state.available + grant(state.waiters.slots[id as int]),
    ensures
        state.cancelled(id).waiters.slots[state.waiters.queue[0] as int] is Woken,
        state.cancel_wakers(id).len() > 0,
        state.cancel_wakers(id)[0] == state.waiters.waker(0),
{
    let slot = state.waiters.slots[id as int];
    lemma_granted_update(state.waiters.slots, id as int, Slot::Vacant);
    crate::wait_list::law_collect_keeps_inv(state.waiters, id);
    assert(state.waiters.queue[0] < state.waiters.slots.len());
    let collected = state.collected(id);
    assert(collected.waiters.slots[state.waiters.queue[0] as int]
        == state.waiters.slots[state.waiters.queue[0] as int]);
    law_release_wakes_a_servable_head(collected, grant(slot), Fairness::Unfair);
}

/// What may happen to a semaphore.
pub enum Operation {
    /// Permits are added to the semaphore.
    Add { permits: usize, fairness: Fairness },
    /// Available permits are taken, by trying to, or by a future that finds enough of them when
    /// it is first polled.
    Take { permits: usize },
    /// Permits that are out are given back.
    Release { permits: usize, fairness: Fairness },
    /// Permits that are out are leaked.
    Leak { permits: usize },
    /// A future joins the queue, in slot `id`.
    Queue { id: usize, wanted: usize, waker: Waker },
    /// The future in slot `id`, which has not been woken, is polled.
    Poll { id: usize, waker: Waker },
    /// The future in slot `id` takes the permits that it was granted.
    Claim { id: usize },
    /// The future in slot `id`, which was woken to contend, takes the permits that it wants.
    Contend { id: usize, wanted: usize },
    /// The future in slot `id`, which was woken to contend, does not find enough permits, passes
    /// the wakeup on, and joins the queue again, in slot `next`.
    Requeue { id: usize, wanted: usize, next: usize, waker: Waker },
    /// The future in slot `id` is dropped.
    Cancel { id: usize },
}

/// A semaphore, and an account of its permits.
pub struct Ledger {
    /// The contents of the semaphore.
    pub state: SemaphoreState,
    /// The number of permits that guards hold.
    pub out: int,
    /// The number of permits that the semaphore was made with and that were added to it, less
    /// those that were leaked.
    pub supply: int,
}

/// What an operation does to a semaphore and to the account of its permits.
pub open spec fn operates(before: Ledger, after: Ledger, operation: Operation) -> bool {
    let state = before.state;
    match operation {
        Operation::Add { permits, fairness } => {
            &&& state.total + permits <= usize::MAX
            &&& after == Ledger {
                state: SemaphoreState {
                    total: state.total + permits,
                    ..state.released(permits as int, fairness)
                },
                supply: before.supply + permits,
                ..before
            }
        },
        Operation::Take { permits } => {
            &&& permits <= state.available
            &&& after == Ledger {
                state: state.taken(permits as int),
                out: before.out + permits,
                ..before
            }
        },
        Operation::Release { permits, fairness } => {
            &&& permits <= before.out
            &&& after == Ledger {
                state: state.released(permits as int, fairness),
                out: before.out - permits,
                ..before
            }
        },
        Operation::Leak { permits } => {
            &&& permits <= before.out
            &&& after == Ledger {
                state: SemaphoreState { total: state.total - permits, ..state },
                out: before.out - permits,
                supply: before.supply - permits,
            }
        },
        Operation::Queue { id, wanted, waker } => {
            &&& state.waiters.vacant(id)
            &&& state.waiters.slots.len() < usize::MAX
            &&& after == Ledger {
                state: SemaphoreState {
                    waiters: state.waiters.enqueued(id, wanted, waker),
                    ..state
                },
                ..before
            }
        },
        Operation::Poll { id, waker } => {
            &&& state.waiters.occupied(id)
            &&& state.waiters.slots[id as int] is Waiting
            &&& after == Ledger {
                state: SemaphoreState { waiters: state.waiters.rewakered(id, waker), ..state },
                ..before
            }
        },
        Operation::Claim { id } => {
            &&& state.waiters.occupied(id)
            &&& state.waiters.slots[id as int] matches Slot::Woken { output: WakeUp::Fair(_) }
            &&& after == Ledger {
                state: state.collected(id),
                out: before.out + grant(state.waiters.slots[id as int]),
                ..before
            }
        },
        Operation::Contend { id, wanted } => {
            &&& state.waiters.occupied(id)
            &&& state.waiters.slots[id as int] == (Slot::<usize, WakeUp>::Woken {
                output: WakeUp::Unfair,
            })
            &&& wanted <= state.available
            &&& after == Ledger {
                state: state.collected(id).taken(wanted as int),
                out: before.out + wanted,
                ..before
            }
        },
        Operation::Requeue { id, wanted, next, waker } => {
            let passed = state.collected(id).released(0, Fairness::Unfair);
            &&& state.waiters.occupied(id)
            &&& state.waiters.slots[id as int] == (Slot::<usize, WakeUp>::Woken {
                output: WakeUp::Unfair,
            })
            &&& wanted > state.available
            &&& passed.waiters.vacant(next)
            &&& passed.waiters.slots.len() < usize::MAX
            &&& after == Ledger {
                state: SemaphoreState {
                    waiters: passed.waiters.enqueued(next, wanted, waker),
                    ..passed
                },
                ..before
            }
        },
        Operation::Cancel { id } => {
            &&& state.waiters.occupied(id)
            &&& after == Ledger { state: state.cancelled(id), ..before }
        },
    }
}

/// A semaphore that was made with `permits` permits goes through `ledgers`.
pub open spec fn semaphore_run(
    permits: usize,
    ledgers: Seq<Ledger>,
    operations: Seq<Operation>,
) -> bool {
    &&& ledgers.len() == operations.len() + 1
    &&& ledgers[0] == Ledger {
        state: SemaphoreState {
            identity: ledgers[0].state.identity,
            waiters: Waiters::empty(),
            available: permits as int,
            total: permits as int,
        },
        out: 0,
        supply: permits as int,
    }
    &&& forall|j: int|
        0 <= j < operations.len() ==> operates(
            ledgers[j],
            ledgers[j + 1],
            #[trigger] operations[j],
        )
}

/// Every permit is accounted for, whatever happens to a semaphore after it has been made: the
/// total is the number of permits that it was made with and that were added to it, less those that
/// were leaked, and each of them is either available, or held by a guard, or granted to a waiter
/// that has not collected it.
pub proof fn law_permits_are_accounted_for(
    permits: usize,
    ledgers: Seq<Ledger>,
    operations: Seq<Operation>,
)
    requires
        semaphore_run(permits, ledgers, operations),
    ensures
        ({
            let last = ledgers.last();
            &&& last.state.inv()
            &&& last.out >= 0
            &&& last.state.total == last.supply
            &&& last.state.total == last.state.available + last.out + granted(
                last.state.waiters.slots,
            )
            &&& last.out == last.state.held()
            &&& last.state.identity == ledgers[0].state.identity
        }),
    decreases operations.len(),
{
    if operations.len() > 0 {
        let n = operations.len() - 1;
        let front = ledgers.drop_last();
        let earlier = operations.drop_last();
        assert forall|j: int| 0 <= j < earlier.len() implies operates(
            front[j],
            front[j + 1],
            #[trigger] earlier[j],
        ) by {
            assert(operates(ledgers[j], ledgers[j + 1], operations[j]));
        }
        assert(front[0] == ledgers[0]);
        law_permits_are_accounted_for(permits, front, earlier);
        assert(operates(ledgers[n], ledgers[n + 1], operations[n]));
        lemma_operates(ledgers[n], ledgers[n + 1], operations[n]);
    }
}

/// An operation keeps the account of a semaphore's permits right.
proof fn lemma_operates(before: Ledger, after: Ledger, operation: Operation)
    requires
        before.state.inv(),
        before.out == before.state.held(),
        before.state.total == before.supply,
        operates(before, after, operation),
    ensures
        after.state.inv(),
        after.out == after.state.held(),
        after.state.total == after.supply,
        after.state.identity == before.state.identity,
{
    let state = before.state;
    lemma_granted_nonneg(state.waiters.slots);
    match operation {
        Operation::Add { permits, fairness } => {
            let added = SemaphoreState { total: state.total + permits, ..state };
            law_release_conserves_permits(added, permits as int, fairness);
            assert(after.state == added.released(permits as int, fairness));
        },
        Operation::Take { permits } => {},
        Operation::Release { permits, fairness } => {
            law_release_conserves_permits(state, permits as int, fairness);
        },
        Operation::Leak { permits } => {},
        Operation::Queue { id, wanted, waker } => {
            crate::wait_list::law_enqueue_keeps_inv(state.waiters, id, wanted, waker);
            lemma_granted_put(
                state.waiters.slots,
                id as int,
                Slot::Waiting { input: wanted, waker },
            );
        },
        Operation::Poll { id, waker } => {
            crate::wait_list::law_poll_keeps_inv(state.waiters, id, waker);
            lemma_granted_update(
                state.waiters.slots,
                id as int,
                Slot::Waiting { input: state.waiters.slots[id as int]->input, waker },
            );
        },
        Operation::Claim { id } => {
            crate::wait_list::law_collect_keeps_inv(state.waiters, id);
            lemma_granted_update(state.waiters.slots, id as int, Slot::Vacant);
        },
        Operation::Contend { id, wanted } => {
            crate::wait_list::law_collect_keeps_inv(state.waiters, id);
            lemma_granted_update(state.waiters.slots, id as int, Slot::Vacant);
        },
        Operation::Requeue { id, wanted, next, waker } => {
            crate::wait_list::law_collect_keeps_inv(state.waiters, id);
            lemma_granted_update(state.waiters.slots, id as int, Slot::Vacant);
            let collected = state.collected(id);
            law_release_conserves_permits(collected, 0, Fairness::Unfair);
            let passed = collected.released(0, Fairness::Unfair);
            crate::wait_list::law_enqueue_keeps_inv(passed.waiters, next, wanted, waker);
            lemma_granted_put(
                passed.waiters.slots,
                next as int,
                Slot::Waiting { input: wanted, waker },
            );
        },
        Operation::Cancel { id } => {
            law_cancel_conserves_permits(state, id);
        },
    }
}

proof fn lemma_demand_is_sum(waiters: Waiters<usize, WakeUp>, k: int)
    requires
        0 <= k <= waiters.queue.len(),
    ensures
        demand(waiters, k) == waiters.queue.take(k).fold_left(
            0int,
            |sum: int, id: usize| sum + waiters.slots[id as int]->input,
        ),
    decreases k,
{
    if k > 0 {
        lemma_demand_is_sum(waiters, k - 1);
        assert(waiters.queue.take(k).drop_last() =~= waiters.queue.take(k - 1));
    }
}

/// A release takes waiters out of the queue, from its front and in their order, for as long as the
/// permits that are available then are enough for what all of them want together, and no longer.
/// Each waiter that it takes out is woken: as many wakers are handed out as waiters left the queue,
/// the first of them being that of the first waiter, and so on. Nothing else happens to any waiter.
///
/// If the release is fair, what each of them wants is granted to it and is no longer available. If
/// it is not, they are woken to contend, and everything that was released is available.
pub proof fn law_release_wakes_whom_it_serves(
    state: SemaphoreState,
    permits: int,
    fairness: Fairness,
)
    requires
        state.inv(),
        permits >= 0,
    ensures
        ({
            let after = state.released(permits, fairness);
            let wakers = state.release_wakers(permits);
            let queue = state.waiters.queue;
            let slots = state.waiters.slots;
            let k = queue.len() - after.waiters.queue.len();
            let wanted = |n: int|
                queue.take(n).fold_left(
                    0int,
                    |sum: int, id: usize| sum + state.waiters.slots[id as int]->input,
                );
            &&& 0 <= k <= queue.len()
            &&& after.waiters.queue == queue.skip(k)
            &&& wanted(k) <= state.available + permits
            &&& k < queue.len() ==> wanted(k + 1) > state.available + permits
            &&& wakers.len() == k
            &&& forall|i: int|
                0 <= i < k ==> #[trigger] wakers[i] == slots[queue[i] as int]->waker
            &&& after.waiters.slots.len() == slots.len()
            &&& forall|i: int|
                0 <= i < k ==> after.waiters.slots[#[trigger] queue[i] as int] == (Slot::<
                    usize,
                    WakeUp,
                >::Woken {
                    output: match fairness {
                        Fairness::Fair => WakeUp::Fair(slots[queue[i] as int]->input),
                        Fairness::Unfair => WakeUp::Unfair,
                    },
                })
            &&& forall|j: int|
                0 <= j < slots.len() && !queue.take(k).contains(j as usize)
                    ==> #[trigger] after.waiters.slots[j] == slots[j]
            &&& after.available == state.available + permits - (match fairness {
                Fairness::Fair => wanted(k),
                Fairness::Unfair => 0,
            })
            &&& after.total == state.total
            &&& after.identity == state.identity
        }),
{
    let k = state.wakes_on_release(permits);
    lemma_served(state.waiters, 0, state.available + permits);
    lemma_woken_up(state.waiters, k, fairness);
    lemma_demand_is_sum(state.waiters, k);
    if k < state.waiters.queue.len() {
        lemma_demand_is_sum(state.waiters, k + 1);
    }
    assert forall|i: int| 0 <= i < k implies woken_up(
        state.waiters,
        k,
        fairness,
    ).slots[#[trigger] state.waiters.queue[i] as int] == (Slot::<usize, WakeUp>::Woken {
        output: match fairness {
            Fairness::Fair => WakeUp::Fair(
                state.waiters.slots[state.waiters.queue[i] as int]->input,
            ),
            Fairness::Unfair => WakeUp::Unfair,
        },
    }) by {}
}

/// Cancelling a waiter that has not been woken takes it out of the queue and wakes nobody.
/// Cancelling one that has been woken is the same as an unfair release, in its absence, of what it
/// was granted, and so wakes whom such a release wakes.
pub proof fn law_cancel_is_a_release(state: SemaphoreState, id: usize)
    requires
        state.inv(),
        id < state.waiters.slots.len(),
        !(state.waiters.slots[id as int] is Vacant),
    ensures
        ({
            let after = state.cancelled(id);
            let rest = SemaphoreState {
                waiters: Waiters {
                    slots: state.waiters.slots.update(id as int, Slot::Vacant),
                    queue: state.waiters.queue,
                },
                ..state
            };
            match state.waiters.slots[id as int] {
                Slot::Woken { output } => {
                    let granted: int = match output {
                        WakeUp::Fair(permits) => permits as int,
                        WakeUp::Unfair => 0,
                    };
                    &&& after == rest.released(granted, Fairness::Unfair)
                    &&& state.cancel_wakers(id) == rest.release_wakers(granted)
                    &&& state.collected(id) == rest
                },
                _ => {
                    &&& after == (SemaphoreState { waiters: after.waiters, ..state })
                    &&& after.waiters.slots == rest.waiters.slots
                    &&& after.waiters.queue == state.waiters.queue.filter(
                        |other: usize| other != id,
                    )
                    &&& state.cancel_wakers(id).len() == 0
                },
            }
        }),
{
    if state.waiters.slots[id as int] is Waiting {
        crate::wait_list::law_cancel_keeps_order(state.waiters, id);
    }
}

/// A waiter that was woken and goes without taking permits, because it is cancelled or because it
/// joins the queue again, passes the wakeup on. Each waiter that is taken out of the queue by that
/// is woken: as many wakers are handed out as waiters left the queue, and they are those of the
/// first waiters in it, in their order. If nobody is, the first waiter wants more than is available.
pub proof fn law_passing_on_wakes_whom_it_serves(state: SemaphoreState, id: usize)
    requires
        state.inv(),
        id < state.waiters.slots.len(),
        state.waiters.slots[id as int] is Woken,
    ensures
        ({
            let queue = state.waiters.queue;
            let slots = state.waiters.slots;
            let after = state.cancelled(id);
            let k = queue.len() - after.waiters.queue.len();
            let wakers = state.cancel_wakers(id);
            &&& 0 <= k <= queue.len()
            &&& after.waiters.queue == queue.skip(k)
            &&& wakers.len() == k
            &&& forall|i: int|
                0 <= i < k ==> #[trigger] wakers[i] == slots[queue[i] as int]->waker
            &&& forall|i: int|
                0 <= i < k ==> after.waiters.slots[#[trigger] queue[i] as int] is Woken
            &&& after.waiters.slots[id as int] is Vacant
            &&& k == 0 && queue.len() > 0 ==> slots[queue[0] as int]->input > after.available
        }),
        ({
            let queue = state.waiters.queue;
            let slots = state.waiters.slots;
            let after = state.collected(id).released(0, Fairness::Unfair);
            let k = queue.len() - after.waiters.queue.len();
            let wakers = state.collected(id).release_wakers(0);
            &&& 0 <= k <= queue.len()
            &&& after.waiters.queue == queue.skip(k)
            &&& wakers.len() == k
            &&& forall|i: int|
                0 <= i < k ==> #[trigger] wakers[i] == slots[queue[i] as int]->waker
            &&& forall|i: int|
                0 <= i < k ==> after.waiters.slots[#[trigger] queue[i] as int] is Woken
            &&& after.waiters.slots[id as int] is Vacant
            &&& after.available == state.available
            &&& k == 0 && queue.len() > 0 ==> slots[queue[0] as int]->input > state.available
        }),
{
    let slot = state.waiters.slots[id as int];
    let rest = state.collected(id);
    let queue = state.waiters.queue;
    lemma_granted_update(state.waiters.slots, id as int, Slot::Vacant);
    crate::wait_list::law_collect_keeps_inv(state.waiters, id);
    law_release_wakes_whom_it_serves(rest, grant(slot), Fairness::Unfair);
    law_release_wakes_whom_it_serves(rest, 0, Fairness::Unfair);
    assert forall|i: int| 0 <= i < queue.len() implies #[trigger] queue[i] != id
        && queue[i] < state.waiters.slots.len() && rest.waiters.slots[queue[i] as int]
        == state.waiters.slots[queue[i] as int] by {}
    if queue.len() > 0 {
        assert(queue.take(1).drop_last() =~= queue.take(0));
        assert(queue.take(1).fold_left(
            0int,
            |sum: int, id: usize| sum + rest.waiters.slots[id as int]->input,
        ) == rest.waiters.slots[queue[0] as int]->input) by {
            reveal_with_fuel(Seq::fold_left, 2);
        }
    }
}

/// Taking permits makes them unavailable and does nothing else. Those that are held by guards are
/// the ones that are neither available nor granted to a waiter that has been woken.
pub proof fn law_permits_are_somewhere(state: SemaphoreState, permits: int)
    ensures
        state.taken(permits) == (SemaphoreState {
            identity: state.identity,
            waiters: state.waiters,
            available: state.available - permits,
            total: state.total,
        }),
        state.total == state.available + state.held() + state.waiters.slots.fold_left(
            0int,
            |sum: int, slot: Slot<usize, WakeUp>|
                sum + (match slot {
                    Slot::Woken { output: WakeUp::Fair(granted) } => granted as int,
                    _ => 0,
                }),
        ),
{
    lemma_granted_is_sum(state.waiters.slots);
}

proof fn lemma_granted_is_sum(slots: Seq<Slot<usize, WakeUp>>)
    ensures
        granted(slots) == slots.fold_left(
            0int,
            |sum: int, slot: Slot<usize, WakeUp>|
                sum + (match slot {
                    Slot::Woken { output: WakeUp::Fair(granted) } => granted as int,
                    _ => 0,
                }),
        ),
    decreases slots.len(),
{
    if slots.len() > 0 {
        lemma_granted_is_sum(slots.drop_last());
    }
}

/// A future that completes by taking permits gets as many as it asked for, from the semaphore that
/// it was made with. One that has to wait is behind everyone in the queue, and nothing else
/// changes.
pub proof fn law_acquire_takes_or_waits(
    acquire: &Acquire,
    before: SemaphoreState,
    after: SemaphoreState,
    waker: Waker,
    result: Poll<Permit>,
)
    ensures
        acquire.took(before, after, result) ==> {
            &&& acquire@ is Done
            &&& result matches Poll::Ready(permit) && permit@ == acquire.to_acquire()
                && permit.semaphore() == before.identity
            &&& after.available == before.available - acquire.to_acquire()
            &&& after.total == before.total
            &&& after.waiters == before.waiters
            &&& after.identity == before.identity
        },
        acquire.queued(before, after, waker, result) ==> {
            &&& result is Pending
            &&& acquire@ matches Phase::Queued(id) && id <= before.waiters.slots.len() && (id
                < before.waiters.slots.len() ==> before.waiters.slots[id as int] is Vacant)
                && after.waiters.slots[id as int] == (Slot::<usize, WakeUp>::Waiting {
                input: acquire.to_acquire(),
                waker,
            }) && after.waiters.queue == before.waiters.queue.push(id) && forall|j: int|
                0 <= j < before.waiters.slots.len() && j != id ==> #[trigger] after.waiters.slots[j]
                    == before.waiters.slots[j]
            &&& after.available == before.available
            &&& after.total == before.total
            &&& after.identity == before.identity
        },
{
}

} // verus!
