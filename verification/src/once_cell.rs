//! [`OnceCell`] holds a value that can be written to only once.
//!
//! The initialization procedure may be asynchronous: a future that is to
//! initialize the cell says so when it is polled, and is told the outcome once
//! there is one.
use crate::task::Poll;
use crate::wait_list::{Phase, Slot, Wait, WaitList, Waiters};
use std::task::Waker;
use vstd::std_specs::cmp::PartialEqSpec;
use vstd::prelude::*;

verus! {

/// What a cell holds.
pub enum State<T> {
    /// The value has not been filled yet
    Uninit,
    /// A task is currently calling `get_or_init` or `get_or_try_init`
    Initializing,
    /// The value is present
    Initialized { value: T },
}

/// The contents of a cell.
pub struct Contents<T> {
    /// What the cell holds.
    pub state: State<T>,
    /// The tasks waiting for the initialization to complete.
    pub waiters: Waiters<(), ()>,
    /// Whether some task is running an initializer.
    pub running: bool,
}

/// No waiter has been woken without having collected its output.
pub open spec fn none_woken(slots: Seq<Slot<(), ()>>) -> bool {
    forall|j: int| 0 <= j < slots.len() ==> !((#[trigger] slots[j]) is Woken)
}

/// At most one waiter has been woken without having collected its output.
pub open spec fn one_woken(slots: Seq<Slot<(), ()>>) -> bool {
    forall|i: int, j: int|
        0 <= i < slots.len() && 0 <= j < slots.len() && (#[trigger] slots[i]) is Woken && (
        #[trigger] slots[j]) is Woken ==> i == j
}

impl<T> Contents<T> {
    /// A cell with no value inside.
    pub open spec fn empty() -> Self {
        Contents { state: State::Uninit, waiters: Waiters::empty(), running: false }
    }

    /// The value in the cell.
    pub open spec fn value(self) -> Option<T> {
        match self.state {
            State::Initialized { value } => Some(value),
            _ => None,
        }
    }

    /// Tasks wait only while the cell is being initialized. The job of initializing it is
    /// with at most one running task, or has been passed to at most one woken waiter, and is
    /// never with both. It is with neither once the waiter that it was passed to has been
    /// cancelled.
    pub open spec fn inv(self) -> bool {
        &&& self.waiters.inv()
        &&& match self.state {
            State::Uninit => {
                &&& self.waiters.queue.len() == 0
                &&& none_woken(self.waiters.slots)
                &&& !self.running
            },
            State::Initializing => {
                &&& one_woken(self.waiters.slots)
                &&& self.running ==> none_woken(self.waiters.slots)
            },
            State::Initialized { .. } => {
                &&& self.waiters.queue.len() == 0
                &&& !self.running
            },
        }
    }

    /// The cell after the running initializer has produced `value`: it holds the value, and
    /// every waiter has been woken.
    pub open spec fn initialized(self, value: T) -> Self {
        Contents {
            state: State::Initialized { value },
            waiters: crate::wait_list::wake_all(
                self.waiters,
                Seq::new(self.waiters.queue.len(), |i: int| ()),
            ),
            running: false,
        }
    }

    /// The wakers of all tasks in the queue.
    pub open spec fn all_wakers(self) -> Seq<Waker> {
        Seq::new(self.waiters.queue.len(), |i: int| self.waiters.waker(i))
    }

    /// The cell after the running initializer has failed: the job has been passed to the first
    /// waiter, or the cell is uninitialized again if there is none.
    pub open spec fn failed(self) -> Self {
        if self.waiters.queue.len() > 0 {
            Contents { waiters: self.waiters.woken(()), running: false, ..self }
        } else {
            Contents { state: State::Uninit, running: false, ..self }
        }
    }

    /// The wakers handed out when the running initializer fails.
    pub open spec fn failure_wakers(self) -> Seq<Waker> {
        if self.waiters.queue.len() > 0 {
            seq![self.waiters.waker(0)]
        } else {
            Seq::empty()
        }
    }
}

/// A value that can be written to only once.
///
/// A `OnceCell` is typically used for global variables that need to be initialized once on first
/// use, but need no further changes. This `OnceCell` allows the initialization procedure to be
/// asynchronous.
pub struct OnceCell<T> {
    state: State<T>,
    /// The list of tasks waiting for the initialization to complete.
    ///
    /// When it completes succesfully, this entire list will be woken. When it fails to
    /// complete, the first task on this list is woken and is expected to continue the
    /// initialization.
    waiters: WaitList<(), ()>,
    /// Whether some task is running an initializer.
    running: Ghost<bool>,
}

impl<T> View for OnceCell<T> {
    type V = Contents<T>;

    closed spec fn view(&self) -> Contents<T> {
        Contents { state: self.state, waiters: self.waiters@, running: self.running@ }
    }
}

impl<T> OnceCell<T> {
    /// The list of waiters is intact, and not borrowed.
    pub closed spec fn list_wf(&self) -> bool {
        self.waiters.wf() && !self.waiters.is_borrowed()
    }

    pub open spec fn wf(&self) -> bool {
        self.list_wf() && self@.inv()
    }

    /// Create a new `OnceCell` with no value inside.
    #[must_use]
    pub fn new() -> (cell: Self)
        ensures
            cell.wf(),
            cell@ == Contents::<T>::empty(),
    {
        Self { state: State::Uninit, waiters: WaitList::new(), running: Ghost(false) }
    }

    /// Get a shared reference to the inner value, returning `None` if it has not been set yet or is
    /// in the process of being set.
    #[must_use]
    pub fn get(&self) -> (value: Option<&T>)
        ensures
            match value {
                Some(value) => self@.value() == Some(*value),
                None => self@.value() is None,
            },
    {
        match &self.state {
            State::Initialized { value } => Some(value),
            _ => None,
        }
    }

    /// Get a unique reference to the inner value, returning `None` if it has not been set yet or
    /// is in the process of being set.
    #[must_use]
    pub fn get_mut(&mut self) -> (value: Option<&mut T>)
        requires
            old(self).wf(),
        ensures
            final(self).wf(),
            match value {
                Some(value) => {
                    &&& old(self)@.value() == Some(*value)
                    &&& final(self)@ == (Contents {
                        state: State::Initialized { value: *final(value) },
                        ..old(self)@
                    })
                },
                None => old(self)@.value() is None && final(self)@ == old(self)@,
            },
    {
        match &mut self.state {
            State::Initialized { value } => Some(value),
            _ => None,
        }
    }

    /// Set the contents of the cell to `value` if it is unset.
    ///
    /// In contrast to [`OnceCell::insert`], if the cell is currently being initialized this function
    /// will not wait and will instead return [`SetResult::Initializing`] immediately.
    pub fn set<'once_cell>(&'once_cell mut self, value: T) -> (result: SetResult<'once_cell, T>)
        requires
            old(self).wf(),
        ensures
            final(self).wf(),
            match old(self)@.state {
                State::Uninit => {
                    &&& result == SetResult::Stored(&value)
                    &&& final(self)@ == (Contents {
                        state: State::Initialized { value },
                        ..old(self)@
                    })
                },
                State::Initializing => {
                    &&& result == SetResult::<'once_cell, T>::Initializing(value)
                    &&& final(self)@ == old(self)@
                },
                State::Initialized { value: present } => {
                    &&& result == SetResult::Initialized(&present, value)
                    &&& final(self)@ == old(self)@
                },
            },
    {
        if matches!(self.state, State::Uninit) {
            self.state = State::Initialized { value };
            return match &self.state {
                State::Initialized { value } => SetResult::Stored(value),
                _ => vstd::pervasive::unreached(),
            };
        }
        match &self.state {
            State::Initialized { value: present } => SetResult::Initialized(present, value),
            _ => SetResult::Initializing(value),
        }
    }
}

impl<T> OnceCell<T> {
    /// Set the contents of the cell to `value` if it is unset, or wait for it to be set.
    ///
    /// If the cell is currently being initialized, the returned future will wait for that to
    /// complete — if you do not wish to wait in that case, use [`OnceCell::set`] instead.
    pub fn insert(&self, value: T) -> (insert: Insert<T>)
        ensures
            insert@ is Created,
            insert.value() == Some(value),
    {
        Insert { value: Some(value), init: Init { progress: Progress::Created } }
    }

    /// Get the contents of the cell, initializing it if it was empty.
    ///
    /// The returned future says when the caller is to run its initializer, the result of which
    /// it is given with [`Init::resolve`].
    pub fn get_or_init(&self) -> (init: Init)
        ensures
            init@ is Created,
    {
        self.get_or_try_init()
    }

    /// Get the contents of the cell, attempting to initialize it if it was empty.
    ///
    /// The returned future says when the caller is to run its initializer, the result of which
    /// it is given with [`Init::resolve`].
    pub fn get_or_try_init(&self) -> (init: Init)
        ensures
            init@ is Created,
    {
        Init { progress: Progress::Created }
    }

    /// Take the value out of the `OnceCell`, leaving it in an uninitialized state.
    pub fn take(&mut self) -> (value: Option<T>)
        ensures
            final(self).wf(),
            final(self)@ == Contents::<T>::empty(),
            value == old(self)@.value(),
    {
        let mut cell = Self::new();
        std::mem::swap(&mut cell, self);
        cell.into_inner()
    }

    /// Consume this `OnceCell` and return the inner value, if there was any.
    pub fn into_inner(self) -> (value: Option<T>)
        ensures
            value == self@.value(),
    {
        match self.state {
            State::Uninit | State::Initializing => None,
            State::Initialized { value } => Some(value),
        }
    }
}

impl<T> OnceCell<T> {
    /// Store the value that the running initializer has produced, and wake all waiters.
    fn initialize(&mut self, value: T, wakes: &mut Vec<Waker>)
        requires
            old(self).wf(),
            old(self)@.state is Initializing,
            old(self)@.running,
        ensures
            final(self).wf(),
            final(self)@ == old(self)@.initialized(value),
            final(wakes)@ == old(wakes)@ + old(self)@.all_wakers(),
    {
        let ghost w = self.waiters@;
        let ghost woken_before = wakes@;
        let ghost units = |k: int| Seq::new(k as nat, |i: int| ());
        let ghost wakers = |k: int| Seq::new(k as nat, |i: int| w.waker(i));
        self.state = State::Initialized { value };
        self.running = Ghost(false);
        let mut waiters = self.waiters.borrow();
        let ghost mut k: int = 0;
        proof {
            assert(wakes@ =~= woken_before + wakers(0));
            crate::wait_list::law_wake_is_first_in_first_out(w, units(0));
        }
        loop
            invariant
                w.inv(),
                self.state == (State::Initialized { value }),
                !self.running@,
                self.waiters.wf(),
                self.waiters.is_borrowed(),
                waiters.wf(),
                0 <= k <= w.queue.len(),
                units == (|k: int| Seq::new(k as nat, |i: int| ())),
                wakers == (|k: int| Seq::new(k as nat, |i: int| w.waker(i))),
                waiters@ == crate::wait_list::wake_all(w, units(k)),
                wakes@ == woken_before + wakers(k),
            ensures
                waiters@.queue.len() == 0,
                k == w.queue.len(),
            decreases w.queue.len() - k,
        {
            proof {
                crate::wait_list::law_wake_is_first_in_first_out(w, units(k));
                if k < w.queue.len() {
                    let id = w.queue[k];
                    assert(waiters@.queue[0] == id);
                    assert(!w.queue.take(k).contains(id));
                    assert(waiters@.slots[id as int] == w.slots[id as int]);
                }
            }
            if waiters.wake_one((), wakes).is_err() {
                break ;
            }
            proof {
                assert(units(k + 1).drop_last() =~= units(k));
                assert(wakes@ =~= woken_before + wakers(k + 1));
                k = k + 1;
            }
        }
        self.waiters.release(waiters);
        proof {
            crate::wait_list::law_wake_is_first_in_first_out(w, units(k));
        }
    }

    /// Pass the job of initialization onto the next waiter. If there is none, no-one is
    /// initializing the cell, so it is uninitialized again.
    fn fail(&mut self, wakes: &mut Vec<Waker>)
        requires
            old(self).wf(),
            old(self)@.state is Initializing,
            old(self)@.running,
        ensures
            final(self).wf(),
            final(self)@ == old(self)@.failed(),
            final(wakes)@ == old(wakes)@ + old(self)@.failure_wakers(),
    {
        self.running = Ghost(false);
        let mut waiters = self.waiters.borrow();
        if waiters.wake_one((), wakes).is_err() {
            self.state = State::Uninit;
        }
        self.waiters.release(waiters);
    }
}

impl<T> Default for OnceCell<T> {
    fn default() -> (cell: Self)
        ensures
            cell.wf(),
            cell@ == Contents::<T>::empty(),
    {
        Self::new()
    }
}

impl<T> From<T> for OnceCell<T> {
    fn from(value: T) -> (cell: Self)
        ensures
            cell.wf(),
            cell@ == (Contents { state: State::Initialized { value }, ..Contents::empty() }),
    {
        Self {
            state: State::Initialized { value },
            waiters: WaitList::new(),
            running: Ghost(false),
        }
    }
}

impl<T> vstd::std_specs::convert::FromSpecImpl<T> for OnceCell<T> {
    open spec fn obeys_from_spec() -> bool {
        false
    }

    open spec fn from_spec(value: T) -> Self {
        arbitrary()
    }
}

impl<T: PartialEq> PartialEq for OnceCell<T> {
    fn eq(&self, other: &Self) -> (equal: bool) {
        match (self.get(), other.get()) {
            (Some(value), Some(other)) => *value == *other,
            (None, None) => true,
            _ => false,
        }
    }
}

impl<T: PartialEq> vstd::std_specs::cmp::PartialEqSpecImpl for OnceCell<T> {
    open spec fn obeys_eq_spec() -> bool {
        T::obeys_eq_spec()
    }

    open spec fn eq_spec(&self, other: &Self) -> bool {
        match (self@.value(), other@.value()) {
            (Some(value), Some(other)) => value.eq_spec(&other),
            (None, None) => true,
            _ => false,
        }
    }
}

impl<T: Eq> Eq for OnceCell<T> {

}

impl<T: Clone> Clone for OnceCell<T> {
    fn clone(&self) -> (cell: Self)
        ensures
            cell.wf(),
            match self@.value() {
                Some(value) => {
                    &&& cell@.value() is Some
                    &&& cloned::<T>(value, cell@.value()->0)
                    &&& cell@ == (Contents { state: cell@.state, ..Contents::empty() })
                },
                None => cell@ == Contents::<T>::empty(),
            },
    {
        match self.get() {
            Some(value) => Self::from(value.clone()),
            None => Self::new(),
        }
    }
}

/// The return value of [`OnceCell::set`].
#[derive(Debug, Clone, Copy, PartialEq, Eq)]
pub enum SetResult<'once_cell, T> {
    /// The cell was succesfully initialized. Contains a reference to the new inner value.
    Stored(&'once_cell T),
    /// The cell was in the process of being initialized by another task, and so could not be set.
    /// Contains the value passed into [`OnceCell::set`].
    Initializing(T),
    /// The cell was already initialized. Contains both a reference to the initialized value and
    /// the value passed into `set`.
    Initialized(&'once_cell T, T),
}

impl<'once_cell, T> SetResult<'once_cell, T> {
    /// Get a [`Result`] over whether the given value was successfully inserted into the cell.
    pub fn ok(self) -> (result: Result<&'once_cell T, T>)
        ensures
            match self {
                SetResult::Stored(value) => result == Ok::<&'once_cell T, T>(value),
                SetResult::Initializing(value) => result == Err::<&'once_cell T, T>(value),
                SetResult::Initialized(_, value) => result == Err::<&'once_cell T, T>(value),
            },
    {
        match self {
            SetResult::Stored(value) => Ok(value),
            SetResult::Initializing(value) | SetResult::Initialized(_, value) => Err(value),
        }
    }

    /// Retrieve a shared reference to the value inside the [`OnceCell`] if one was present.
    pub fn value(&self) -> (value: Option<&'once_cell T>)
        ensures
            match *self {
                SetResult::Stored(present) => value == Some(present),
                SetResult::Initialized(present, _) => value == Some(present),
                SetResult::Initializing(_) => value is None,
            },
    {
        match self {
            SetResult::Stored(value) | SetResult::Initialized(value, _) => Some(value),
            SetResult::Initializing(_) => None,
        }
    }

    /// The stored value, of a result that says that setting it succeeded.
    pub fn unwrap(self) -> (value: &'once_cell T)
        requires
            self is Stored,
        ensures
            self == SetResult::Stored(value),
    {
        match self {
            SetResult::Stored(value) => value,
            _ => vstd::pervasive::unreached(),
        }
    }
}

/// How far an initializing future has come.
pub enum Progress {
    /// The future has not been polled.
    Created,
    /// Another task is initializing the cell.
    Waiting(Wait<()>),
    /// The initializer of this future is running.
    Running,
    /// The future has completed.
    Done,
}

/// What is to be done after an initializing future has been polled.
#[derive(Debug, PartialEq, Eq)]
pub enum Step<'once_cell, T> {
    /// Nothing: the cell holds this value.
    Ready(&'once_cell T),
    /// The task is to be suspended.
    Pending,
    /// The initializer is to be run.
    Run,
}

/// The same, without the value.
#[derive(Clone, Copy)]
pub enum Advance {
    Ready,
    Pending,
    Run,
}

/// The future returned by [`OnceCell::get_or_init`] and [`OnceCell::get_or_try_init`].
pub struct Init {
    progress: Progress,
}

impl View for Init {
    type V = Progress;

    closed spec fn view(&self) -> Progress {
        self.progress
    }
}

/// A future that waits has a waiter in the list, and one whose initializer is running has the
/// job of initializing the cell.
pub open spec fn fits<T>(progress: Progress, contents: Contents<T>) -> bool {
    match progress {
        Progress::Waiting(wait) => {
            &&& wait@ is Queued
            &&& contents.waiters.occupied(wait@->Queued_0)
        },
        Progress::Running => contents.state is Initializing && contents.running,
        _ => true,
    }
}

/// What polling a future with the given progress comes to.
pub open spec fn next_step<T>(contents: Contents<T>, progress: Progress) -> Advance {
    match progress {
        Progress::Created => match contents.state {
            State::Uninit => Advance::Run,
            State::Initializing => Advance::Pending,
            State::Initialized { .. } => Advance::Ready,
        },
        Progress::Waiting(wait) => if contents.waiters.slots[wait@->Queued_0 as int] is Waiting {
            Advance::Pending
        } else if contents.state is Initialized {
            Advance::Ready
        } else {
            // The previous initializer failed, and has passed the job down to us.
            Advance::Run
        },
        Progress::Running => Advance::Run,
        Progress::Done => Advance::Ready,
    }
}

impl<T> Contents<T> {
    /// The cell after a future with the given progress has taken what it was woken with, if it
    /// was waiting.
    pub open spec fn resumed(self, progress: Progress) -> Self {
        match progress {
            Progress::Waiting(wait) => Contents {
                waiters: self.waiters.collected(wait@->Queued_0),
                ..self
            },
            _ => self,
        }
    }

    /// The cell after a future with the given progress has taken the job of initializing it.
    pub open spec fn claimed(self, progress: Progress) -> Self {
        Contents { state: State::Initializing, running: true, ..self.resumed(progress) }
    }
}

/// The cell `after` is the cell `before`, with a future that had the given progress, and now has
/// the progress `next`, waiting for its initialization.
pub open spec fn parked<T>(
    before: Contents<T>,
    after: Contents<T>,
    progress: Progress,
    next: Progress,
    waker: Waker,
) -> bool {
    &&& next matches Progress::Waiting(wait)
    &&& wait@ matches Phase::Queued(id)
    &&& match progress {
        Progress::Waiting(earlier) => {
            &&& wait@ == earlier@
            &&& after == (Contents { waiters: before.waiters.rewakered(id, waker), ..before })
        },
        _ => {
            &&& before.waiters.vacant(id)
            &&& after == (Contents { waiters: before.waiters.enqueued(id, (), waker), ..before })
        },
    }
}

impl Init {
    /// The future fits the cell.
    pub open spec fn valid<T>(&self, contents: Contents<T>) -> bool {
        fits(self@, contents)
    }

    /// Poll the future, and say what is to be done.
    fn advance<T>(&mut self, cell: &mut OnceCell<T>, waker: &Waker) -> (step: Advance)
        requires
            old(cell).wf(),
            !(old(self)@ is Done),
            old(self).valid(old(cell)@),
        ensures
            final(cell).wf(),
            final(self).valid(final(cell)@),
            step == next_step(old(cell)@, old(self)@),
            match step {
                Advance::Ready => {
                    &&& final(self)@ is Done
                    &&& final(cell)@ == old(cell)@.resumed(old(self)@)
                    &&& final(cell)@.state is Initialized
                },
                Advance::Pending => parked(
                    old(cell)@,
                    final(cell)@,
                    old(self)@,
                    final(self)@,
                    *waker,
                ),
                Advance::Run => {
                    &&& final(self)@ is Running
                    &&& final(cell)@ == old(cell)@.claimed(old(self)@)
                },
            },
    {
        let ghost before = cell@;
        let mut progress = Progress::Done;
        std::mem::swap(&mut progress, &mut self.progress);
        match progress {
            Progress::Created => match cell.state {
                State::Uninit => {
                    cell.state = State::Initializing;
                    cell.running = Ghost(true);
                    self.progress = Progress::Running;
                    Advance::Run
                },
                State::Initializing => {
                    let mut wait = cell.waiters.wait(());
                    let _ = wait.poll(&mut cell.waiters, waker);
                    self.progress = Progress::Waiting(wait);
                    Advance::Pending
                },
                State::Initialized { .. } => Advance::Ready,
            },
            Progress::Waiting(mut wait) => {
                match wait.poll(&mut cell.waiters, waker) {
                    Poll::Pending => {
                        self.progress = Progress::Waiting(wait);
                        Advance::Pending
                    },
                    Poll::Ready(()) => match cell.state {
                        State::Initialized { .. } => Advance::Ready,
                        _ => {
                            // The previous initializer failed to initialize the cell. The job
                            // has now been passed down to us.
                            cell.running = Ghost(true);
                            self.progress = Progress::Running;
                            Advance::Run
                        },
                    },
                }
            },
            Progress::Running => {
                self.progress = Progress::Running;
                Advance::Run
            },
            Progress::Done => Advance::Ready,
        }
    }

    /// Poll the future with the waker of the current task.
    pub fn poll<'once_cell, T>(
        &mut self,
        cell: &'once_cell mut OnceCell<T>,
        waker: &Waker,
    ) -> (step: Step<'once_cell, T>)
        requires
            old(cell).wf(),
            !(old(self)@ is Done),
            old(self).valid(old(cell)@),
        ensures
            final(cell).wf(),
            final(self).valid(final(cell)@),
            match next_step(old(cell)@, old(self)@) {
                Advance::Ready => {
                    &&& step matches Step::Ready(value) && old(cell)@.value() == Some(*value)
                    &&& final(self)@ is Done
                    &&& final(cell)@ == old(cell)@.resumed(old(self)@)
                },
                Advance::Pending => {
                    &&& step is Pending
                    &&& parked(old(cell)@, final(cell)@, old(self)@, final(self)@, *waker)
                },
                Advance::Run => {
                    &&& step is Run
                    &&& final(self)@ is Running
                    &&& final(cell)@ == old(cell)@.claimed(old(self)@)
                },
            },
    {
        match self.advance(cell, waker) {
            Advance::Ready => match cell.get() {
                Some(value) => Step::Ready(value),
                None => vstd::pervasive::unreached(),
            },
            Advance::Pending => Step::Pending,
            Advance::Run => Step::Run,
        }
    }

    /// Complete the future with the result of its initializer.
    ///
    /// If it succeeded the value is stored and all waiters are woken. If it failed, the job of
    /// initializing the cell is passed onto the next waiter, if there is one.
    pub fn resolve<'once_cell, T, E>(
        &mut self,
        cell: &'once_cell mut OnceCell<T>,
        result: Result<T, E>,
        wakes: &mut Vec<Waker>,
    ) -> (outcome: Result<&'once_cell T, E>)
        requires
            old(cell).wf(),
            old(self)@ is Running,
            old(self).valid(old(cell)@),
        ensures
            final(cell).wf(),
            final(self)@ is Done,
            match result {
                Ok(value) => {
                    &&& outcome == Ok::<&'once_cell T, E>(&value)
                    &&& final(cell)@ == old(cell)@.initialized(value)
                    &&& final(wakes)@ == old(wakes)@ + old(cell)@.all_wakers()
                },
                Err(error) => {
                    &&& outcome == Err::<&'once_cell T, E>(error)
                    &&& final(cell)@ == old(cell)@.failed()
                    &&& final(wakes)@ == old(wakes)@ + old(cell)@.failure_wakers()
                },
            },
    {
        self.progress = Progress::Done;
        match result {
            Ok(value) => {
                cell.initialize(value, wakes);
                match cell.get() {
                    Some(value) => Ok(value),
                    None => vstd::pervasive::unreached(),
                }
            },
            Err(error) => {
                cell.fail(wakes);
                Err(error)
            },
        }
    }

    /// Drop the future before it has completed.
    ///
    /// A future that waits leaves the list of waiters. If it had been woken to initialize the
    /// cell, the job is not passed on. If its initializer was running, it counts as failed.
    pub fn cancel<T>(self, cell: &mut OnceCell<T>, wakes: &mut Vec<Waker>)
        requires
            old(cell).wf(),
            self.valid(old(cell)@),
        ensures
            final(cell).wf(),
            match self@ {
                Progress::Waiting(wait) => {
                    &&& final(cell)@ == (Contents {
                        waiters: match old(cell)@.waiters.slots[wait@->Queued_0 as int] {
                            Slot::Waiting { .. } => old(cell)@.waiters.dequeued(wait@->Queued_0),
                            _ => old(cell)@.waiters.collected(wait@->Queued_0),
                        },
                        ..old(cell)@
                    })
                    &&& final(wakes)@ == old(wakes)@
                },
                Progress::Running => {
                    &&& final(cell)@ == old(cell)@.failed()
                    &&& final(wakes)@ == old(wakes)@ + old(cell)@.failure_wakers()
                },
                _ => final(cell)@ == old(cell)@ && final(wakes)@ == old(wakes)@,
            },
    {
        match self.progress {
            Progress::Waiting(wait) => {
                let _ = wait.cancel(&mut cell.waiters);
            },
            Progress::Running => cell.fail(wakes),
            _ => {},
        }
    }
}

/// The future returned by [`OnceCell::insert`].
pub struct Insert<T> {
    value: Option<T>,
    init: Init,
}

impl<T> View for Insert<T> {
    type V = Progress;

    closed spec fn view(&self) -> Progress {
        self.init@
    }
}

impl<T> Insert<T> {
    /// The value that has not been inserted yet.
    pub closed spec fn value(&self) -> Option<T> {
        self.value
    }

    /// The future fits the cell, and keeps its value until it has completed.
    pub open spec fn valid(&self, contents: Contents<T>) -> bool {
        &&& fits(self@, contents)
        &&& !(self@ is Done) ==> self.value() is Some
        &&& !(self@ is Running)
    }

    /// Poll the future with the waker of the current task.
    ///
    /// It completes with a reference to the value in the cell, and with whether that is the value
    /// given to [`OnceCell::insert`], which is handed back if it is not.
    pub fn poll<'once_cell>(
        &mut self,
        cell: &'once_cell mut OnceCell<T>,
        waker: &Waker,
        wakes: &mut Vec<Waker>,
    ) -> (result: Poll<Result<&'once_cell T, (&'once_cell T, T)>>)
        requires
            old(cell).wf(),
            !(old(self)@ is Done),
            old(self).valid(old(cell)@),
        ensures
            final(cell).wf(),
            final(self).valid(final(cell)@),
            match next_step(old(cell)@, old(self)@) {
                // The cell is ours to initialize.
                Advance::Run => {
                    let value = old(self).value()->0;
                    let claimed = old(cell)@.claimed(old(self)@);
                    &&& result == Poll::Ready(
                        Ok::<&'once_cell T, (&'once_cell T, T)>(&value),
                    )
                    &&& final(self)@ is Done
                    &&& final(cell)@ == claimed.initialized(value)
                    &&& final(wakes)@ == old(wakes)@ + claimed.all_wakers()
                },
                // The cell holds a value already.
                Advance::Ready => {
                    &&& old(cell)@.value() matches Some(present) && result == Poll::Ready(
                        Err::<&'once_cell T, (&'once_cell T, T)>(
                            (&present, old(self).value()->0),
                        ),
                    )
                    &&& final(self)@ is Done
                    &&& final(cell)@ == old(cell)@.resumed(old(self)@)
                    &&& final(wakes)@ == old(wakes)@
                },
                Advance::Pending => {
                    &&& result is Pending
                    &&& final(self).value() == old(self).value()
                    &&& parked(old(cell)@, final(cell)@, old(self)@, final(self)@, *waker)
                    &&& final(wakes)@ == old(wakes)@
                },
            },
    {
        let step = self.init.advance(cell, waker);
        if let Advance::Pending = step {
            return Poll::Pending;
        }
        let value = self.value.take().unwrap();
        if let Advance::Run = step {
            self.init.progress = Progress::Done;
            cell.initialize(value, wakes);
            return match cell.get() {
                Some(present) => Poll::Ready(Ok(present)),
                None => vstd::pervasive::unreached(),
            };
        }
        match cell.get() {
            Some(present) => Poll::Ready(Err((present, value))),
            None => vstd::pervasive::unreached(),
        }
    }

    /// Drop the future before it has completed, and with it the value to be inserted.
    ///
    /// If it had been woken to initialize the cell, the job is not passed on.
    pub fn cancel(self, cell: &mut OnceCell<T>)
        requires
            old(cell).wf(),
            self.valid(old(cell)@),
        ensures
            final(cell).wf(),
            match self@ {
                Progress::Waiting(wait) => final(cell)@ == (Contents {
                    waiters: match old(cell)@.waiters.slots[wait@->Queued_0 as int] {
                        Slot::Waiting { .. } => old(cell)@.waiters.dequeued(wait@->Queued_0),
                        _ => old(cell)@.waiters.collected(wait@->Queued_0),
                    },
                    ..old(cell)@
                }),
                _ => final(cell)@ == old(cell)@,
            },
    {
        if let Progress::Waiting(wait) = self.init.progress {
            let _ = wait.cancel(&mut cell.waiters);
        }
    }
}

/// A waiter that has been woken never finds the cell uninitialized: the cell holds a value, or
/// the job of initializing it is the waiter's.
pub proof fn law_woken_waiter_finds_value_or_job<T>(contents: Contents<T>, id: usize)
    requires
        contents.inv(),
        contents.waiters.occupied(id),
        contents.waiters.slots[id as int] is Woken,
    ensures
        !(contents.state is Uninit),
        contents.state is Initializing ==> !contents.running,
{
}

/// While an initializer is running, no other future can start one.
pub proof fn law_at_most_one_initializer<T>(contents: Contents<T>, init: &Init)
    requires
        contents.inv(),
        contents.running,
        init.valid(contents),
        !(init@ is Running),
        !(init@ is Done),
    ensures
        next_step(contents, init@) is Pending,
{
    if let Progress::Waiting(wait) = init@ {
        assert(!(contents.waiters.slots[wait@->Queued_0 as int] is Woken));
    }
}

/// A cell that holds a value keeps it: every future that is polled completes, and leaves the
/// value as it is.
pub proof fn law_value_is_written_once<T>(contents: Contents<T>, init: &Init)
    requires
        contents.inv(),
        contents.value() is Some,
        init.valid(contents),
        !(init@ is Done),
    ensures
        next_step(contents, init@) is Ready,
        contents.resumed(init@).value() == contents.value(),
{
    if let Progress::Waiting(wait) = init@ {
        if contents.waiters.slots[wait@->Queued_0 as int] is Waiting {
            assert(contents.waiters.queue.contains(wait@->Queued_0));
        }
    }
}

/// Taking or waiting for the job of initializing a cell never stores a value in it.
pub proof fn law_only_initialization_stores_a_value<T>(contents: Contents<T>, progress: Progress)
    ensures
        contents.claimed(progress).value() is None,
        contents.resumed(progress).value() == contents.value(),
        contents.failed().value() is Some ==> contents.failed().value() == contents.value(),
{
}

/// When an initializer fails while tasks wait, the first of them is woken, and runs its own
/// initializer when it is polled next.
pub proof fn law_failure_passes_job_on<T>(contents: Contents<T>, wait: Wait<()>)
    requires
        contents.inv(),
        contents.state is Initializing,
        contents.running,
        contents.waiters.queue.len() > 0,
        wait@ == Phase::<()>::Queued(contents.waiters.queue[0]),
    ensures
        contents.failed().inv(),
        contents.failed().state is Initializing,
        contents.failure_wakers() == seq![contents.waiters.waker(0)],
        next_step(contents.failed(), Progress::Waiting(wait)) is Run,
{
    crate::wait_list::law_wake_keeps_inv(contents.waiters, ());
}

/// When an initializer fails while no task waits, the cell is as if it had never been tried.
pub proof fn law_failure_without_waiters_resets<T>(before: Contents<T>)
    requires
        before.inv(),
        before.state is Uninit,
    ensures
        before.claimed(Progress::Created).failed() == before,
{
}

/// When an initializer succeeds, every waiting task is woken, and completes with the value when
/// it is polled next.
pub proof fn law_success_reaches_every_waiter<T>(
    contents: Contents<T>,
    value: T,
    i: int,
    wait: Wait<()>,
)
    requires
        contents.inv(),
        contents.state is Initializing,
        0 <= i < contents.waiters.queue.len(),
        wait@ == Phase::<()>::Queued(contents.waiters.queue[i]),
    ensures
        contents.initialized(value).inv(),
        contents.initialized(value).value() == Some(value),
        contents.all_wakers()[i] == contents.waiters.waker(i),
        next_step(contents.initialized(value), Progress::Waiting(wait)) is Ready,
{
    let units = Seq::new(contents.waiters.queue.len(), |i: int| ());
    crate::wait_list::law_wake_is_first_in_first_out(contents.waiters, units);
    assert(contents.waiters.queue[i] == wait@->Queued_0);
}

/// The end of an initialization, whatever its outcome, leaves every future that waits for it
/// fitting the cell.
pub proof fn law_resolution_keeps_futures_valid<T>(
    contents: Contents<T>,
    value: T,
    progress: Progress,
)
    requires
        contents.inv(),
        contents.state is Initializing,
        fits(progress, contents),
        !(progress is Running),
    ensures
        fits(progress, contents.initialized(value)),
        fits(progress, contents.failed()),
{
    let units = Seq::new(contents.waiters.queue.len(), |i: int| ());
    crate::wait_list::law_wake_is_first_in_first_out(contents.waiters, units);
    if let Progress::Waiting(wait) = progress {
        let id = wait@->Queued_0;
        let queue = contents.waiters.queue;
        if queue.take(queue.len() as int).contains(id) {
            let i = queue.take(queue.len() as int).index_of(id);
            assert(queue[i] == id);
        }
    }
}

/// What a future that waits in slot `id` does to the list of waiters keeps every other future
/// fitting the cell.
pub proof fn law_futures_are_independent<T>(
    contents: Contents<T>,
    id: usize,
    waker: Waker,
    progress: Progress,
)
    requires
        fits(progress, contents),
        progress matches Progress::Waiting(wait) ==> wait@->Queued_0 != id,
    ensures
        contents.waiters.vacant(id) ==> fits(
            progress,
            Contents { waiters: contents.waiters.enqueued(id, (), waker), ..contents },
        ),
        contents.waiters.occupied(id) ==> {
            &&& fits(
                progress,
                Contents { waiters: contents.waiters.rewakered(id, waker), ..contents },
            )
            &&& fits(progress, Contents { waiters: contents.waiters.collected(id), ..contents })
            &&& fits(progress, Contents { waiters: contents.waiters.dequeued(id), ..contents })
        },
{
}

/// A successful initialization stores its value and wakes every task that waits, in the order in
/// which they came, and nobody else: as many wakers are handed out as there were waiters. After it
/// nobody waits and no initializer is running.
pub proof fn law_success_wakes_everyone<T>(contents: Contents<T>, value: T)
    requires
        contents.inv(),
    ensures
        ({
            let after = contents.initialized(value);
            let queue = contents.waiters.queue;
            let slots = contents.waiters.slots;
            &&& after.state == (State::Initialized { value })
            &&& !after.running
            &&& after.waiters.queue.len() == 0
            &&& after.waiters.slots.len() == slots.len()
            &&& forall|j: int|
                0 <= j < slots.len() ==> #[trigger] after.waiters.slots[j] == (
                if slots[j] is Waiting {
                    Slot::Woken { output: () }
                } else {
                    slots[j]
                })
            &&& contents.all_wakers().len() == queue.len()
            &&& forall|i: int|
                0 <= i < queue.len() ==> #[trigger] contents.all_wakers()[i]
                    == slots[queue[i] as int]->waker
        }),
{
    let queue = contents.waiters.queue;
    let slots = contents.waiters.slots;
    let units = Seq::new(queue.len(), |i: int| ());
    crate::wait_list::law_wake_is_first_in_first_out(contents.waiters, units);
    let after = contents.initialized(value);
    assert(queue.take(queue.len() as int) =~= queue);
    assert forall|j: int| 0 <= j < slots.len() implies #[trigger] after.waiters.slots[j] == (
    if slots[j] is Waiting {
        Slot::Woken { output: () }
    } else {
        slots[j]
    }) by {
        if slots[j] is Waiting {
            let i = queue.index_of(j as usize);
            assert(queue[i] == j as usize);
        } else if queue.contains(j as usize) {
            let i = queue.index_of(j as usize);
            assert(slots[queue[i] as int] is Waiting);
        }
    }
}

/// A failed initialization wakes the task that has waited longest, and only that one, and leaves
/// the job to it. If nobody waits the cell can be set again. It never stores a value.
pub proof fn law_failure_wakes_the_first<T>(contents: Contents<T>)
    requires
        contents.inv(),
    ensures
        ({
            let after = contents.failed();
            let queue = contents.waiters.queue;
            let slots = contents.waiters.slots;
            &&& !after.running
            &&& if queue.len() > 0 {
                &&& after.state == contents.state
                &&& after.waiters.queue == queue.skip(1)
                &&& after.waiters.slots == slots.update(
                    queue[0] as int,
                    Slot::Woken { output: () },
                )
                &&& contents.failure_wakers() == seq![slots[queue[0] as int]->waker]
            } else {
                &&& after.state is Uninit
                &&& after.waiters == contents.waiters
                &&& contents.failure_wakers().len() == 0
            }
        }),
{
}

/// A future that is polled runs its initializer if the cell has no value and nobody else is to
/// initialize it, completes if the cell has a value, and waits otherwise. Once it has begun to
/// wait, it waits until it is woken.
pub proof fn law_poll_decides_by_the_state<T>(contents: Contents<T>, wait: Wait<()>, id: usize)
    requires
        wait@ == Phase::<()>::Queued(id),
        id < contents.waiters.slots.len(),
    ensures
        next_step(contents, Progress::Created) == (match contents.state {
            State::Uninit => Advance::Run,
            State::Initializing => Advance::Pending,
            State::Initialized { .. } => Advance::Ready,
        }),
        next_step(contents, Progress::Waiting(wait)) == (match contents.waiters.slots[id as int] {
            Slot::Waiting { .. } => Advance::Pending,
            _ => match contents.state {
                State::Initialized { .. } => Advance::Ready,
                _ => Advance::Run,
            },
        }),
        next_step(contents, Progress::Running) is Run,
        contents.value() == (match contents.state {
            State::Initialized { value } => Some(value),
            _ => None,
        }),
{
}

/// A future that goes on, having waited or not, gives up its place in the list of waiters, and
/// the cell is being initialized by it if it is its turn to do so. The value and the other waiters
/// stay as they are.
pub proof fn law_going_on_frees_the_slot<T>(contents: Contents<T>, wait: Wait<()>, id: usize)
    requires
        wait@ == Phase::<()>::Queued(id),
        id < contents.waiters.slots.len(),
    ensures
        ({
            let vacated = Waiters {
                slots: contents.waiters.slots.update(id as int, Slot::Vacant),
                queue: contents.waiters.queue,
            };
            &&& contents.resumed(Progress::Created) == contents
            &&& contents.resumed(Progress::Running) == contents
            &&& contents.resumed(Progress::Waiting(wait)) == (Contents {
                waiters: vacated,
                state: contents.state,
                running: contents.running,
            })
            &&& contents.claimed(Progress::Created) == (Contents {
                waiters: contents.waiters,
                state: State::<T>::Initializing,
                running: true,
            })
            &&& contents.claimed(Progress::Waiting(wait)) == (Contents {
                waiters: vacated,
                state: State::<T>::Initializing,
                running: true,
            })
        }),
{
}

/// A future that begins to wait is behind everyone who waits already, and one that goes on waiting
/// keeps its place. Nothing else changes.
pub proof fn law_waiting_is_behind_everyone<T>(
    before: Contents<T>,
    after: Contents<T>,
    next: Progress,
    waker: Waker,
    earlier: Wait<()>,
)
    ensures
        parked(before, after, Progress::Created, next, waker) ==> {
            &&& next matches Progress::Waiting(wait)
            &&& wait@ matches Phase::Queued(id)
            &&& id <= before.waiters.slots.len()
            &&& id < before.waiters.slots.len() ==> before.waiters.slots[id as int] is Vacant
            &&& after.waiters.queue == before.waiters.queue.push(id)
            &&& after.waiters.slots[id as int] == (Slot::<(), ()>::Waiting { input: (), waker })
            &&& forall|j: int|
                0 <= j < before.waiters.slots.len() && j != id ==> #[trigger] after.waiters.slots[j]
                    == before.waiters.slots[j]
            &&& after.state == before.state
            &&& after.running == before.running
        },
        parked(before, after, Progress::Waiting(earlier), next, waker) ==> {
            &&& next matches Progress::Waiting(wait)
            &&& wait@ == earlier@
            &&& wait@ matches Phase::Queued(id)
            &&& after.waiters.slots == before.waiters.slots.update(
                id as int,
                Slot::Waiting { input: (), waker },
            )
            &&& after.waiters.queue == before.waiters.queue
            &&& after.state == before.state
            &&& after.running == before.running
        },
{
}

/// Waiting tasks are woken only when there is something for them to do: while the cell has no
/// value and no initializer has failed nobody has been woken, while an initializer is running
/// nobody else is to run one, and once there is a value nobody waits. A new cell has no value.
pub proof fn law_job_is_with_one_at_most<T>(contents: Contents<T>)
    requires
        contents.inv(),
    ensures
        contents.running ==> contents.state is Initializing,
        contents.running ==> forall|j: int|
            0 <= j < contents.waiters.slots.len() ==> !((
            #[trigger] contents.waiters.slots[j]) is Woken),
        !(contents.state is Initialized) ==> forall|i: int, j: int|
            0 <= i < j < contents.waiters.slots.len() ==> !((
            #[trigger] contents.waiters.slots[i]) is Woken && (
            #[trigger] contents.waiters.slots[j]) is Woken),
        !(contents.state is Initializing) ==> forall|j: int|
            0 <= j < contents.waiters.slots.len() ==> !((
            #[trigger] contents.waiters.slots[j]) is Waiting),
        contents.state is Uninit ==> forall|j: int|
            0 <= j < contents.waiters.slots.len() ==> (#[trigger] contents.waiters.slots[j]) is Vacant,
        Contents::<T>::empty().state is Uninit,
        !Contents::<T>::empty().running,
        Contents::<T>::empty().waiters.slots.len() == 0,
        Contents::<T>::empty().waiters.queue.len() == 0,
{
    let slots = contents.waiters.slots;
    if !(contents.state is Initializing) {
        assert forall|j: int| 0 <= j < slots.len() implies !((#[trigger] slots[j]) is Waiting) by {
            if slots[j] is Waiting {
                assert(contents.waiters.queue.contains(j as usize));
            }
        }
    }
}

/// Two cells are equal if both have a value and the values are equal, or if neither has one, be it
/// in the process of being set or not.
pub proof fn law_cells_compare_as_their_values<T: PartialEq>(cell: OnceCell<T>, other: OnceCell<T>)
    ensures
        OnceCell::<T>::obeys_eq_spec() == T::obeys_eq_spec(),
        match (cell@.state, other@.state) {
            (State::Initialized { value }, State::Initialized { value: another }) => cell.eq_spec(
                &other,
            ) == value.eq_spec(&another),
            (State::Initialized { .. }, _) => !cell.eq_spec(&other),
            (_, State::Initialized { .. }) => !cell.eq_spec(&other),
            _ => cell.eq_spec(&other),
        },
{
}

} // verus!
