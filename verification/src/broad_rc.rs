//! A reference-counted container with one strong and any number of weak
//! references.
//!
//! Its purpose is exactly two things:
//! * Ensure that the guarded value is not de-allocated until all live
//!   references of [`BroadRc`] and [`BroadWeak`] have been dropped.
//! * Indicates when either all strong or weak references have been dropped so
//!   the other ends knows. Allowing them to have an idea when the other end
//!   "disconnects".
use crate::utils::checked_increment;
use std::marker::PhantomData;
use vstd::prelude::*;

verus! {

/// The allocation that the references share.
pub struct Inner<T> {
    /// The interior value being reference counted, or `None` once it has been
    /// de-allocated.
    value: Option<T>,
    /// How many users we currently have.
    strong: usize,
    /// How many weak reference we currently have.
    weak: usize,
}

impl<T> Inner<T> {
    /// The interior value, if it has not been de-allocated.
    pub closed spec fn value(&self) -> Option<T> {
        self.value
    }

    /// The number of strong references that are alive.
    pub closed spec fn strong(&self) -> int {
        self.strong as int
    }

    /// The number of weak references that are alive.
    pub closed spec fn weak(&self) -> int {
        self.weak as int
    }

    /// The value is there as long as there is a reference to it.
    pub open spec fn wf(&self) -> bool {
        &&& 0 <= self.strong() <= 1
        &&& 0 <= self.weak() <= usize::MAX
        &&& self.value() is Some <==> self.strong() + self.weak() > 0
    }

    /// Deallocate interior value if refcount has reached zero.
    fn try_dealloc(&mut self)
        requires
            old(self).weak() + old(self).strong() <= usize::MAX,
        ensures
            final(self).strong() == old(self).strong(),
            final(self).weak() == old(self).weak(),
            final(self).value() == (if old(self).weak() + old(self).strong() == 0 {
                None
            } else {
                old(self).value()
            }),
    {
        if self.weak + self.strong == 0 {
            self.value = None;
        }
    }
}

/// The strong reference to a value.
///
/// The value can be accessed with an indication of whether there are weak
/// references alive at the same time through [`BroadRc::get_mut_unchecked`].
pub struct BroadRc<T> {
    marker: PhantomData<T>,
}

impl<T> BroadRc<T> {
    /// Construct a new reference-counted container.
    pub fn new(value: T) -> (container: (Inner<T>, Self))
        ensures
            container.0.wf(),
            container.0.value() == Some(value),
            container.0.strong() == 1,
            container.0.weak() == 0,
    {
        (Inner { value: Some(value), strong: 1, weak: 0 }, BroadRc { marker: PhantomData })
    }

    /// Construct a new weak reference.
    pub fn weak(&self, inner: &mut Inner<T>) -> (weak: BroadWeak<T>)
        requires
            old(inner).wf(),
            old(inner).strong() > 0,
            old(inner).weak() < usize::MAX,
        ensures
            final(inner).wf(),
            final(inner).value() == old(inner).value(),
            final(inner).strong() == old(inner).strong(),
            final(inner).weak() == old(inner).weak() + 1,
    {
        inner.weak = checked_increment(inner.weak);
        BroadWeak { marker: PhantomData }
    }

    /// Get the interior value and indicates with a boolean if there are weak
    /// references alive.
    pub fn get_mut_unchecked<'a>(&self, inner: &'a mut Inner<T>) -> (access: (&'a mut T, bool))
        requires
            old(inner).wf(),
            old(inner).strong() > 0,
        ensures
            final(inner).wf(),
            old(inner).value() == Some(*access.0),
            final(inner).value() == Some(*final(access.0)),
            final(inner).strong() == old(inner).strong(),
            final(inner).weak() == old(inner).weak(),
            access.1 == (old(inner).weak() != 0),
    {
        let present = inner.weak != 0;
        (inner.value.as_mut().unwrap(), present)
    }

    /// Drop the reference, and the value if it was the last one.
    pub fn release(self, inner: &mut Inner<T>)
        requires
            old(inner).wf(),
            old(inner).strong() > 0,
        ensures
            final(inner).wf(),
            final(inner).strong() == old(inner).strong() - 1,
            final(inner).weak() == old(inner).weak(),
            final(inner).value() == (if old(inner).weak() > 0 {
                old(inner).value()
            } else {
                None
            }),
    {
        inner.strong = inner.strong - 1;
        inner.try_dealloc();
    }
}

/// A weak reference to a value.
pub struct BroadWeak<T> {
    marker: PhantomData<T>,
}

impl<T> BroadWeak<T> {
    /// Get the interior value and indicates with a boolean if the strong
    /// reference is alive.
    pub fn get_mut_unchecked<'a>(&self, inner: &'a mut Inner<T>) -> (access: (&'a mut T, bool))
        requires
            old(inner).wf(),
            old(inner).weak() > 0,
        ensures
            final(inner).wf(),
            old(inner).value() == Some(*access.0),
            final(inner).value() == Some(*final(access.0)),
            final(inner).strong() == old(inner).strong(),
            final(inner).weak() == old(inner).weak(),
            access.1 == (old(inner).strong() != 0),
    {
        let present = inner.strong != 0;
        (inner.value.as_mut().unwrap(), present)
    }

    /// Drop the reference, and the value if it was the last one.
    pub fn release(self, inner: &mut Inner<T>)
        requires
            old(inner).wf(),
            old(inner).weak() > 0,
        ensures
            final(inner).wf(),
            final(inner).strong() == old(inner).strong(),
            final(inner).weak() == old(inner).weak() - 1,
            final(inner).value() == (if old(inner).strong() + old(inner).weak() > 1 {
                old(inner).value()
            } else {
                None
            }),
    {
        inner.weak = inner.weak - 1;
        inner.try_dealloc();
    }
}

} // verus!
