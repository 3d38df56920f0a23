//! A reference-counted container with one strong and any number of weak
//! references, for the fixed-size broadcast channel.
//!
//! Its purpose is exactly two things:
//! * Ensure that the guarded value is not de-allocated until all live
//!   references of [`BroadRef`] have been dropped.
//! * Indicates when either all strong or weak references have been dropped.
use std::marker::PhantomData;
use vstd::prelude::*;

verus! {

/// The allocation that the references share.
pub struct Inner<T> {
    /// The interior value being reference counted, or `None` once it has been
    /// de-allocated.
    value: Option<T>,
    /// How many users we currently have.
    strong: usize,
    /// How many weak reference we currently have.
    weak: usize,
}

impl<T> Inner<T> {
    /// The interior value, if it has not been de-allocated.
    pub closed spec fn value(&self) -> Option<T> {
        self.value
    }

    /// The number of strong references that are alive.
    pub closed spec fn strong(&self) -> int {
        self.strong as int
    }

    /// The number of weak references that are alive.
    pub closed spec fn weak(&self) -> int {
        self.weak as int
    }

    /// The value is there as long as there is a reference to it.
    pub open spec fn wf(&self) -> bool {
        &&& 0 <= self.strong() <= 1
        &&& 0 <= self.weak() <= usize::MAX
        &&& self.value() is Some <==> self.strong() + self.weak() > 0
    }
}

/// The strong reference to a value.
///
/// The value can be accessed with an indication of whether there are weak
/// references alive at the same time through [`BroadRef::load`].
pub struct BroadRef<T> {
    marker: PhantomData<T>,
}

impl<T> BroadRef<T> {
    /// Construct a new BroadRefed container.
    pub fn new(value: T) -> (container: (Inner<T>, Self))
        ensures
            container.0.wf(),
            container.0.value() == Some(value),
            container.0.strong() == 1,
            container.0.weak() == 0,
    {
        (Inner { value: Some(value), strong: 1, weak: 0 }, BroadRef { marker: PhantomData })
    }

    /// Construct a new weak reference.
    pub fn weak(&self, inner: &mut Inner<T>) -> (weak: Weak<T>)
        requires
            old(inner).wf(),
            old(inner).strong() > 0,
            old(inner).weak() < usize::MAX,
        ensures
            final(inner).wf(),
            final(inner).value() == old(inner).value(),
            final(inner).strong() == old(inner).strong(),
            final(inner).weak() == old(inner).weak() + 1,
    {
        inner.weak = inner.weak + 1;
        Weak { marker: PhantomData }
    }

    /// Get the interior value and indicates with a boolean if there are weak
    /// references alive.
    pub fn load<'a>(&self, inner: &'a mut Inner<T>) -> (access: (&'a mut T, bool))
        requires
            old(inner).wf(),
            old(inner).strong() > 0,
        ensures
            final(inner).wf(),
            old(inner).value() == Some(*access.0),
            final(inner).value() == Some(*final(access.0)),
            final(inner).strong() == old(inner).strong(),
            final(inner).weak() == old(inner).weak(),
            access.1 == (old(inner).weak() != 0),
    {
        let present = inner.weak != 0;
        (inner.value.as_mut().unwrap(), present)
    }

    /// Drop the reference, and the value if it was the last one.
    pub fn release(self, inner: &mut Inner<T>)
        requires
            old(inner).wf(),
            old(inner).strong() > 0,
        ensures
            final(inner).wf(),
            final(inner).strong() == old(inner).strong() - 1,
            final(inner).weak() == old(inner).weak(),
            final(inner).value() == (if old(inner).weak() > 0 {
                old(inner).value()
            } else {
                None
            }),
    {
        let count = inner.strong - 1;
        inner.strong = count;
        if inner.weak + count == 0 {
            inner.value = None;
        }
    }
}

/// A weak reference to a value.
pub struct Weak<T> {
    marker: PhantomData<T>,
}

impl<T> Weak<T> {
    /// Get the interior value and indicates with a boolean if the strong
    /// reference is alive.
    pub fn load<'a>(&self, inner: &'a mut Inner<T>) -> (access: (&'a mut T, bool))
        requires
            old(inner).wf(),
            old(inner).weak() > 0,
        ensures
            final(inner).wf(),
            old(inner).value() == Some(*access.0),
            final(inner).value() == Some(*final(access.0)),
            final(inner).strong() == old(inner).strong(),
            final(inner).weak() == old(inner).weak(),
            access.1 == (old(inner).strong() != 0),
    {
        let present = inner.strong != 0;
        (inner.value.as_mut().unwrap(), present)
    }

    /// Drop the reference, and the value if it was the last one.
    pub fn release(self, inner: &mut Inner<T>)
        requires
            old(inner).wf(),
            old(inner).weak() > 0,
        ensures
            final(inner).wf(),
            final(inner).strong() == old(inner).strong(),
            final(inner).weak() == old(inner).weak() - 1,
            final(inner).value() == (if old(inner).strong() + old(inner).weak() > 1 {
                old(inner).value()
            } else {
                None
            }),
    {
        let count = inner.weak - 1;
        inner.weak = count;
        if inner.strong + count == 0 {
            inner.value = None;
        }
    }
}

} // verus!
