//! A reference-counted container which is held at exactly two places.
//!
//! Its purpose is exactly two things:
//! * Ensure that the guarded value is not de-allocated until all live
//!   references of [`BiRc`] have been dropped.
//! * Be able to flag when any of the two references of [`BiRc`] have been
//!   dropped.
use std::marker::PhantomData;
use vstd::prelude::*;

verus! {

/// The allocation that two references share.
pub struct Inner<T> {
    /// The interior value being reference counted, or `None` once it has been
    /// de-allocated.
    value: Option<T>,
    /// How many users we currently have.
    count: usize,
}

impl<T> Inner<T> {
    /// The interior value, if it has not been de-allocated.
    pub closed spec fn value(&self) -> Option<T> {
        self.value
    }

    /// The number of references that are alive.
    pub closed spec fn count(&self) -> int {
        self.count as int
    }

    /// The value is there as long as there is a reference to it.
    pub open spec fn wf(&self) -> bool {
        &&& 0 <= self.count() <= 2
        &&& self.value() is Some <==> self.count() > 0
    }
}

/// One of the two references to a value.
///
/// The value can be accessed with an indication of whether both references are
/// alive or not at the same time through [`BiRc::get_mut_unchecked`].
pub struct BiRc<T> {
    marker: PhantomData<T>,
}

impl<T> BiRc<T> {
    /// Construct a new reference counted container.
    pub fn new(value: T) -> (container: (Inner<T>, Self, Self))
        ensures
            container.0.wf(),
            container.0.value() == Some(value),
            container.0.count() == 2,
    {
        (
            Inner { value: Some(value), count: 2 },
            BiRc { marker: PhantomData },
            BiRc { marker: PhantomData },
        )
    }

    /// Get the interior value and indicates with a boolean if both ends of this
    /// value are alive.
    pub fn get_mut_unchecked<'a>(&self, inner: &'a mut Inner<T>) -> (access: (&'a mut T, bool))
        requires
            old(inner).wf(),
            old(inner).count() > 0,
        ensures
            final(inner).wf(),
            old(inner).value() == Some(*access.0),
            final(inner).value() == Some(*final(access.0)),
            final(inner).count() == old(inner).count(),
            access.1 == (old(inner).count() == 2),
    {
        let both_present = inner.count == 2;
        (inner.value.as_mut().unwrap(), both_present)
    }

    /// Drop the reference, and the value with the last one.
    pub fn release(self, inner: &mut Inner<T>)
        requires
            old(inner).wf(),
            old(inner).count() > 0,
        ensures
            final(inner).wf(),
            final(inner).count() == old(inner).count() - 1,
            final(inner).value() == (if old(inner).count() > 1 {
                old(inner).value()
            } else {
                None
            }),
    {
        let count = inner.count - 1;
        inner.count = count;
        // De-allocate interior structure.
        if count == 0 {
            inner.value = None;
        }
    }
}

} // verus!
