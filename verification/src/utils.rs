use vstd::prelude::*;

verus! {

/// Increment `value`, which is not the greatest there is.
pub fn checked_increment(value: usize) -> (incremented: usize)
    requires
        value < usize::MAX,
    ensures
        incremented == value + 1,
{
    value + 1
}

} // verus!
