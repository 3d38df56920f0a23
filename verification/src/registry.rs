//! Slots for the subscribers of a broadcast channel, kept in a [`Slab`].
//!
//! A subscriber is known by the key of its slot, which holds the identifier of
//! the last message that was sent to it.
use slab::Slab;
use vstd::prelude::*;

verus! {

/// A collection that chooses the keys of its items.
#[verifier::external_type_specification]
#[verifier::external_body]
#[verifier::reject_recursive_types(T)]
pub struct ExSlab<T>(Slab<T>);

/// The items of a slab, by their keys.
pub uninterp spec fn slab_items(slab: Slab<u64>) -> Map<usize, u64>;

/// Calls [`Slab::new`], which makes a slab without items.
#[verifier::external_body]
pub(crate) fn slab_new() -> (slab: Slab<u64>)
    ensures
        slab_items(slab).dom() == Set::<usize>::empty(),
{
    Slab::new()
}

/// Calls [`Slab::insert`], which stores an item under a key that is not in use.
/// Which one that is depends on the keys that were in use before, and is not
/// stated here.
///
/// It panics if the storage of the slab grows beyond `isize::MAX` bytes. An
/// entry takes sixteen bytes, the storage is at most doubled, and it grows only
/// when every entry is in use.
#[verifier::external_body]
pub(crate) fn slab_insert(slab: &mut Slab<u64>, item: u64) -> (key: usize)
    requires
        slab_items(*old(slab)).len() * 64 < isize::MAX,
    ensures
        !slab_items(*old(slab)).contains_key(key),
        slab_items(*final(slab)) == slab_items(*old(slab)).insert(key, item),
{
    slab.insert(item)
}

/// Calls [`Slab::len`], which counts the items.
#[verifier::external_body]
pub(crate) fn slab_len(slab: &Slab<u64>) -> (len: usize)
    ensures
        len == slab_items(*slab).len(),
{
    slab.len()
}

/// Calls [`Slab::get_mut`], which gives access to the item under a key, if there
/// is one.
#[verifier::external_body]
pub(crate) fn slab_get_mut(slab: &mut Slab<u64>, key: usize) -> (item: Option<&mut u64>)
    ensures
        match item {
            Some(item) => {
                &&& slab_items(*old(slab)).contains_key(key)
                &&& *item == slab_items(*old(slab))[key]
                &&& slab_items(*final(slab)) == slab_items(*old(slab)).insert(key, *final(item))
            },
            None => {
                &&& !slab_items(*old(slab)).contains_key(key)
                &&& slab_items(*final(slab)) == slab_items(*old(slab))
            },
        },
{
    slab.get_mut(key)
}

/// Calls [`Slab::try_remove`], which takes out the item under a key, if there is
/// one.
#[verifier::external_body]
pub(crate) fn slab_try_remove(slab: &mut Slab<u64>, key: usize) -> (item: Option<u64>)
    ensures
        slab_items(*final(slab)) == slab_items(*old(slab)).remove(key),
        match item {
            Some(item) => {
                &&& slab_items(*old(slab)).contains_key(key)
                &&& item == slab_items(*old(slab))[key]
            },
            None => !slab_items(*old(slab)).contains_key(key),
        },
{
    slab.try_remove(key)
}

/// Calls [`Slab::iter`], which visits the items, each of them once, in the order
/// of their keys.
#[verifier::external_body]
pub(crate) fn slab_iter(slab: &Slab<u64>) -> (entries: Vec<(usize, u64)>)
    ensures
        forall|i: int, j: int|
            0 <= i < j < entries@.len() ==> (#[trigger] entries@[i]).0 < (
            #[trigger] entries@[j]).0,
        forall|i: int|
            0 <= i < entries@.len() ==> slab_items(*slab).contains_pair(
                (#[trigger] entries@[i]).0,
                entries@[i].1,
            ),
        forall|key: usize| #[trigger]
            slab_items(*slab).contains_key(key) ==> exists|i: int|
                0 <= i < entries@.len() && (#[trigger] entries@[i]).0 == key,
{
    slab.iter().map(|(key, item)| (key, *item)).collect()
}

} // verus!
