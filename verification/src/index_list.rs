//! The fixed-capacity list of arena indices that searches fill and walk.

use arrayvec::ArrayVec;
use vstd::prelude::*;

verus! {

/// How many indices an index list can hold.
pub const CAPACITY: usize = 512;

/// `arrayvec::ArrayVec`, taken as it is: nothing is known of a value but
/// what the functions below say.
#[verifier::external_type_specification]
#[verifier::external_body]
#[verifier::reject_recursive_types(T)]
pub struct ExArrayVec<T, const CAP: usize>(ArrayVec<T, CAP>);

/// The indices that a list holds, oldest first.
pub uninterp spec fn items(list: ArrayVec<usize, 512>) -> Seq<usize>;

/// `ArrayVec::new`: an empty list.
#[verifier::external_body]
pub(crate) fn list_new() -> (list: ArrayVec<usize, 512>)
    ensures
        items(list) == Seq::<usize>::empty(),
{
    ArrayVec::new()
}

/// `ArrayVec::len`: the number of indices held, which never exceeds the
/// capacity.
#[verifier::external_body]
pub(crate) fn list_len(list: &ArrayVec<usize, 512>) -> (n: usize)
    ensures
        n == items(*list).len(),
        n <= CAPACITY,
{
    list.len()
}

/// `ArrayVec::push`: appends one index. The call panics on a full list, so a
/// full list is not admitted.
#[verifier::external_body]
pub(crate) fn list_push(list: &mut ArrayVec<usize, 512>, index: usize)
    requires
        items(*old(list)).len() < CAPACITY,
    ensures
        items(*final(list)) == items(*old(list)).push(index),
{
    list.push(index)
}

/// `ArrayVec::pop`: removes and returns the newest index, or returns `None`
/// and changes nothing when the list is empty.
#[verifier::external_body]
pub(crate) fn list_pop(list: &mut ArrayVec<usize, 512>) -> (index: Option<usize>)
    ensures
        items(*old(list)).len() == 0 ==> index is None && items(*final(list)) == items(*old(list)),
        items(*old(list)).len() > 0 ==> index == Some(items(*old(list)).last()) && items(
            *final(list),
        ) == items(*old(list)).drop_last(),
{
    list.pop()
}

/// `ArrayVec::clear`: removes every index.
#[verifier::external_body]
pub(crate) fn list_clear(list: &mut ArrayVec<usize, 512>)
    ensures
        items(*final(list)) == Seq::<usize>::empty(),
{
    list.clear()
}

/// `ArrayVec::as_slice`, read at `position`: the index held there. Out of
/// range the read panics, so such a position is not admitted.
#[verifier::external_body]
pub(crate) fn list_get(list: &ArrayVec<usize, 512>, position: usize) -> (index: usize)
    requires
        position < items(*list).len(),
    ensures
        index == items(*list)[position as int],
{
    list.as_slice()[position]
}

} // verus!
