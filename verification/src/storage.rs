//! Operations of `Vec` that the containers lean on and that are taken on
//! trust from the standard library.

use vstd::prelude::*;

verus! {

/// Calls `Vec::capacity`. How much room the allocator gave is not a
/// function of the contents, so the number gets no name. The standard
/// library documents a vector as its elements followed by
/// `capacity - len` spare places, so the room is never less than the
/// elements; the contract claims that and nothing else.
#[verifier::external_body]
pub(crate) fn capacity_of<T>(v: &Vec<T>) -> (capacity: usize)
    ensures
        capacity >= v@.len(),
{
    v.capacity()
}

/// Calls `Vec::shrink_to`, which gives spare room back to the allocator
/// and, as the standard library documents, leaves the elements alone.
#[verifier::external_body]
pub(crate) fn shrink_to<T>(v: &mut Vec<T>, min_capacity: usize)
    ensures
        final(v)@ == old(v)@,
{
    v.shrink_to(min_capacity)
}

/// Calls `slice::swap`, which exchanges the elements at two positions and
/// panics where a position lies outside the slice.
#[verifier::external_body]
pub(crate) fn swap<T>(v: &mut Vec<T>, a: usize, b: usize)
    requires
        a < old(v)@.len(),
        b < old(v)@.len(),
    ensures
        final(v)@ == old(v)@.update(a as int, old(v)@[b as int]).update(b as int, old(v)@[a as int]),
{
    v.swap(a, b)
}

/// Calls `slice::rotate_left`, after which the first `mid` elements stand
/// at the end and the others at the front, each group in its old order.
/// The call panics where `mid` exceeds the length.
#[verifier::external_body]
pub(crate) fn rotate_left<T>(v: &mut Vec<T>, mid: usize)
    requires
        mid <= old(v)@.len(),
    ensures
        final(v)@ == old(v)@.subrange(mid as int, old(v)@.len() as int) + old(v)@.subrange(0, mid as int),
{
    v.rotate_left(mid)
}

} // verus!
