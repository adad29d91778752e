//! A stack backed by an array as internal storage.
//!
//! The element at index 0 is the bottom of the stack, and a pass over the
//! stack goes from bottom to top.

use vstd::prelude::*;
use crate::storage::capacity_of;
use crate::storage::shrink_to;

verus! {

/// Whether room for `capacity` elements is too much for `size` elements:
/// at least three times as much as they need.
pub open spec fn too_roomy(capacity: usize, size: usize) -> bool {
    capacity >= 3 * size
}

/// Tells whether room for `capacity` elements is at least three times
/// what `size` elements need.
pub fn wastes_room(capacity: usize, size: usize) -> (b: bool)
    ensures
        b == too_roomy(capacity, size),
{
    capacity / 3 >= size
}

/// A stack backed by an array as internal storage.
pub struct ArrayStack<T> {
    storage: Vec<T>,
}

impl<T> View for ArrayStack<T> {
    type V = Seq<T>;

    /// The elements from bottom to top.
    closed spec fn view(&self) -> Seq<T> {
        self.storage@
    }
}

impl<T> ArrayStack<T> {
    /// Returns a new, empty `ArrayStack`.
    pub fn initialize() -> (stack: Self)
        ensures
            stack@ == Seq::<T>::empty(),
    {
        ArrayStack { storage: Vec::new() }
    }

    /// Returns the number of elements stored.
    pub fn size(&self) -> (n: usize)
        ensures
            n == self@.len(),
    {
        self.storage.len()
    }

    /// Returns a shared reference to the element in the position `i`, or
    /// `None` if `i` is out of bounds.
    pub fn get(&self, i: usize) -> (element: Option<&T>)
        ensures
            element == if i < self@.len() {
                Some(&self@[i as int])
            } else {
                None
            },
    {
        if self.is_out_of_indexing_bounds(i) {
            return None;
        }
        Some(&self.storage[i])
    }

    /// Replaces the element in the position `i` with `x` and returns the
    /// element that stood there. Returns `None`, and changes nothing, if `i` is out
    /// of bounds.
    pub fn set(&mut self, i: usize, x: T) -> (prior: Option<T>)
        ensures
            i < old(self)@.len() ==> prior == Some(old(self)@[i as int]) && final(self)@ == old(self)@.update(
                i as int,
                x,
            ),
            i >= old(self)@.len() ==> prior is None && final(self)@ == old(self)@,
    {
        if self.is_out_of_indexing_bounds(i) {
            return None;
        }
        let mut y = x;
        std::mem::swap(&mut self.storage[i], &mut y);
        Some(y)
    }

    /// Inserts `x` in the position `i`, shifting up all values from `i`
    /// on. The position `self.size()` is the top of the stack.
    pub fn add(&mut self, i: usize, x: T)
        requires
            i <= old(self)@.len(),
        ensures
            final(self)@ == old(self)@.insert(i as int, x),
    {
        self.storage.insert(i, x);
    }

    /// Removes the value in `i`, shifting down all values above `i`.
    /// Returns the value if `i` is not out of bounds, `None` otherwise.
    pub fn remove(&mut self, i: usize) -> (element: Option<T>)
        ensures
            i < old(self)@.len() ==> element == Some(old(self)@[i as int]) && final(self)@ == old(self)@.remove(i as int),
            i >= old(self)@.len() ==> element is None && final(self)@ == old(self)@,
    {
        if self.is_out_of_indexing_bounds(i) {
            return None;
        }
        let y = self.storage.remove(i);

        if self.is_too_large() {
            self.resize();
        }
        Some(y)
    }

    fn is_out_of_indexing_bounds(&self, i: usize) -> (b: bool)
        ensures
            b == (i >= self@.len()),
    {
        i >= self.size()
    }

    /// Asks the storage how much room it holds and tells whether that is
    /// too much for the elements. The room is whatever the allocator gave,
    /// though never less than the elements need.
    fn is_too_large(&self) -> (b: bool)
        ensures
            exists|capacity: usize|
                capacity >= self@.len() && b == #[trigger] too_roomy(capacity, self@.len() as usize),
    {
        let capacity: usize = capacity_of(&self.storage);
        let size: usize = self.size();
        let b = wastes_room(capacity, size);
        proof {
            assert(capacity >= self@.len() && b == too_roomy(capacity, self@.len() as usize));
        }
        b
    }

    /// Gives spare room back, down to twice the number of elements.
    fn resize(&mut self)
        requires
            2 * old(self)@.len() <= usize::MAX,
        ensures
            final(self)@ == old(self)@,
    {
        let keep = 2 * self.size();
        shrink_to(&mut self.storage, keep);
    }

    /// A pass over the elements from bottom to top.
    pub fn iter(&self) -> (it: std::slice::Iter<'_, T>)
        ensures
            vstd::std_specs::slice::into_iter_elts(it) == self@,
    {
        self.storage.iter()
    }
}

} // verus!
