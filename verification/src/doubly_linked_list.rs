//! A list with access at both ends.
//!
//! The elements are kept in a ring buffer of the standard library, which
//! gives insertion and removal at the head and at the tail in constant
//! time, as a list linked in both directions does.

use vstd::prelude::*;
use std::collections::VecDeque;

verus! {

/// Calls `VecDeque::front_mut`, which lends the first element for
/// writing, or nothing where the buffer is empty. No other element changes.
#[verifier::external_body]
fn front_mut<T>(items: &mut VecDeque<T>) -> (first: Option<&mut T>)
    ensures
        old(items)@.len() == 0 ==> first is None && final(items)@ == old(items)@,
        old(items)@.len() > 0 ==> first is Some && *first->0 == old(items)@[0] && final(items)@ == old(
            items,
        )@.update(0, *final(first->0)),
{
    items.front_mut()
}

/// Calls `VecDeque::back_mut`, which lends the last element for writing,
/// or nothing where the buffer is empty. No other element changes.
#[verifier::external_body]
fn back_mut<T>(items: &mut VecDeque<T>) -> (last: Option<&mut T>)
    ensures
        old(items)@.len() == 0 ==> last is None && final(items)@ == old(items)@,
        old(items)@.len() > 0 ==> ({
            &&& last is Some
            &&& *last->0 == old(items)@[old(items)@.len() - 1]
            &&& final(items)@ == old(items)@.update(old(items)@.len() - 1, *final(last->0))
        }),
{
    items.back_mut()
}

/// A list with access at both ends.
pub struct DLList<T> {
    items: VecDeque<T>,
}

impl<T> View for DLList<T> {
    type V = Seq<T>;

    /// The elements from the head to the tail.
    closed spec fn view(&self) -> Seq<T> {
        self.items@
    }
}

impl<T> DLList<T> {
    /// Creates a new, empty list.
    pub fn new() -> (list: Self)
        ensures
            list@ == Seq::<T>::empty(),
    {
        Self { items: VecDeque::new() }
    }

    /// Returns the number of elements contained in the list.
    pub fn size(&self) -> (n: usize)
        ensures
            n == self@.len(),
    {
        self.items.len()
    }

    /// Inserts an element as the new head of the list.
    pub fn push_head(&mut self, x: T)
        ensures
            final(self)@ == seq![x] + old(self)@,
    {
        self.items.push_front(x);
    }

    /// Inserts an element as the new tail of the list.
    pub fn push_tail(&mut self, x: T)
        ensures
            final(self)@ == old(self)@.push(x),
    {
        self.items.push_back(x);
    }

    /// Extracts the element at the head of the list and returns it.
    /// Returns `None` if the list is empty.
    pub fn pop_head(&mut self) -> (value: Option<T>)
        ensures
            old(self)@.len() == 0 ==> value is None && final(self)@ == old(self)@,
            old(self)@.len() > 0 ==> value == Some(old(self)@[0]) && final(self)@ == old(self)@.skip(1),
    {
        let value = self.items.pop_front();
        proof {
            if old(self)@.len() > 0 {
                assert(old(self)@.skip(1) =~= old(self)@.subrange(1, old(self)@.len() as int));
            }
        }
        value
    }

    /// Extracts the element at the tail of the list and returns it.
    /// Returns `None` if the list is empty.
    pub fn pop_tail(&mut self) -> (value: Option<T>)
        ensures
            old(self)@.len() == 0 ==> value is None && final(self)@ == old(self)@,
            old(self)@.len() > 0 ==> value == Some(old(self)@.last()) && final(self)@ == old(self)@.drop_last(),
    {
        self.items.pop_back()
    }

    /// Returns a shared reference to the head of the list, or `None` if
    /// the list is empty.
    pub fn get_head(&self) -> (value: Option<&T>)
        ensures
            value == if self@.len() > 0 {
                Some(&self@[0])
            } else {
                None
            },
    {
        if self.items.len() == 0 {
            None
        } else {
            Some(&self.items[0])
        }
    }

    /// Returns a shared reference to the tail of the list, or `None` if
    /// the list is empty.
    pub fn get_tail(&self) -> (value: Option<&T>)
        ensures
            value == if self@.len() > 0 {
                Some(&self@[self@.len() - 1])
            } else {
                None
            },
    {
        if self.items.len() == 0 {
            None
        } else {
            Some(&self.items[self.items.len() - 1])
        }
    }

    /// Returns a mutable reference to the head of the list, or `None` if
    /// the list is empty.
    pub fn get_mut_head(&mut self) -> (value: Option<&mut T>)
        ensures
            old(self)@.len() == 0 ==> value is None && final(self)@ == old(self)@,
            old(self)@.len() > 0 ==> value is Some && *value->0 == old(self)@[0] && final(self)@ == old(
                self,
            )@.update(0, *final(value->0)),
    {
        front_mut(&mut self.items)
    }

    /// Returns a mutable reference to the tail of the list, or `None` if
    /// the list is empty.
    pub fn get_mut_tail(&mut self) -> (value: Option<&mut T>)
        ensures
            old(self)@.len() == 0 ==> value is None && final(self)@ == old(self)@,
            old(self)@.len() > 0 ==> ({
                &&& value is Some
                &&& *value->0 == old(self)@[old(self)@.len() - 1]
                &&& final(self)@ == old(self)@.update(old(self)@.len() - 1, *final(value->0))
            }),
    {
        back_mut(&mut self.items)
    }

    /// Turns the list into a pass that hands its elements out from either end.
    pub fn into_iter(self) -> (it: IntoIter<T>)
        ensures
            it.remaining() == self@,
    {
        IntoIter(self)
    }
}

/// A pass that takes the elements out of a list, from the head or from the tail.
pub struct IntoIter<T>(DLList<T>);

impl<T> IntoIter<T> {
    /// The elements that are still to come, from the head to the tail.
    pub closed spec fn remaining(&self) -> Seq<T> {
        self.0@
    }

    /// Hands out the element at the head, if one is left.
    pub fn next(&mut self) -> (item: Option<T>)
        ensures
            old(self).remaining().len() == 0 ==> item is None && final(self).remaining() == old(self).remaining(),
            old(self).remaining().len() > 0 ==> item == Some(old(self).remaining()[0]) && final(self).remaining()
                == old(self).remaining().skip(1),
    {
        self.0.pop_head()
    }

    /// Hands out the element at the tail, if one is left.
    pub fn next_back(&mut self) -> (item: Option<T>)
        ensures
            old(self).remaining().len() == 0 ==> item is None && final(self).remaining() == old(self).remaining(),
            old(self).remaining().len() > 0 ==> ({
                &&& item == Some(old(self).remaining().last())
                &&& final(self).remaining() == old(self).remaining().drop_last()
            }),
    {
        self.0.pop_tail()
    }
}

} // verus!
