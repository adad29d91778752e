//! A vector that is read round and round from a movable head.

use vstd::prelude::*;
use vstd::arithmetic::div_mod::lemma_add_mod_noop;
use vstd::arithmetic::div_mod::lemma_small_mod;
use vstd::arithmetic::div_mod::lemma_mod_twice;
use vstd::arithmetic::div_mod::lemma_mod_pos_bound;

verus! {

/// The place in a ring of `n` places that lies `i` places after `head`.
pub open spec fn circle(head: int, i: int, n: int) -> int {
    (head + i) % n
}

/// The same place for a head inside the ring and at most one round of
/// steps, written without a division.
pub open spec fn ring(head: int, i: int, n: int) -> int {
    if head + i < n {
        head + i
    } else {
        head + i - n
    }
}

/// For a head inside the ring and at most one round of steps, both ways
/// of writing the place agree.
pub proof fn lemma_ring_is_circle(head: int, i: int, n: int)
    requires
        0 <= head < n,
        0 <= i <= n,
    ensures
        ring(head, i, n) == circle(head, i, n),
        0 <= ring(head, i, n) < n,
{
    if head + i < n {
        lemma_small_mod((head + i) as nat, n as nat);
    } else {
        lemma_small_mod((head + i - n) as nat, n as nat);
        vstd::arithmetic::div_mod::lemma_mod_sub_multiples_vanish(head + i, n);
    }
}

/// Computes the place `i` steps after `head` in a ring of `n` places.
pub fn ring_index(head: usize, i: usize, n: usize) -> (place: usize)
    requires
        head < n,
        i <= n,
    ensures
        place == ring(head as int, i as int, n as int),
        place < n,
{
    if i < n - head {
        head + i
    } else {
        i - (n - head)
    }
}

/// A vector whose position `i` is the place `i` steps after the head,
/// going round at the end.
#[derive(Debug, PartialEq)]
pub struct CircularVec<T> {
    storage: Vec<T>,
    head: usize,
}

impl<T> CircularVec<T> {
    /// The elements as they lie in memory.
    pub closed spec fn elements(&self) -> Seq<T> {
        self.storage@
    }

    /// The place in memory that position 0 stands for.
    pub closed spec fn head_spec(&self) -> usize {
        self.head
    }

    /// Validity: the head is a place of the storage, or zero where there is none.
    pub open spec fn wf(&self) -> bool {
        (self.elements().len() == 0 && self.head() == 0) || self.head() < self.elements().len()
    }

    /// A circular vector over `storage` that starts at `head`.
    pub fn new(storage: Vec<T>, head: usize) -> (cv: Self)
        requires
            (storage@.len() == 0 && head == 0) || head < storage@.len(),
        ensures
            cv.wf(),
            cv.elements() == storage@,
            cv.head() == head,
    {
        Self { storage, head }
    }

    /// Returns the number of elements.
    pub fn len(&self) -> (n: usize)
        ensures
            n == self.elements().len(),
    {
        self.storage.len()
    }

    /// Returns the elements as they lie in memory.
    pub fn storage(&self) -> (storage: &Vec<T>)
        ensures
            storage@ == self.elements(),
    {
        &self.storage
    }

    /// Returns the place in memory that position 0 stands for.
    #[verifier::when_used_as_spec(head_spec)]
    pub fn head(&self) -> (head: usize)
        ensures
            head == self.head_spec(),
    {
        self.head
    }

    /// Moves the head `n` places forward, or backward where `n` is
    /// negative, going round as often as it takes.
    pub fn shift_head(&mut self, n: isize)
        requires
            old(self).wf(),
            0 < old(self).elements().len() <= isize::MAX,
        ensures
            final(self).wf(),
            final(self).elements() == old(self).elements(),
            final(self).head() == circle(old(self).head() as int, n as int, old(self).elements().len() as int),
    {
        let self_len: isize = self.len() as isize;
        proof {
            vstd::arithmetic::div_mod::lemma_mod_bound(n as int, self_len as int);
        }
        let rest: isize = n.checked_rem_euclid(self_len).unwrap();
        let n_equivalent: usize = rest as usize;
        proof {
            let m = self_len as int;
            lemma_small_mod(self.head as nat, m as nat);
            lemma_mod_twice(n as int, m);
            lemma_add_mod_noop(self.head as int, n as int, m);
            lemma_add_mod_noop(self.head as int, n as int % m, m);
            vstd::arithmetic::div_mod::lemma_mod_bound(self.head as int + n as int, m);
        }
        self.head = self.circle_index(n_equivalent);
    }

    /// The place in memory of position `i`.
    fn circle_index(&self, i: usize) -> (place: usize)
        requires
            self.elements().len() > 0,
            self.head() + i <= usize::MAX,
        ensures
            place == circle(self.head() as int, i as int, self.elements().len() as int),
            place < self.elements().len(),
    {
        proof {
            lemma_mod_pos_bound(self.head as int + i as int, self.storage@.len() as int);
        }
        (self.head + i) % self.len()
    }

    /// The element at position `i`, counted from the head and round the ring.
    pub fn index(&self, index: usize) -> (element: &T)
        requires
            self.elements().len() > 0,
            self.head() + index <= usize::MAX,
        ensures
            *element == self.elements()[circle(self.head() as int, index as int, self.elements().len() as int)],
    {
        &self.storage[self.circle_index(index)]
    }

    /// The element at position `i` for writing.
    pub fn index_mut(&mut self, index: usize) -> (element: &mut T)
        requires
            old(self).elements().len() > 0,
            old(self).head() + index <= usize::MAX,
        ensures
            *element == old(self).elements()[circle(
                old(self).head() as int,
                index as int,
                old(self).elements().len() as int,
            )],
            final(self).head() == old(self).head(),
            final(self).elements() == old(self).elements().update(
                circle(old(self).head() as int, index as int, old(self).elements().len() as int),
                *final(element),
            ),
    {
        let i = self.circle_index(index);
        &mut self.storage[i]
    }
}

} // verus!
