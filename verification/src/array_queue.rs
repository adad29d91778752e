//! A first-in, first-out queue kept in a ring of slots.
//!
//! The elements stand in consecutive slots from the head on, going round
//! at the end of the storage. The storage doubles when it is full and is
//! cut in half when two thirds of it are spare.

use vstd::prelude::*;
use crate::circular_vec::ring;
use crate::circular_vec::ring_index;
use crate::storage::rotate_left;
use crate::storage::shrink_to;

verus! {

/// Slots in which the `size` elements stand from `head` on, round the
/// ring, and in which every other slot is vacant.
pub open spec fn ring_filled<T>(slots: Seq<Option<T>>, head: int, size: int) -> bool {
    &&& 0 <= head < slots.len()
    &&& 0 <= size <= slots.len()
    &&& forall|i: int| 0 <= i < size ==> (#[trigger] slots[ring(head, i, slots.len() as int)]) is Some
    &&& forall|i: int| size <= i < slots.len() ==> (#[trigger] slots[ring(head, i, slots.len() as int)]) is None
}

/// The elements of such slots, from the one at the head on.
pub open spec fn ring_elements<T>(slots: Seq<Option<T>>, head: int, size: int) -> Seq<T> {
    Seq::new(size as nat, |i: int| slots[ring(head, i, slots.len() as int)]->0)
}

/// Turning the slots so that the head comes first keeps the elements and
/// their order.
pub proof fn lemma_turned<T>(slots: Seq<Option<T>>, head: int, size: int)
    requires
        ring_filled(slots, head, size),
    ensures
        ({
            let turned = slots.subrange(head, slots.len() as int) + slots.subrange(0, head);
            &&& turned.len() == slots.len()
            &&& ring_filled(turned, 0, size)
            &&& ring_elements(turned, 0, size) == ring_elements(slots, head, size)
            &&& forall|i: int| 0 <= i < slots.len() ==> turned[i] == slots[ring(head, i, slots.len() as int)]
        }),
{
    let n = slots.len() as int;
    let turned = slots.subrange(head, n) + slots.subrange(0, head);
    assert forall|i: int| 0 <= i < n implies turned[i] == slots[ring(head, i, n)] by {}
    assert forall|i: int| 0 <= i < size implies (#[trigger] turned[ring(0, i, n)]) is Some by {
        assert(turned[i] == slots[ring(head, i, n)]);
    }
    assert forall|i: int| size <= i < n implies (#[trigger] turned[ring(0, i, n)]) is None by {
        assert(turned[i] == slots[ring(head, i, n)]);
    }
    assert(ring_elements(turned, 0, size) =~= ring_elements(slots, head, size));
}

/// A first-in, first-out queue.
pub struct ArrayQueue<T> {
    storage: Vec<Option<T>>,
    head: usize,
    size: usize,
}

impl<T> View for ArrayQueue<T> {
    type V = Seq<T>;

    /// The elements from the oldest to the newest.
    closed spec fn view(&self) -> Seq<T> {
        ring_elements(self.storage@, self.head as int, self.size as int)
    }
}

impl<T> ArrayQueue<T> {
    /// Validity: there is a slot at least, and the elements stand from
    /// the head on with all other slots vacant.
    pub closed spec fn wf(&self) -> bool {
        ring_filled(self.storage@, self.head as int, self.size as int)
    }

    /// An empty queue.
    pub fn initialize() -> (queue: Self)
        ensures
            queue.wf(),
            queue@ == Seq::<T>::empty(),
    {
        let mut storage: Vec<Option<T>> = Vec::new();
        storage.push(None);
        let queue = Self { storage, head: 0, size: 0 };
        proof {
            assert(queue@ =~= Seq::<T>::empty());
        }
        queue
    }

    /// Returns the number of elements.
    pub fn size(&self) -> (n: usize)
        ensures
            n == self@.len(),
    {
        self.size
    }

    /// Adds `x` behind the newest element.
    pub fn add(&mut self, x: T)
        requires
            old(self).wf(),
            2 * old(self)@.len() <= usize::MAX,
        ensures
            final(self).wf(),
            final(self)@ == old(self)@.push(x),
    {
        if self.is_full() {
            self.grow(self.storage.len());
        }
        let ghost before = self.storage@;
        let ghost n = before.len() as int;
        let index = self.storage_index(self.size);
        self.storage[index] = Some(x);
        self.size = self.size + 1;
        proof {
            assert forall|i: int| 0 <= i < self.size implies (#[trigger] self.storage@[ring(
                self.head as int,
                i,
                n,
            )]) is Some by {
                if i < self.size - 1 {
                    assert(before[ring(self.head as int, i, n)] is Some);
                }
            }
            assert forall|i: int| self.size <= i < n implies (#[trigger] self.storage@[ring(
                self.head as int,
                i,
                n,
            )]) is None by {
                assert(before[ring(self.head as int, i, n)] is None);
            }
            assert(self@ =~= old(self)@.push(x));
        }
    }

    /// Takes the oldest element out, if there is one.
    pub fn remove(&mut self) -> (element: Option<T>)
        requires
            old(self).wf(),
        ensures
            final(self).wf(),
            old(self)@.len() == 0 ==> element is None && final(self)@ == old(self)@,
            old(self)@.len() > 0 ==> element == Some(old(self)@[0]) && final(self)@ == old(self)@.skip(1),
    {
        if self.is_empty() {
            return None;
        }
        let ghost before = self.storage@;
        let ghost n = before.len() as int;
        let ghost head = self.head as int;
        proof {
            assert(before[ring(head, 0, n)] is Some);
        }
        let element = self.storage[self.head].take();
        self.head = self.storage_index(1);
        self.size = self.size - 1;
        proof {
            assert forall|i: int| 0 <= i < self.size implies (#[trigger] self.storage@[ring(
                self.head as int,
                i,
                n,
            )]) is Some by {
                assert(before[ring(head, i + 1, n)] is Some);
                assert(ring(self.head as int, i, n) == ring(head, i + 1, n));
            }
            assert forall|i: int| self.size <= i < n implies (#[trigger] self.storage@[ring(
                self.head as int,
                i,
                n,
            )]) is None by {
                if i < n - 1 {
                    assert(before[ring(head, i + 1, n)] is None);
                    assert(ring(self.head as int, i, n) == ring(head, i + 1, n));
                } else {
                    assert(ring(self.head as int, i, n) == head);
                }
            }
            assert forall|i: int| 0 <= i < self.size implies self@[i] == old(self)@.skip(1)[i] by {
                assert(ring(self.head as int, i, n) == ring(head, i + 1, n));
            }
            assert(self@ =~= old(self)@.skip(1));
        }
        if self.is_too_large() {
            self.shrink(self.storage.len() / 2);
        }
        element
    }

    fn is_full(&self) -> (b: bool)
        requires
            self.wf(),
        ensures
            b == (self@.len() == self.storage@.len()),
    {
        self.size() == self.storage.len()
    }

    fn is_empty(&self) -> (b: bool)
        requires
            self.wf(),
        ensures
            b == (self@.len() == 0),
    {
        self.size() == 0
    }

    /// Whether two thirds of the slots are vacant, and there is more than one slot.
    fn is_too_large(&self) -> (b: bool)
        requires
            self.wf(),
        ensures
            b == (self.storage@.len() >= 3 * self@.len() && self.storage@.len() > 1),
    {
        self.storage.len() / 3 >= self.size() && self.storage.len() > 1
    }

    /// Turns the slots so that the head comes first, and adds `by` vacant slots.
    fn grow(&mut self, by: usize)
        requires
            old(self).wf(),
            old(self).storage@.len() + by <= usize::MAX,
        ensures
            final(self).wf(),
            final(self)@ == old(self)@,
            final(self).storage@.len() == old(self).storage@.len() + by,
    {
        proof {
            lemma_turned(self.storage@, self.head as int, self.size as int);
        }
        rotate_left(&mut self.storage, self.head);
        self.head = 0;
        let ghost turned = self.storage@;
        let mut added: usize = 0;
        while added < by
            invariant
                added <= by,
                self.head == 0,
                self.size == old(self).size,
                turned.len() + by <= usize::MAX,
                self.storage@.len() == turned.len() + added,
                self.size <= turned.len(),
                turned.len() >= 1,
                forall|i: int| 0 <= i < turned.len() ==> self.storage@[i] == turned[i],
                forall|i: int| turned.len() <= i < self.storage@.len() ==> self.storage@[i] is None,
            decreases by - added,
        {
            self.storage.push(None);
            added = added + 1;
        }
        proof {
            let n = self.storage@.len() as int;
            assert forall|i: int| 0 <= i < self.size implies (#[trigger] self.storage@[ring(0, i, n)]) is Some by {
                assert(turned[ring(0, i, turned.len() as int)] is Some);
            }
            assert forall|i: int| self.size <= i < n implies (#[trigger] self.storage@[ring(0, i, n)]) is None by {
                if i < turned.len() {
                    assert(turned[ring(0, i, turned.len() as int)] is None);
                }
            }
            assert forall|i: int| 0 <= i < self.size implies self@[i] == old(self)@[i] by {
                assert(self.storage@[i] == turned[i]);
                assert(ring(0, i, n) == i && ring(0, i, turned.len() as int) == i);
            }
            assert(self@ =~= old(self)@);
        }
    }

    /// Turns the slots so that the head comes first, and cuts them down to `to` slots.
    fn shrink(&mut self, to: usize)
        requires
            old(self).wf(),
            old(self)@.len() <= to <= old(self).storage@.len(),
            to >= 1,
        ensures
            final(self).wf(),
            final(self)@ == old(self)@,
            final(self).storage@.len() == to,
    {
        proof {
            lemma_turned(self.storage@, self.head as int, self.size as int);
        }
        rotate_left(&mut self.storage, self.head);
        self.head = 0;
        let ghost turned = self.storage@;
        self.storage.truncate(to);
        shrink_to(&mut self.storage, to);
        proof {
            let n = self.storage@.len() as int;
            assert forall|i: int| 0 <= i < self.size implies (#[trigger] self.storage@[ring(0, i, n)]) is Some by {
                assert(turned[ring(0, i, turned.len() as int)] is Some);
            }
            assert forall|i: int| self.size <= i < n implies (#[trigger] self.storage@[ring(0, i, n)]) is None by {
                assert(turned[ring(0, i, turned.len() as int)] is None);
            }
            assert forall|i: int| 0 <= i < self.size implies self@[i] == old(self)@[i] by {
                assert(self.storage@[i] == turned[i]);
                assert(ring(0, i, n) == i && ring(0, i, turned.len() as int) == i);
            }
            assert(self@ =~= old(self)@);
        }
    }

    /// The slot that lies `index` steps after the head.
    fn storage_index(&self, index: usize) -> (place: usize)
        requires
            self.head < self.storage@.len(),
            index <= self.storage@.len(),
        ensures
            place == ring(self.head as int, index as int, self.storage@.len() as int),
            place < self.storage@.len(),
    {
        ring_index(self.head, index, self.storage.len())
    }

    /// A pass over the elements from the oldest to the newest.
    pub fn iter(&self) -> (it: Iter<'_, T>)
        requires
            self.wf(),
        ensures
            it.wf(),
            it.remaining() == self@,
    {
        let it = Iter { queue: self, index: 0 };
        proof {
            assert(it.remaining() =~= self@);
        }
        it
    }

    /// Turns the queue into a pass that hands its elements out, from the
    /// oldest to the newest.
    pub fn into_iter(self) -> (it: IntoIter<T>)
        requires
            self.wf(),
        ensures
            it.wf(),
            it.remaining() == self@,
    {
        IntoIter(self)
    }
}

/// A pass that takes the elements out of a queue.
pub struct IntoIter<T>(ArrayQueue<T>);

impl<T> IntoIter<T> {
    /// Validity: the queue inside is valid.
    pub closed spec fn wf(&self) -> bool {
        self.0.wf()
    }

    /// The elements that are still to come.
    pub closed spec fn remaining(&self) -> Seq<T> {
        self.0@
    }

    /// Hands out the next element, if one is left.
    pub fn next(&mut self) -> (item: Option<T>)
        requires
            old(self).wf(),
        ensures
            final(self).wf(),
            old(self).remaining().len() == 0 ==> item is None && final(self).remaining() == old(self).remaining(),
            old(self).remaining().len() > 0 ==> ({
                &&& item == Some(old(self).remaining()[0])
                &&& final(self).remaining() == old(self).remaining().skip(1)
            }),
    {
        self.0.remove()
    }
}

/// A pass over the elements of a queue.
pub struct Iter<'a, T> {
    queue: &'a ArrayQueue<T>,
    index: usize,
}

impl<'a, T> Iter<'a, T> {
    /// Validity: the queue that the pass goes over is valid.
    pub closed spec fn wf(&self) -> bool {
        self.queue.wf()
    }

    /// The elements that are still to come.
    pub closed spec fn remaining(&self) -> Seq<T> {
        if self.index <= self.queue@.len() {
            self.queue@.skip(self.index as int)
        } else {
            Seq::empty()
        }
    }

    /// Hands out the next element, if one is left.
    pub fn next(&mut self) -> (item: Option<&'a T>)
        requires
            old(self).wf(),
        ensures
            final(self).wf(),
            old(self).remaining().len() == 0 ==> item is None && final(self).remaining() == old(self).remaining(),
            old(self).remaining().len() > 0 ==> ({
                &&& item == Some(&old(self).remaining()[0])
                &&& final(self).remaining() == old(self).remaining().skip(1)
            }),
    {
        if self.index >= self.queue.storage.len() {
            return None;
        }
        let i = self.queue.storage_index(self.index);
        let item = self.queue.storage[i].as_ref();
        self.index = self.index + 1;
        proof {
            assert(final(self).remaining() =~= if old(self).remaining().len() > 0 {
                old(self).remaining().skip(1)
            } else {
                old(self).remaining()
            });
        }
        item
    }
}

} // verus!
