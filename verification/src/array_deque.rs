//! A double-ended queue kept in a ring of slots, with insertion and
//! removal at any position.
//!
//! An insertion or removal shifts the shorter side of the sequence by one
//! slot. The storage doubles when it is full and is cut in half when two
//! thirds of it are spare.

use vstd::prelude::*;
use crate::circular_vec::ring;
use crate::circular_vec::ring_index;
use crate::array_queue::ring_filled;
use crate::array_queue::ring_elements;
use crate::array_queue::lemma_turned;
use crate::storage::rotate_left;
use crate::storage::shrink_to;
use crate::storage::swap;

verus! {

/// What stands `p` steps after the head.
pub open spec fn at<T>(slots: Seq<Option<T>>, head: int, p: int) -> Option<T> {
    slots[ring(head, p, slots.len() as int)]
}

/// Exchanging the slots `a` and `b` steps after the head exchanges what
/// stands at those two steps and leaves every other step alone.
pub proof fn lemma_exchange<T>(slots: Seq<Option<T>>, head: int, a: int, b: int)
    requires
        0 <= head < slots.len(),
        0 <= a < slots.len(),
        0 <= b < slots.len(),
    ensures
        ({
            let n = slots.len() as int;
            let after = slots.update(ring(head, a, n), slots[ring(head, b, n)]).update(
                ring(head, b, n),
                slots[ring(head, a, n)],
            );
            &&& after.len() == n
            &&& at(after, head, a) == at(slots, head, b)
            &&& at(after, head, b) == at(slots, head, a)
            &&& forall|p: int| 0 <= p < n && p != a && p != b ==> #[trigger] at(after, head, p) == at(slots, head, p)
        }),
{
}

/// Writing an element over the element at position `i` keeps the slots
/// filled as they were and changes that one element.
pub proof fn lemma_overwrite<T>(slots: Seq<Option<T>>, head: int, size: int, i: int, v: Option<T>)
    requires
        ring_filled(slots, head, size),
        0 <= i < size,
        v is Some,
    ensures
        ring_filled(slots.update(ring(head, i, slots.len() as int), v), head, size),
        ring_elements(slots.update(ring(head, i, slots.len() as int), v), head, size) == ring_elements(
            slots,
            head,
            size,
        ).update(i, v->0),
{
    let n = slots.len() as int;
    let after = slots.update(ring(head, i, n), v);
    assert forall|p: int| 0 <= p < size implies (#[trigger] after[ring(head, p, n)]) is Some by {
        assert(slots[ring(head, p, n)] is Some);
    }
    assert forall|p: int| size <= p < n implies (#[trigger] after[ring(head, p, n)]) is None by {
        assert(slots[ring(head, p, n)] is None);
    }
    assert(ring_elements(after, head, size) =~= ring_elements(slots, head, size).update(i, v->0));
}

/// A double-ended queue with insertion and removal at any position.
pub struct ArrayDeque<T> {
    storage: Vec<Option<T>>,
    head: usize,
    size: usize,
}

impl<T> View for ArrayDeque<T> {
    type V = Seq<T>;

    /// The elements from the front to the back.
    closed spec fn view(&self) -> Seq<T> {
        ring_elements(self.storage@, self.head as int, self.size as int)
    }
}

impl<T> ArrayDeque<T> {
    /// Validity: there is a slot at least, and the elements stand from
    /// the head on with all other slots vacant.
    pub closed spec fn wf(&self) -> bool {
        ring_filled(self.storage@, self.head as int, self.size as int)
    }

    /// An empty deque.
    pub fn initialize() -> (deque: Self)
        ensures
            deque.wf(),
            deque@ == Seq::<T>::empty(),
    {
        let mut storage: Vec<Option<T>> = Vec::new();
        storage.push(None);
        let deque = Self { storage, head: 0, size: 0 };
        proof {
            assert(deque@ =~= Seq::<T>::empty());
        }
        deque
    }

    /// Returns the number of elements.
    pub fn size(&self) -> (n: usize)
        ensures
            n == self@.len(),
    {
        self.size
    }

    /// Returns the element at position `i`, or `None` if `i` is out of bounds.
    pub fn get(&self, i: usize) -> (element: Option<&T>)
        requires
            self.wf(),
        ensures
            element == if i < self@.len() {
                Some(&self@[i as int])
            } else {
                None
            },
    {
        if self.is_out_of_indexing_bounds(i) {
            return None;
        }
        proof {
            assert(at(self.storage@, self.head as int, i as int) is Some);
        }
        self.storage[self.storage_index(i)].as_ref()
    }

    /// Returns the element at position `i` for writing, or `None` if `i`
    /// is out of bounds.
    pub fn get_mut(&mut self, i: usize) -> (element: Option<&mut T>)
        requires
            old(self).wf(),
        ensures
            final(self).wf(),
            i >= old(self)@.len() ==> element is None && final(self)@ == old(self)@,
            i < old(self)@.len() ==> element is Some && *element->0 == old(self)@[i as int] && final(self)@ == old(
                self,
            )@.update(i as int, *final(element->0)),
    {
        if self.is_out_of_indexing_bounds(i) {
            return None;
        }
        proof {
            assert forall|v: Option<T>| v is Some implies ring_filled(
                #[trigger] self.storage@.update(
                    ring(self.head as int, i as int, self.storage@.len() as int),
                    v,
                ),
                self.head as int,
                self.size as int,
            ) && ring_elements(
                self.storage@.update(ring(self.head as int, i as int, self.storage@.len() as int), v),
                self.head as int,
                self.size as int,
            ) == self@.update(i as int, v->0) by {
                lemma_overwrite(self.storage@, self.head as int, self.size as int, i as int, v);
            }
            assert(at(self.storage@, self.head as int, i as int) is Some);
        }
        let index = self.storage_index(i);
        self.storage[index].as_mut()
    }

    /// Inserts `x` at position `i`, before the element that stood there.
    /// Whichever side of `i` is shorter moves by one slot.
    pub fn add(&mut self, i: usize, x: T)
        requires
            old(self).wf(),
            i <= old(self)@.len(),
            2 * old(self)@.len() <= usize::MAX,
        ensures
            final(self).wf(),
            final(self)@ == old(self)@.insert(i as int, x),
    {
        if self.is_full() {
            self.grow(self.storage.len());
        }
        let ghost n = self.storage@.len() as int;
        let ghost elements = self@;
        if i < self.size() / 2 {
            proof {
                assert(at(self.storage@, self.head as int, n - 1) is None);
            }
            let ghost old_head = self.head as int;
            self.shift_head_back();
            let ghost head = self.head as int;
            proof {
                assert forall|p: int| 1 <= p <= self.size implies #[trigger] at(self.storage@, head, p) == Some(
                    elements[p - 1],
                ) by {
                    assert(ring(head, p, n) == ring(old_head, p - 1, n));
                    assert(at(self.storage@, old_head, p - 1) is Some);
                }
                assert forall|p: int| self.size < p < n implies #[trigger] at(self.storage@, head, p) is None by {
                    assert(ring(head, p, n) == ring(old_head, p - 1, n));
                    assert(at(self.storage@, old_head, p - 1) is None);
                }
                assert(ring(head, 0, n) == ring(old_head, n - 1, n));
            }
            let mut j: usize = 0;
            while j < i
                invariant
                    j <= i,
                    i < self.size,
                    self.size < n,
                    self.size == elements.len(),
                    0 <= head < n,
                    head == self.head,
                    n == self.storage@.len(),
                    forall|p: int| 0 <= p < j ==> #[trigger] at(self.storage@, head, p) == Some(elements[p]),
                    at(self.storage@, head, j as int) is None,
                    forall|p: int| j < p <= self.size ==> #[trigger] at(self.storage@, head, p) == Some(elements[p - 1]),
                    forall|p: int| self.size < p < n ==> #[trigger] at(self.storage@, head, p) is None,
                decreases i - j,
            {
                let a = self.storage_index(j);
                let b = self.storage_index(j + 1);
                proof {
                    lemma_exchange(self.storage@, head, j as int, j + 1);
                }
                swap(&mut self.storage, a, b);
                j = j + 1;
            }
        } else {
            let ghost head = self.head as int;
            proof {
                assert forall|p: int| 0 <= p < self.size implies #[trigger] at(self.storage@, head, p) == Some(
                    elements[p],
                ) by {
                    assert(at(self.storage@, head, p) is Some);
                }
            }
            let mut j: usize = self.size();
            while j > i
                invariant
                    i <= j <= self.size,
                    self.size < n,
                    self.size == elements.len(),
                    0 <= head < n,
                    head == self.head,
                    n == self.storage@.len(),
                    forall|p: int| 0 <= p < j ==> #[trigger] at(self.storage@, head, p) == Some(elements[p]),
                    at(self.storage@, head, j as int) is None,
                    forall|p: int| j < p <= self.size ==> #[trigger] at(self.storage@, head, p) == Some(elements[p - 1]),
                    forall|p: int| self.size < p < n ==> #[trigger] at(self.storage@, head, p) is None,
                decreases j,
            {
                j = j - 1;
                let a = self.storage_index(j);
                let b = self.storage_index(j + 1);
                proof {
                    lemma_exchange(self.storage@, head, j as int, j + 1);
                }
                swap(&mut self.storage, a, b);
            }
        }
        let ghost head = self.head as int;
        let ghost before = self.storage@;
        let j = self.storage_index(i);
        self.storage[j] = Some(x);
        self.size = self.size + 1;
        proof {
            assert forall|p: int| 0 <= p < n implies #[trigger] at(self.storage@, head, p) == if p == i {
                Some(x)
            } else {
                at(before, head, p)
            } by {}
            assert forall|p: int| 0 <= p < self.size implies (#[trigger] self.storage@[ring(head, p, n)]) is Some by {
                assert(at(self.storage@, head, p) is Some);
            }
            assert forall|p: int| self.size <= p < n implies (#[trigger] self.storage@[ring(head, p, n)]) is None by {
                assert(at(self.storage@, head, p) is None);
            }
            assert forall|p: int| 0 <= p < self.size implies self@[p] == elements.insert(i as int, x)[p] by {
                assert(at(self.storage@, head, p) is Some);
            }
            assert(self@ =~= elements.insert(i as int, x));
        }
    }

    /// Takes the element at position `i` out, if there is one. Whichever
    /// side of `i` is shorter moves by one slot.
    pub fn remove(&mut self, i: usize) -> (element: Option<T>)
        requires
            old(self).wf(),
        ensures
            final(self).wf(),
            i >= old(self)@.len() ==> element is None && final(self)@ == old(self)@,
            i < old(self)@.len() ==> element == Some(old(self)@[i as int]) && final(self)@ == old(self)@.remove(
                i as int,
            ),
    {
        if self.is_out_of_indexing_bounds(i) {
            return None;
        }
        let ghost n = self.storage@.len() as int;
        let ghost elements = self@;
        let ghost head = self.head as int;
        proof {
            assert forall|p: int| 0 <= p < self.size implies #[trigger] at(self.storage@, head, p) == Some(
                elements[p],
            ) by {
                assert((#[trigger] self.storage@[ring(head, p, n)]) is Some);
            }
            assert forall|p: int| self.size <= p < n implies #[trigger] at(self.storage@, head, p) is None by {
                assert((#[trigger] self.storage@[ring(head, p, n)]) is None);
            }
        }
        let ghost before = self.storage@;
        let j = self.storage_index(i);
        let element = self.storage[j].take();
        proof {
            assert forall|p: int| 0 <= p < n implies #[trigger] at(self.storage@, head, p) == if p == i {
                None
            } else {
                at(before, head, p)
            } by {}
        }
        if i < self.size / 2 {
            let mut j: usize = i;
            while j > 0
                invariant
                    0 <= j <= i,
                    i < self.size,
                    self.size <= n,
                    self.size == elements.len(),
                    0 <= head < n,
                    head == self.head,
                    n == self.storage@.len(),
                    forall|p: int| 0 <= p < j ==> #[trigger] at(self.storage@, head, p) == Some(elements[p]),
                    at(self.storage@, head, j as int) is None,
                    forall|p: int| j < p <= i ==> #[trigger] at(self.storage@, head, p) == Some(elements[p - 1]),
                    forall|p: int| i < p < self.size ==> #[trigger] at(self.storage@, head, p) == Some(elements[p]),
                    forall|p: int| self.size <= p < n ==> #[trigger] at(self.storage@, head, p) is None,
                decreases j,
            {
                j = j - 1;
                let a = self.storage_index(j);
                let b = self.storage_index(j + 1);
                proof {
                    lemma_exchange(self.storage@, head, j as int, j + 1);
                }
                swap(&mut self.storage, a, b);
            }
            self.shift_head_forth();
            self.size = self.size - 1;
            proof {
                let moved = self.head as int;
                assert forall|p: int| 0 <= p < self.size implies (#[trigger] self.storage@[ring(moved, p, n)]) is Some
                    && self@[p] == elements.remove(i as int)[p] by {
                    assert(ring(moved, p, n) == ring(head, p + 1, n));
                    assert(at(self.storage@, head, p + 1) is Some);
                }
                assert forall|p: int| self.size <= p < n implies (#[trigger] self.storage@[ring(moved, p, n)]) is None by {
                    if p < n - 1 {
                        assert(ring(moved, p, n) == ring(head, p + 1, n));
                        assert(at(self.storage@, head, p + 1) is None);
                    } else {
                        assert(ring(moved, p, n) == ring(head, 0, n));
                        assert(at(self.storage@, head, 0) is None);
                    }
                }
                assert(self@ =~= elements.remove(i as int));
            }
        } else {
            let mut j: usize = i;
            while j < self.size - 1
                invariant
                    i <= j < self.size,
                    self.size <= n,
                    self.size == elements.len(),
                    0 <= head < n,
                    head == self.head,
                    n == self.storage@.len(),
                    forall|p: int| 0 <= p < i ==> #[trigger] at(self.storage@, head, p) == Some(elements[p]),
                    forall|p: int| i <= p < j ==> #[trigger] at(self.storage@, head, p) == Some(elements[p + 1]),
                    at(self.storage@, head, j as int) is None,
                    forall|p: int| j < p < self.size ==> #[trigger] at(self.storage@, head, p) == Some(elements[p]),
                    forall|p: int| self.size <= p < n ==> #[trigger] at(self.storage@, head, p) is None,
                decreases self.size - j,
            {
                let a = self.storage_index(j);
                let b = self.storage_index(j + 1);
                proof {
                    lemma_exchange(self.storage@, head, j as int, j + 1);
                }
                swap(&mut self.storage, a, b);
                j = j + 1;
            }
            self.size = self.size - 1;
            proof {
                assert forall|p: int| 0 <= p < self.size implies (#[trigger] self.storage@[ring(head, p, n)]) is Some
                    && self@[p] == elements.remove(i as int)[p] by {
                    assert(at(self.storage@, head, p) is Some);
                }
                assert forall|p: int| self.size <= p < n implies (#[trigger] self.storage@[ring(head, p, n)]) is None by {
                    assert(at(self.storage@, head, p) is None);
                }
                assert(self@ =~= elements.remove(i as int));
            }
        }
        if self.is_too_large() {
            self.shrink(self.storage.len() / 2);
        }
        element
    }

    /// A pass over the elements from the front to the back.
    pub fn iter(&self) -> (it: Iter<'_, T>)
        requires
            self.wf(),
        ensures
            it.wf(),
            it.remaining() == self@,
    {
        let it = Iter { deque: self, index: 0 };
        proof {
            assert(it.remaining() =~= self@);
        }
        it
    }

    /// Turns the slots so that the head comes first, and adds `by` vacant slots.
    fn grow(&mut self, by: usize)
        requires
            old(self).wf(),
            old(self).storage@.len() + by <= usize::MAX,
        ensures
            final(self).wf(),
            final(self)@ == old(self)@,
            final(self).storage@.len() == old(self).storage@.len() + by,
    {
        proof {
            lemma_turned(self.storage@, self.head as int, self.size as int);
        }
        rotate_left(&mut self.storage, self.head);
        self.head = 0;
        let ghost turned = self.storage@;
        let mut added: usize = 0;
        while added < by
            invariant
                added <= by,
                self.head == 0,
                self.size == old(self).size,
                turned.len() + by <= usize::MAX,
                self.storage@.len() == turned.len() + added,
                self.size <= turned.len(),
                turned.len() >= 1,
                forall|i: int| 0 <= i < turned.len() ==> self.storage@[i] == turned[i],
                forall|i: int| turned.len() <= i < self.storage@.len() ==> self.storage@[i] is None,
            decreases by - added,
        {
            self.storage.push(None);
            added = added + 1;
        }
        proof {
            let n = self.storage@.len() as int;
            assert forall|i: int| 0 <= i < self.size implies (#[trigger] self.storage@[ring(0, i, n)]) is Some by {
                assert(turned[ring(0, i, turned.len() as int)] is Some);
            }
            assert forall|i: int| self.size <= i < n implies (#[trigger] self.storage@[ring(0, i, n)]) is None by {
                if i < turned.len() {
                    assert(turned[ring(0, i, turned.len() as int)] is None);
                }
            }
            assert forall|i: int| 0 <= i < self.size implies self@[i] == old(self)@[i] by {
                assert(self.storage@[i] == turned[i]);
                assert(ring(0, i, n) == i && ring(0, i, turned.len() as int) == i);
            }
            assert(self@ =~= old(self)@);
        }
    }

    /// Turns the slots so that the head comes first, and cuts them down to `to` slots.
    fn shrink(&mut self, to: usize)
        requires
            old(self).wf(),
            old(self)@.len() <= to <= old(self).storage@.len(),
            to >= 1,
        ensures
            final(self).wf(),
            final(self)@ == old(self)@,
            final(self).storage@.len() == to,
    {
        proof {
            lemma_turned(self.storage@, self.head as int, self.size as int);
        }
        rotate_left(&mut self.storage, self.head);
        self.head = 0;
        let ghost turned = self.storage@;
        self.storage.truncate(to);
        shrink_to(&mut self.storage, to);
        proof {
            let n = self.storage@.len() as int;
            assert forall|i: int| 0 <= i < self.size implies (#[trigger] self.storage@[ring(0, i, n)]) is Some by {
                assert(turned[ring(0, i, turned.len() as int)] is Some);
            }
            assert forall|i: int| self.size <= i < n implies (#[trigger] self.storage@[ring(0, i, n)]) is None by {
                assert(turned[ring(0, i, turned.len() as int)] is None);
            }
            assert forall|i: int| 0 <= i < self.size implies self@[i] == old(self)@[i] by {
                assert(self.storage@[i] == turned[i]);
                assert(ring(0, i, n) == i && ring(0, i, turned.len() as int) == i);
            }
            assert(self@ =~= old(self)@);
        }
    }

    /// The slot that lies `index` steps after the head.
    fn storage_index(&self, index: usize) -> (place: usize)
        requires
            self.head < self.storage@.len(),
            index <= self.storage@.len(),
        ensures
            place == ring(self.head as int, index as int, self.storage@.len() as int),
            place < self.storage@.len(),
    {
        ring_index(self.head, index, self.storage.len())
    }

    fn is_full(&self) -> (b: bool)
        requires
            self.wf(),
        ensures
            b == (self@.len() == self.storage@.len()),
    {
        self.size() == self.storage.len()
    }

    fn is_out_of_indexing_bounds(&self, i: usize) -> (b: bool)
        requires
            self.wf(),
        ensures
            b == (i >= self@.len()),
    {
        i >= self.size()
    }

    /// Moves the head one slot back, round the ring.
    fn shift_head_back(&mut self)
        requires
            old(self).head < old(self).storage@.len(),
        ensures
            final(self).storage == old(self).storage,
            final(self).size == old(self).size,
            final(self).head == ring(old(self).head as int, old(self).storage@.len() - 1, old(self).storage@.len() as int),
            final(self).head < final(self).storage@.len(),
    {
        self.head = if self.head > 0 {
            self.head - 1
        } else {
            self.storage.len() - 1
        }
    }

    /// Moves the head one slot forth, round the ring.
    fn shift_head_forth(&mut self)
        requires
            old(self).head < old(self).storage@.len(),
        ensures
            final(self).storage == old(self).storage,
            final(self).size == old(self).size,
            final(self).head == ring(old(self).head as int, 1, old(self).storage@.len() as int),
            final(self).head < final(self).storage@.len(),
    {
        self.head = self.storage_index(1);
    }

    /// Whether two thirds of the slots are vacant, and there is more than one slot.
    fn is_too_large(&self) -> (b: bool)
        requires
            self.wf(),
        ensures
            b == (self.storage@.len() >= 3 * self@.len() && self.storage@.len() > 1),
    {
        self.storage.len() / 3 >= self.size() && self.storage.len() > 1
    }
}

/// A pass over the elements of a deque.
pub struct Iter<'a, T> {
    deque: &'a ArrayDeque<T>,
    index: usize,
}

impl<'a, T> Iter<'a, T> {
    /// Validity: the deque that the pass goes over is valid.
    pub closed spec fn wf(&self) -> bool {
        self.deque.wf()
    }

    /// The elements that are still to come.
    pub closed spec fn remaining(&self) -> Seq<T> {
        if self.index <= self.deque@.len() {
            self.deque@.skip(self.index as int)
        } else {
            Seq::empty()
        }
    }

    /// Hands out the next element, if one is left.
    pub fn next(&mut self) -> (item: Option<&'a T>)
        requires
            old(self).wf(),
        ensures
            final(self).wf(),
            old(self).remaining().len() == 0 ==> item is None && final(self).remaining() == old(self).remaining(),
            old(self).remaining().len() > 0 ==> item == Some(&old(self).remaining()[0]) && final(self).remaining()
                == old(self).remaining().skip(1),
    {
        if self.index >= self.deque.storage.len() {
            return None;
        }
        let i = self.deque.storage_index(self.index);
        let item = self.deque.storage[i].as_ref();
        self.index = self.index + 1;
        proof {
            assert(final(self).remaining() =~= if old(self).remaining().len() > 0 {
                old(self).remaining().skip(1)
            } else {
                old(self).remaining()
            });
        }
        item
    }
}

} // verus!
