//! A singly linked list with access at the head.
//!
//! Each node owns the node behind it, so the list is one chain of boxes
//! from the head to the last node.

use vstd::prelude::*;

verus! {

/// A singly linked list.
pub struct SLList<T> {
    head: Option<Box<Node<T>>>,
    size: usize,
}

/// A value and the chain behind it.
pub struct Node<T> {
    value: T,
    next: Option<Box<Node<T>>>,
}

/// The values of a chain from its first node to its last.
pub open spec fn chain<T>(link: Option<Box<Node<T>>>) -> Seq<T>
    decreases link,
{
    match link {
        None => Seq::empty(),
        Some(node) => seq![node.value_spec()] + chain(node.next_spec()),
    }
}

impl<T> Node<T> {
    /// The value that the node holds.
    pub closed spec fn value_spec(&self) -> T {
        self.value
    }

    /// The chain behind the node.
    pub closed spec fn next_spec(&self) -> Option<Box<Node<T>>> {
        self.next
    }

    fn new(value: T, next: Option<Box<Node<T>>>) -> (node: Box<Node<T>>)
        ensures
            chain(Some(node)) == seq![value] + chain(next),
            node.value_spec() == value,
            node.next_spec() == next,
    {
        Box::new(Self { value, next })
    }
}

impl<T> View for SLList<T> {
    type V = Seq<T>;

    /// The values from the head on.
    closed spec fn view(&self) -> Seq<T> {
        chain(self.head)
    }
}

impl<T> SLList<T> {
    /// Validity: the size counts the nodes.
    pub closed spec fn wf(&self) -> bool {
        self.size == chain(self.head).len()
    }

    /// Creates a new, empty list.
    pub fn initialize() -> (list: Self)
        ensures
            list.wf(),
            list@ == Seq::<T>::empty(),
    {
        Self { head: None, size: 0 }
    }

    /// Returns the number of elements in the list.
    pub fn size(&self) -> (n: usize)
        requires
            self.wf(),
        ensures
            n == self@.len(),
    {
        self.size
    }

    /// Inserts a value as the new head of the list.
    pub fn push(&mut self, x: T)
        requires
            old(self).wf(),
            old(self)@.len() < usize::MAX,
        ensures
            final(self).wf(),
            final(self)@ == seq![x] + old(self)@,
    {
        self.head = Some(Node::new(x, self.head.take()));
        self.size = self.size + 1;
    }

    /// Removes the value at the head of the list and returns it. Returns
    /// `None` if the list is empty.
    pub fn pop(&mut self) -> (value: Option<T>)
        requires
            old(self).wf(),
        ensures
            final(self).wf(),
            old(self)@.len() == 0 ==> value is None && final(self)@ == old(self)@,
            old(self)@.len() > 0 ==> value == Some(old(self)@[0]) && final(self)@ == old(self)@.skip(1),
    {
        match self.head.take() {
            None => None,
            Some(pop_node) => {
                let node = *pop_node;
                proof {
                    assert(old(self)@.skip(1) =~= chain(node.next));
                }
                self.head = node.next;
                self.size = self.size - 1;
                Some(node.value)
            },
        }
    }

    /// Returns a pass over shared references to the list's values.
    pub fn iter(&self) -> (it: Iter<'_, T>)
        ensures
            it.remaining() == self@,
    {
        Iter(self.head.as_ref())
    }

    /// Turns the list into a pass that hands its values out from the head on.
    pub fn into_iter(self) -> (it: IntoIter<T>)
        requires
            self.wf(),
        ensures
            it.wf(),
            it.remaining() == self@,
    {
        IntoIter(self)
    }
}

impl<T> Drop for SLList<T> {
    /// Takes the chain apart node by node, so that a long list is freed
    /// without deep recursion.
    fn drop(&mut self)
        opens_invariants none
        no_unwind
    {
        let mut node_opt: Option<Box<Node<T>>> = None;
        std::mem::swap(&mut self.head, &mut node_opt);
        loop
            decreases chain(node_opt).len(),
        {
            match node_opt {
                None => {
                    break ;
                },
                Some(node) => {
                    let node = *node;
                    proof {
                        assert(chain(node.next).len() < chain(Some(Box::new(node))).len());
                    }
                    node_opt = node.next;
                },
            }
        }
    }
}

/// A pass that takes the values out of a list.
pub struct IntoIter<T>(SLList<T>);

impl<T> IntoIter<T> {
    /// Validity: the list inside is valid.
    pub closed spec fn wf(&self) -> bool {
        self.0.wf()
    }

    /// The values that are still to come.
    pub closed spec fn remaining(&self) -> Seq<T> {
        self.0@
    }

    /// Hands out the next value, if one is left.
    pub fn next(&mut self) -> (item: Option<T>)
        requires
            old(self).wf(),
        ensures
            final(self).wf(),
            old(self).remaining().len() == 0 ==> item is None && final(self).remaining() == old(self).remaining(),
            old(self).remaining().len() > 0 ==> item == Some(old(self).remaining()[0]) && final(self).remaining()
                == old(self).remaining().skip(1),
    {
        self.0.pop()
    }
}

/// A pass over shared references to the values of a list.
pub struct Iter<'a, T>(Option<&'a Box<Node<T>>>);

impl<'a, T> Iter<'a, T> {
    /// The values that are still to come.
    pub closed spec fn remaining(&self) -> Seq<T> {
        match self.0 {
            None => Seq::empty(),
            Some(node) => chain(Some(*node)),
        }
    }

    /// Hands out the next value, if one is left.
    pub fn next(&mut self) -> (item: Option<&'a T>)
        ensures
            old(self).remaining().len() == 0 ==> item is None && final(self).remaining() == old(self).remaining(),
            old(self).remaining().len() > 0 ==> item == Some(&old(self).remaining()[0]) && final(self).remaining()
                == old(self).remaining().skip(1),
    {
        match self.0 {
            None => None,
            Some(node) => {
                proof {
                    assert(chain(Some(*node)).skip(1) =~= chain(node.next));
                }
                self.0 = node.next.as_ref();
                Some(&node.value)
            },
        }
    }
}

} // verus!
