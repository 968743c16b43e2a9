use super::{items, LinkedList, Node};
use vstd::prelude::*;

verus! {

/// A one-shot walk over the items of a list from the front.
pub struct Iter<'a, T> {
    front: &'a Option<Box<Node<T>>>,
}

impl<'a, T> Iter<'a, T> {
    /// The items that the walk has yet to yield, in order.
    pub closed spec fn remaining(&self) -> Seq<T> {
        items(*self.front)
    }

    /// A walk over a chain of nodes.
    pub fn starting_at(front: &'a Option<Box<Node<T>>>) -> (walk: Self)
        ensures
            walk.remaining() == items(*front),
    {
        Iter { front }
    }

    /// Yields the next item, or nothing once the walk is over.
    pub fn next(&mut self) -> (item: Option<&'a T>)
        ensures
            old(self).remaining().len() == 0 ==> item is None && final(self).remaining() == old(self).remaining(),
            old(self).remaining().len() > 0 ==> {
                &&& item is Some
                &&& *item.unwrap() == old(self).remaining()[0]
                &&& final(self).remaining() == old(self).remaining().skip(1)
            },
    {
        match self.front {
            None => None,
            Some(node) => {
                self.front = &node.next;
                proof {
                    assert(items(node.next) =~= old(self).remaining().skip(1));
                }
                Some(&node.element)
            },
        }
    }
}

/// A one-shot walk that hands out the items of a list from either end.
pub struct IntoIter<T> {
    list: LinkedList<T>,
}

impl<T> IntoIter<T> {
    /// The items that the walk has yet to yield, the front one first.
    pub closed spec fn remaining(&self) -> Seq<T> {
        self.list@
    }

    /// The walk keeps a well-formed list.
    pub closed spec fn wf(&self) -> bool {
        self.list.wf()
    }

    /// A walk over the items of `list`.
    pub fn over(list: LinkedList<T>) -> (walk: Self)
        requires
            list.wf(),
        ensures
            walk.wf(),
            walk.remaining() == list@,
    {
        IntoIter { list }
    }

    /// Yields the front item, or nothing once the walk is over.
    pub fn next(&mut self) -> (item: Option<T>)
        requires
            old(self).wf(),
        ensures
            final(self).wf(),
            old(self).remaining().len() == 0 ==> item is None && final(self).remaining() == old(self).remaining(),
            old(self).remaining().len() > 0 ==> {
                &&& item == Some(old(self).remaining()[0])
                &&& final(self).remaining() == old(self).remaining().drop_first()
            },
    {
        self.list.pop_front()
    }

    /// Yields the back item, or nothing once the walk is over.
    pub fn next_back(&mut self) -> (item: Option<T>)
        requires
            old(self).wf(),
        ensures
            final(self).wf(),
            old(self).remaining().len() == 0 ==> item is None && final(self).remaining() == old(self).remaining(),
            old(self).remaining().len() > 0 ==> {
                &&& item == Some(old(self).remaining().last())
                &&& final(self).remaining() == old(self).remaining().drop_last()
            },
    {
        self.list.pop_back()
    }
}

} // verus!
