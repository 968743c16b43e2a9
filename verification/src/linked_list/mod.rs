use vstd::prelude::*;

pub mod iter;

use self::iter::{IntoIter, Iter};

verus! {

/// One item of the list and the rest of the list behind it.
pub struct Node<T> {
    pub element: T,
    pub next: Option<Box<Node<T>>>,
}

/// The items of a chain of nodes, the first node first.
pub open spec fn items<T>(chain: Option<Box<Node<T>>>) -> Seq<T>
    decreases chain,
{
    match chain {
        None => Seq::empty(),
        Some(node) => seq![node.element] + items(node.next),
    }
}

/// Where `insert` puts an item: at `index` in the front half of the list,
/// and behind the item at `index`, or at the end, in the back half.
pub open spec fn insert_place(index: int, len: int) -> int {
    if index == 0 || index < len / 2 {
        index
    } else if index + 1 <= len {
        index + 1
    } else {
        len
    }
}

/// The place that `remove` takes an item from: `index`, or the last place
/// where the index lies beyond it.
pub open spec fn remove_place(index: int, len: int) -> int {
    if index < len {
        index
    } else {
        len - 1
    }
}

fn chain_get<T>(chain: &Option<Box<Node<T>>>, index: usize) -> (item: &T)
    requires
        index < items(*chain).len(),
    ensures
        *item == items(*chain)[index as int],
    decreases index,
{
    let node = chain.as_ref().unwrap();
    if index == 0 {
        &node.element
    } else {
        chain_get(&node.next, index - 1)
    }
}

fn chain_get_mut<T>(chain: &mut Option<Box<Node<T>>>, index: usize) -> (item: &mut T)
    requires
        index < items(*old(chain)).len(),
    ensures
        *item == items(*old(chain))[index as int],
        items(*final(chain)) == items(*old(chain)).update(index as int, *final(item)),
    decreases index,
{
    let node = chain.as_mut().unwrap();
    if index == 0 {
        proof {
            assert forall|e: T|
                items(Some(Box::new(Node { element: e, next: node.next }))) =~= items(
                    *old(chain),
                ).update(0, e) by {}
        }
        &mut node.element
    } else {
        proof {
            assert forall|tail: Option<Box<Node<T>>>, e: T|
                items(tail) == items(node.next).update(index - 1, e) implies items(
                    Some(Box::new(Node { element: node.element, next: tail })),
                ) =~= items(*old(chain)).update(index as int, e) by {}
        }
        chain_get_mut(&mut node.next, index - 1)
    }
}

fn chain_insert<T>(chain: &mut Option<Box<Node<T>>>, index: usize, elt: T)
    requires
        index <= items(*old(chain)).len(),
    ensures
        items(*final(chain)) == items(*old(chain)).insert(index as int, elt),
    decreases index,
{
    if index == 0 {
        let rest = chain.take();
        *chain = Some(Box::new(Node { element: elt, next: rest }));
        proof {
            assert(items(*chain) =~= items(*old(chain)).insert(0, elt));
        }
    } else {
        let node = chain.as_mut().unwrap();
        let ghost tail = items(node.next);
        chain_insert(&mut node.next, index - 1, elt);
        proof {
            assert(items(*chain) =~= items(*old(chain)).insert(index as int, elt));
        }
    }
}

fn chain_remove<T>(chain: &mut Option<Box<Node<T>>>, index: usize) -> (elt: T)
    requires
        index < items(*old(chain)).len(),
    ensures
        elt == items(*old(chain))[index as int],
        items(*final(chain)) == items(*old(chain)).remove(index as int),
    decreases index,
{
    if index == 0 {
        let mut node = chain.take().unwrap();
        *chain = node.next.take();
        proof {
            assert(items(*chain) =~= items(*old(chain)).remove(0));
        }
        node.element
    } else {
        let node = chain.as_mut().unwrap();
        let elt = chain_remove(&mut node.next, index - 1);
        proof {
            assert(items(*chain) =~= items(*old(chain)).remove(index as int));
        }
        elt
    }
}

/// A list of items in a row, each one linked to the next.
pub struct LinkedList<T> {
    head: Option<Box<Node<T>>>,
    len: usize,
}

impl<T> View for LinkedList<T> {
    type V = Seq<T>;

    /// The items, the front one first.
    closed spec fn view(&self) -> Seq<T> {
        items(self.head)
    }
}

impl<T> Default for LinkedList<T> {
    /// An empty list.
    fn default() -> (made: Self)
        ensures
            made.wf(),
            made@ == Seq::<T>::empty(),
    {
        Self::new()
    }
}

impl<T> LinkedList<T> {
    /// The recorded length is the number of items.
    pub closed spec fn wf(&self) -> bool {
        self.len == items(self.head).len()
    }

    /// An empty list.
    pub fn new() -> (list: Self)
        ensures
            list.wf(),
            list@ == Seq::<T>::empty(),
    {
        LinkedList { head: None, len: 0 }
    }

    /// Number of items.
    pub fn len(&self) -> (n: usize)
        requires
            self.wf(),
        ensures
            n == self@.len(),
    {
        self.len
    }

    pub fn is_empty(&self) -> (b: bool)
        requires
            self.wf(),
        ensures
            b == (self@.len() == 0),
    {
        self.len == 0
    }

    /// Drops every item.
    pub fn clear(&mut self)
        ensures
            final(self).wf(),
            final(self)@ == Seq::<T>::empty(),
    {
        self.head = None;
        self.len = 0;
    }

    /// The item at `index`, if the list is that long.
    pub fn get(&self, index: usize) -> (item: Option<&T>)
        requires
            self.wf(),
        ensures
            item == (if index < self@.len() {
                Some(&self@[index as int])
            } else {
                None
            }),
    {
        if index >= self.len {
            return None;
        }
        Some(chain_get(&self.head, index))
    }

    /// The item at `index`, if the list is that long, to be changed in place.
    pub fn get_mut(&mut self, index: usize) -> (item: Option<&mut T>)
        requires
            old(self).wf(),
        ensures
            final(self).wf(),
            match item {
                Some(slot) => {
                    &&& index < old(self)@.len()
                    &&& *slot == old(self)@[index as int]
                    &&& final(self)@ == old(self)@.update(index as int, *final(slot))
                },
                None => index >= old(self)@.len() && final(self)@ == old(self)@,
            },
    {
        if index >= self.len {
            return None;
        }
        Some(chain_get_mut(&mut self.head, index))
    }

    /// Puts `elt` behind the last item.
    pub fn push_back(&mut self, elt: T)
        requires
            old(self).wf(),
            old(self)@.len() < usize::MAX,
        ensures
            final(self).wf(),
            final(self)@ == old(self)@.push(elt),
    {
        chain_insert(&mut self.head, self.len, elt);
        self.len += 1;
        proof {
            assert(old(self)@.insert(old(self)@.len() as int, elt) =~= old(self)@.push(elt));
        }
    }

    /// Puts `elt` before the first item.
    pub fn push_front(&mut self, elt: T)
        requires
            old(self).wf(),
            old(self)@.len() < usize::MAX,
        ensures
            final(self).wf(),
            final(self)@ == seq![elt] + old(self)@,
    {
        chain_insert(&mut self.head, 0, elt);
        self.len += 1;
        proof {
            assert(old(self)@.insert(0, elt) =~= seq![elt] + old(self)@);
        }
    }

    /// Takes the last item off the list.
    pub fn pop_back(&mut self) -> (elt: Option<T>)
        requires
            old(self).wf(),
        ensures
            final(self).wf(),
            old(self)@.len() == 0 ==> elt is None && final(self)@ == old(self)@,
            old(self)@.len() > 0 ==> elt == Some(old(self)@.last()) && final(self)@ == old(self)@.drop_last(),
    {
        if self.len == 0 {
            return None;
        }
        let elt = chain_remove(&mut self.head, self.len - 1);
        self.len -= 1;
        proof {
            assert(old(self)@.remove(old(self)@.len() - 1) =~= old(self)@.drop_last());
        }
        Some(elt)
    }

    /// Takes the first item off the list.
    pub fn pop_front(&mut self) -> (elt: Option<T>)
        requires
            old(self).wf(),
        ensures
            final(self).wf(),
            old(self)@.len() == 0 ==> elt is None && final(self)@ == old(self)@,
            old(self)@.len() > 0 ==> elt == Some(old(self)@[0]) && final(self)@ == old(self)@.drop_first(),
    {
        if self.len == 0 {
            return None;
        }
        let elt = chain_remove(&mut self.head, 0);
        self.len -= 1;
        proof {
            assert(old(self)@.remove(0) =~= old(self)@.drop_first());
        }
        Some(elt)
    }

    /// Puts `elt` into the list at the place that `insert_place` gives for
    /// `index`, which may be no more than the length.
    pub fn insert(&mut self, index: usize, elt: T)
        requires
            old(self).wf(),
            index <= old(self)@.len(),
            old(self)@.len() < usize::MAX,
        ensures
            final(self).wf(),
            final(self)@ == old(self)@.insert(
                insert_place(index as int, old(self)@.len() as int),
                elt,
            ),
    {
        let place: usize = if index == 0 || index < self.len / 2 {
            index
        } else if index < self.len {
            index + 1
        } else {
            self.len
        };
        chain_insert(&mut self.head, place, elt);
        self.len += 1;
    }

    /// Takes the item at the place that `remove_place` gives for `index` out
    /// of the list. An empty list gives nothing.
    pub fn remove(&mut self, index: usize) -> (elt: Option<T>)
        requires
            old(self).wf(),
        ensures
            final(self).wf(),
            old(self)@.len() == 0 ==> elt is None && final(self)@ == old(self)@,
            old(self)@.len() > 0 ==> {
                let place = remove_place(index as int, old(self)@.len() as int);
                elt == Some(old(self)@[place]) && final(self)@ == old(self)@.remove(place)
            },
    {
        if self.len == 0 {
            return None;
        }
        let place: usize = if index < self.len {
            index
        } else {
            self.len - 1
        };
        let elt = chain_remove(&mut self.head, place);
        self.len -= 1;
        Some(elt)
    }

    /// A walk over the items from the front.
    pub fn iter(&self) -> (walk: Iter<'_, T>)
        ensures
            walk.remaining() == self@,
    {
        Iter::starting_at(&self.head)
    }

    /// A walk that hands out the items, from either end.
    pub fn into_iter(self) -> (walk: IntoIter<T>)
        requires
            self.wf(),
        ensures
            walk.wf(),
            walk.remaining() == self@,
    {
        IntoIter::over(self)
    }

    /// The items as a vector of references, the front one first.
    pub fn to_vec(&self) -> (out: Vec<&T>)
        ensures
            out@.len() == self@.len(),
            forall|i: int| 0 <= i < out@.len() ==> *#[trigger] out@[i] == self@[i],
    {
        let mut out: Vec<&T> = Vec::new();
        let mut walk = self.iter();
        loop
            invariant
                out@.len() + walk.remaining().len() == self@.len(),
                forall|i: int| 0 <= i < out@.len() ==> *#[trigger] out@[i] == self@[i],
                walk.remaining() =~= self@.skip(out@.len() as int),
            decreases walk.remaining().len(),
        {
            match walk.next() {
                None => {
                    return out;
                },
                Some(item) => {
                    out.push(item);
                },
            }
        }
    }
}

} // verus!
