use super::{inorder, preorder, size, Link, Node};
use vstd::prelude::*;

verus! {

/// What a preorder walk still yields, given its stack of pending subtrees.
pub open spec fn preorder_rest<K, V, B>(stack: Seq<&Node<K, V, B>>) -> Seq<(K, V)>
    decreases stack.len(),
{
    if stack.len() == 0 {
        Seq::empty()
    } else {
        preorder(Some(Box::new(*stack.last()))) + preorder_rest(stack.drop_last())
    }
}

/// What an inorder walk still yields, given its stack of nodes whose left
/// subtrees are done.
pub open spec fn inorder_rest<K, V, B>(stack: Seq<&Node<K, V, B>>) -> Seq<(K, V)>
    decreases stack.len(),
{
    if stack.len() == 0 {
        Seq::empty()
    } else {
        seq![(stack.last().key, stack.last().value)] + inorder(stack.last().right) + inorder_rest(
            stack.drop_last(),
        )
    }
}

/// A one-shot walk that yields each node before its subtrees.
pub struct Preorder<'a, K, V, B> {
    stack: Vec<&'a Node<K, V, B>>,
}

impl<'a, K, V, B> Preorder<'a, K, V, B> {
    /// The pairs that the walk has yet to yield, in order.
    pub closed spec fn remaining(&self) -> Seq<(K, V)> {
        preorder_rest(self.stack@)
    }

    /// A walk that yields nothing.
    pub fn new() -> (walk: Self)
        ensures
            walk.remaining() == Seq::<(K, V)>::empty(),
    {
        Preorder { stack: Vec::new() }
    }

    /// A walk over the subtree of `root`.
    pub fn with_root(root: &'a Node<K, V, B>) -> (walk: Self)
        ensures
            walk.remaining() == preorder(Some(Box::new(*root))),
    {
        let mut walk = Self::new();
        walk.stack.push(root);
        proof {
            assert(walk.stack@.drop_last() =~= Seq::empty());
            assert(preorder_rest(walk.stack@.drop_last()) == Seq::<(K, V)>::empty());
            assert(walk.remaining() =~= preorder(Some(Box::new(*root))));
        }
        walk
    }

    /// Yields the next pair, or nothing once the walk is over.
    pub fn next(&mut self) -> (item: Option<(&'a K, &'a V)>)
        ensures
            old(self).remaining().len() == 0 ==> item is None && final(self).remaining()
                == old(self).remaining(),
            old(self).remaining().len() > 0 ==> {
                &&& item is Some
                &&& *item.unwrap().0 == old(self).remaining()[0].0
                &&& *item.unwrap().1 == old(self).remaining()[0].1
                &&& final(self).remaining() == old(self).remaining().skip(1)
            },
    {
        let ghost before = self.stack@;
        match self.stack.pop() {
            None => None,
            Some(node) => {
                let ghost rest = self.stack@;
                proof {
                    assert(rest == before.drop_last());
                    assert(before.last() == node);
                }
                match &node.right {
                    Some(right) => {
                        self.stack.push(&**right);
                    },
                    None => {},
                }
                let ghost mid = self.stack@;
                proof {
                    if node.right is Some {
                        assert(mid.drop_last() =~= rest);
                    }
                    assert(preorder_rest(mid) =~= preorder(node.right) + preorder_rest(rest));
                }
                match &node.left {
                    Some(left) => {
                        self.stack.push(&**left);
                    },
                    None => {},
                }
                proof {
                    if node.left is Some {
                        assert(self.stack@.drop_last() =~= mid);
                    }
                    assert(preorder_rest(self.stack@) =~= preorder(node.left) + preorder_rest(mid));
                    assert(preorder_rest(before) =~= seq![(node.key, node.value)] + preorder_rest(
                        self.stack@,
                    ));
                    assert(preorder_rest(self.stack@) =~= preorder_rest(before).skip(1));
                }
                Some((&node.key, &node.value))
            },
        }
    }
}

/// A one-shot walk that yields the pairs in ascending order of their keys.
pub struct Inorder<'a, K, V, B> {
    stack: Vec<&'a Node<K, V, B>>,
}

impl<'a, K, V, B> Inorder<'a, K, V, B> {
    /// The pairs that the walk has yet to yield, in order.
    pub closed spec fn remaining(&self) -> Seq<(K, V)> {
        inorder_rest(self.stack@)
    }

    /// A walk that yields nothing.
    pub fn new() -> (walk: Self)
        ensures
            walk.remaining() == Seq::<(K, V)>::empty(),
    {
        Inorder { stack: Vec::new() }
    }

    /// A walk over the subtree of `root`.
    pub fn with_root(root: &'a Node<K, V, B>) -> (walk: Self)
        ensures
            walk.remaining() == inorder(Some(Box::new(*root))),
    {
        let mut walk = Self::new();
        walk.stack.push(root);
        proof {
            assert(walk.stack@.drop_last() =~= Seq::empty());
            assert(inorder_rest(walk.stack@.drop_last()) == Seq::<(K, V)>::empty());
        }
        walk.descend(&root.left);
        proof {
            assert(walk.remaining() =~= inorder(Some(Box::new(*root))));
        }
        walk
    }

    /// Stacks the nodes on the leftmost path of a subtree.
    fn descend(&mut self, from: &'a Link<K, V, B>)
        ensures
            final(self).remaining() == inorder(*from) + old(self).remaining(),
    {
        let ghost before = self.stack@;
        let mut at = from;
        while at.is_some()
            invariant
                inorder(*at) + inorder_rest(self.stack@) == inorder(*from) + inorder_rest(before),
            decreases size(*at),
        {
            let node = at.as_ref().unwrap();
            let ghost prev = self.stack@;
            self.stack.push(&**node);
            proof {
                assert(self.stack@.drop_last() =~= prev);
                assert(inorder(node.left) + inorder_rest(self.stack@) =~= inorder(*at)
                    + inorder_rest(prev));
            }
            at = &node.left;
        }
        proof {
            assert(inorder(*at) + inorder_rest(self.stack@) =~= inorder_rest(self.stack@));
        }
    }

    /// Yields the next pair, or nothing once the walk is over.
    pub fn next(&mut self) -> (item: Option<(&'a K, &'a V)>)
        ensures
            old(self).remaining().len() == 0 ==> item is None && final(self).remaining()
                == old(self).remaining(),
            old(self).remaining().len() > 0 ==> {
                &&& item is Some
                &&& *item.unwrap().0 == old(self).remaining()[0].0
                &&& *item.unwrap().1 == old(self).remaining()[0].1
                &&& final(self).remaining() == old(self).remaining().skip(1)
            },
    {
        let ghost before = self.stack@;
        match self.stack.pop() {
            None => None,
            Some(node) => {
                let ghost rest = self.stack@;
                proof {
                    assert(rest == before.drop_last());
                    assert(before.last() == node);
                }
                self.descend(&node.right);
                proof {
                    assert(inorder_rest(before) =~= seq![(node.key, node.value)] + inorder_rest(
                        self.stack@,
                    ));
                    assert(inorder_rest(self.stack@) =~= inorder_rest(before).skip(1));
                }
                Some((&node.key, &node.value))
            },
        }
    }
}

} // verus!
