use crate::order::TotalKey;
use vstd::prelude::*;

pub mod iter;
pub mod node;

use self::iter::{Inorder, Preorder};
use self::node::{
    balanced, height, height_of, insert, least_size, lemma_balanced_is_shallow, recorded,
    remove_node, Link, Node,
};
use crate::tree::{
    discard, entries, get_node, inorder, lemma_inorder_ascends, lemma_size_counts_keys, ordered,
    preorder, size,
};

verus! {

/// An ordered map kept as a height-balanced binary search tree.
pub struct AVLTreeMap<K, V> {
    root: Link<K, V>,
    len: usize,
}

impl<K, V> Drop for AVLTreeMap<K, V> {
    /// Releases every node once, the children before their parent.
    fn drop(&mut self)
        opens_invariants none
        no_unwind
    {
        let mut root: Link<K, V> = None;
        std::mem::swap(&mut self.root, &mut root);
        discard(root);
    }
}

impl<K: TotalKey, V> Default for AVLTreeMap<K, V> {
    /// An empty map.
    fn default() -> (made: Self)
        ensures
            made.wf(),
            made@ == Map::<K, V>::empty(),
    {
        Self::new()
    }
}

impl<K: TotalKey, V> View for AVLTreeMap<K, V> {
    type V = Map<K, V>;

    /// The map from each key to its value.
    closed spec fn view(&self) -> Map<K, V> {
        entries(self.root)
    }
}

impl<K: TotalKey, V> AVLTreeMap<K, V> {
    /// The tree that holds the pairs.
    pub closed spec fn tree(&self) -> Link<K, V> {
        self.root
    }

    /// The recorded number of pairs.
    pub closed spec fn count(&self) -> nat {
        self.len as nat
    }

    /// Search-tree order, height balance, heights recorded by the formula,
    /// and a count that equals the number of nodes and fits `isize`, so that
    /// every recorded height does.
    pub closed spec fn wf(&self) -> bool {
        &&& ordered(self.root, None, None)
        &&& recorded(self.root)
        &&& balanced(self.root)
        &&& size(self.root) == self.len
        &&& self.len <= isize::MAX
    }

    /// The pairs in ascending order of their keys.
    pub open spec fn inorder_view(&self) -> Seq<(K, V)> {
        inorder(self.tree())
    }

    /// The pairs with each node before its subtrees, the left one first.
    pub open spec fn preorder_view(&self) -> Seq<(K, V)> {
        preorder(self.tree())
    }

    /// What the view is made of, and what a well-formed map satisfies.
    pub proof fn lemma_wf(&self)
        requires
            self.wf(),
        ensures
            self@ == entries(self.tree()),
            ordered(self.tree(), None, None),
            recorded(self.tree()),
            balanced(self.tree()),
            self@.dom().finite(),
            self.count() == size(self.tree()),
            self.count() == self@.len(),
            self@.len() <= isize::MAX,
    {
        lemma_size_counts_keys(self.root, None, None);
    }

    /// After any run of operations, at every node the heights of the two
    /// subtrees differ by at most one and the recorded height is the one that
    /// the formula gives; so the tree has at least the least number of nodes
    /// for its height.
    pub proof fn lemma_height_balance(&self)
        requires
            self.wf(),
        ensures
            balanced(self.tree()),
            recorded(self.tree()),
            self@.len() == size(self.tree()),
            self@.len() >= least_size(height(self.tree())),
    {
        self.lemma_wf();
        lemma_balanced_is_shallow(self.root);
    }

    /// An empty map.
    pub fn new() -> (map: Self)
        ensures
            map.wf(),
            map@ == Map::<K, V>::empty(),
            map.tree() is None,
    {
        AVLTreeMap { root: None, len: 0 }
    }

    /// Height of the tree: -1 for an empty map, 0 for a single pair.
    pub fn height(&self) -> (h: isize)
        requires
            self.wf(),
        ensures
            h == height(self.tree()),
            self@.len() >= least_size(h as int),
    {
        proof {
            self.lemma_height_balance();
        }
        height_of(&self.root)
    }

    /// Number of pairs.
    pub fn len(&self) -> (n: usize)
        requires
            self.wf(),
        ensures
            n == self@.len(),
            n == self.count(),
    {
        proof {
            self.lemma_wf();
        }
        self.len
    }

    /// Whether the map holds no pair.
    pub fn is_empty(&self) -> (b: bool)
        requires
            self.wf(),
        ensures
            b == (self@.len() == 0),
            b == (self@ == Map::<K, V>::empty()),
    {
        proof {
            self.lemma_wf();
            if self@.len() == 0 {
                assert(self@.dom() =~= Set::empty());
                assert(self@ =~= Map::<K, V>::empty());
            }
        }
        self.len == 0
    }

    /// Maps `key` to `value` and returns the value that it had before.
    pub fn insert(&mut self, key: K, value: V) -> (prior: Option<V>)
        requires
            old(self).wf(),
            old(self)@.len() < isize::MAX,
        ensures
            final(self).wf(),
            final(self)@ == old(self)@.insert(key, value),
            prior == (if old(self)@.contains_key(key) {
                Some(old(self)@[key])
            } else {
                None
            }),
            final(self)@.len() == old(self)@.len() + (if old(self)@.contains_key(key) {
                0nat
            } else {
                1nat
            }),
    {
        proof {
            self.lemma_wf();
        }
        let prior = insert(&mut self.root, key, value, Ghost(None), Ghost(None));
        if prior.is_none() {
            self.len += 1;
        }
        proof {
            self.lemma_wf();
        }
        prior
    }

    /// Takes `key` out of the map and returns the value that it had. A map
    /// without the key stays exactly as it is.
    pub fn remove(&mut self, key: &K) -> (removed: Option<V>)
        requires
            old(self).wf(),
        ensures
            final(self).wf(),
            final(self)@ == old(self)@.remove(*key),
            removed == (if old(self)@.contains_key(*key) {
                Some(old(self)@[*key])
            } else {
                None
            }),
            final(self)@.len() == old(self)@.len() - (if old(self)@.contains_key(*key) {
                1nat
            } else {
                0nat
            }),
            !old(self)@.contains_key(*key) ==> *final(self) == *old(self),
    {
        proof {
            self.lemma_wf();
        }
        let removal = remove_node(&mut self.root, key, Ghost(None), Ghost(None));
        let removed = match removal {
            Some(node) => {
                self.len -= 1;
                Some(Node::into_value(*node))
            },
            None => None,
        };
        proof {
            self.lemma_wf();
        }
        removed
    }

    /// The value of `key`.
    pub fn get(&self, key: &K) -> (value: Option<&V>)
        requires
            self.wf(),
        ensures
            value == (if self@.contains_key(*key) {
                Some(&self@[*key])
            } else {
                None
            }),
    {
        match get_node(&self.root, key, Ghost(None), Ghost(None)) {
            Some(node) => Some(&node.value),
            None => None,
        }
    }

    /// The pairs, each node before its subtrees.
    pub fn preorder(&self) -> (walk: Preorder<'_, K, V>)
        ensures
            walk.remaining() == self.preorder_view(),
    {
        match &self.root {
            None => Preorder::new(),
            Some(root) => Preorder::with_root(&**root),
        }
    }

    /// The pairs in ascending order of their keys.
    pub fn inorder(&self) -> (walk: Inorder<'_, K, V>)
        ensures
            walk.remaining() == self.inorder_view(),
    {
        match &self.root {
            None => Inorder::new(),
            Some(root) => Inorder::with_root(&**root),
        }
    }

    /// The inorder sequence of a well-formed map ascends strictly by key and
    /// holds exactly the pairs of the map, each once.
    pub proof fn lemma_inorder_is_sorted_content(&self)
        requires
            self.wf(),
        ensures
            self.inorder_view().len() == self@.len(),
            forall|i: int, j: int|
                0 <= i < j < self.inorder_view().len() ==> (#[trigger] self.inorder_view()[i]).0.before(
                    &(#[trigger] self.inorder_view()[j]).0,
                ),
            forall|i: int|
                0 <= i < self.inorder_view().len() ==> self@.contains_pair(
                    (#[trigger] self.inorder_view()[i]).0,
                    self.inorder_view()[i].1,
                ),
            forall|k: K| #[trigger]
                self@.contains_key(k) ==> self.inorder_view().contains((k, self@[k])),
    {
        self.lemma_wf();
        lemma_inorder_ascends(self.root, None, None);
    }
}

} // verus!
