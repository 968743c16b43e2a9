use crate::order::TotalKey;
use vstd::prelude::*;

pub mod iter;
pub mod node;

use self::iter::{Inorder, Preorder};
use self::node::{
    black_height, blacks_along, depth, depth_of, ends_at_empty_slot, insert,
    lemma_disciplined_is_shallow, lemma_every_path_same_blacks, lemma_recolored_keeps, llrb,
    recolored, red, remove_node, two_to, Color, Link,
};
use crate::tree::{
    discard, entries, get_node, inorder, lemma_entries_at_root, lemma_inorder_ascends,
    lemma_size_counts_keys, ordered, preorder, size,
};

verus! {

/// An ordered map kept as a left-leaning red-black binary search tree.
pub struct RBTreeMap<K, V> {
    root: Link<K, V>,
    len: usize,
}

impl<K, V> Drop for RBTreeMap<K, V> {
    /// Releases every node once, the children before their parent.
    fn drop(&mut self)
        opens_invariants none
        no_unwind
    {
        let mut root: Link<K, V> = None;
        std::mem::swap(&mut self.root, &mut root);
        discard(root);
    }
}

impl<K: TotalKey, V> Default for RBTreeMap<K, V> {
    /// An empty map.
    fn default() -> (made: Self)
        ensures
            made.wf(),
            made@ == Map::<K, V>::empty(),
    {
        Self::new()
    }
}

impl<K: TotalKey, V> View for RBTreeMap<K, V> {
    type V = Map<K, V>;

    /// The map from each key to its value.
    closed spec fn view(&self) -> Map<K, V> {
        entries(self.root)
    }
}

impl<K: TotalKey, V> RBTreeMap<K, V> {
    /// The tree that holds the pairs.
    pub closed spec fn tree(&self) -> Link<K, V> {
        self.root
    }

    /// The recorded number of pairs.
    pub closed spec fn count(&self) -> nat {
        self.len as nat
    }

    /// Search-tree order, the colour discipline below a black link to the
    /// root, and a count equal to the number of nodes.
    pub closed spec fn wf(&self) -> bool {
        &&& ordered(self.root, None, None)
        &&& llrb(self.root)
        &&& !red(self.root)
        &&& size(self.root) == self.len
    }

    /// The pairs in ascending order of their keys.
    pub open spec fn inorder_view(&self) -> Seq<(K, V)> {
        inorder(self.tree())
    }

    /// The pairs with each node before its subtrees, the left one first.
    pub open spec fn preorder_view(&self) -> Seq<(K, V)> {
        preorder(self.tree())
    }

    /// What the view is made of, and what a well-formed map satisfies.
    pub proof fn lemma_wf(&self)
        requires
            self.wf(),
        ensures
            self@ == entries(self.tree()),
            ordered(self.tree(), None, None),
            llrb(self.tree()),
            !red(self.tree()),
            self@.dom().finite(),
            self.count() == size(self.tree()),
            self.count() == self@.len(),
    {
        lemma_size_counts_keys(self.root, None, None);
    }

    /// After any run of operations, every path from the root to an empty slot
    /// crosses the same number of black links, no red link leans right and no
    /// red link follows a red link, and the link to the root is black; so no
    /// path is longer than twice the black height.
    pub proof fn lemma_colour_discipline(&self)
        requires
            self.wf(),
        ensures
            llrb(self.tree()),
            !red(self.tree()),
            depth(self.tree()) <= 2 * black_height(self.tree()),
            self@.len() + 1 >= two_to(black_height(self.tree())),
    {
        self.lemma_wf();
        lemma_disciplined_is_shallow(self.root);
    }

    /// Any two paths from the root of a well-formed map to empty slots cross
    /// the same number of black links.
    pub proof fn lemma_paths_agree(&self, one: Seq<bool>, other: Seq<bool>)
        requires
            self.wf(),
            ends_at_empty_slot(self.tree(), one),
            ends_at_empty_slot(self.tree(), other),
        ensures
            blacks_along(self.tree(), one) == blacks_along(self.tree(), other),
    {
        lemma_every_path_same_blacks(self.root, one);
        lemma_every_path_same_blacks(self.root, other);
    }

    /// An empty map.
    pub fn new() -> (map: Self)
        ensures
            map.wf(),
            map@ == Map::<K, V>::empty(),
            map.tree() is None,
    {
        RBTreeMap { root: None, len: 0 }
    }

    /// Number of nodes on the longest path from the root to an empty slot.
    pub fn depth(&self) -> (d: usize)
        requires
            self.wf(),
        ensures
            d == depth(self.tree()),
            d <= 2 * black_height(self.tree()),
            self@.len() + 1 >= two_to(black_height(self.tree())),
    {
        proof {
            self.lemma_colour_discipline();
        }
        depth_of(&self.root)
    }

    /// Number of pairs.
    pub fn len(&self) -> (n: usize)
        requires
            self.wf(),
        ensures
            n == self@.len(),
            n == self.count(),
    {
        proof {
            self.lemma_wf();
        }
        self.len
    }

    /// Whether the map holds no pair.
    pub fn is_empty(&self) -> (b: bool)
        requires
            self.wf(),
        ensures
            b == (self@.len() == 0),
            b == (self@ == Map::<K, V>::empty()),
    {
        proof {
            self.lemma_wf();
            if self@.len() == 0 {
                assert(self@.dom() =~= Set::empty());
                assert(self@ =~= Map::<K, V>::empty());
            }
        }
        self.len == 0
    }

    /// Maps `key` to `value` and returns the value that it had before.
    pub fn insert(&mut self, key: K, value: V) -> (prior: Option<V>)
        requires
            old(self).wf(),
            old(self)@.len() < usize::MAX,
        ensures
            final(self).wf(),
            final(self)@ == old(self)@.insert(key, value),
            prior == (if old(self)@.contains_key(key) {
                Some(old(self)@[key])
            } else {
                None
            }),
            final(self)@.len() == old(self)@.len() + (if old(self)@.contains_key(key) {
                0nat
            } else {
                1nat
            }),
    {
        proof {
            self.lemma_wf();
        }
        let prior = insert(&mut self.root, key, value, Ghost(None), Ghost(None));
        let ghost grown = self.root;
        self.root.as_mut().unwrap().blacken();
        if prior.is_none() {
            self.len += 1;
        }
        proof {
            lemma_entries_at_root(grown);
            lemma_entries_at_root(self.root);
            assert(size(grown) == 1 + size(grown.unwrap().left) + size(grown.unwrap().right));
            assert(size(self.root) == size(grown));
            self.lemma_wf();
        }
        prior
    }

    /// Takes `key` out of the map and returns the value that it had. A map
    /// without the key stays exactly as it is.
    pub fn remove(&mut self, key: &K) -> (removed: Option<V>)
        requires
            old(self).wf(),
        ensures
            final(self).wf(),
            final(self)@ == old(self)@.remove(*key),
            removed == (if old(self)@.contains_key(*key) {
                Some(old(self)@[*key])
            } else {
                None
            }),
            final(self)@.len() == old(self)@.len() - (if old(self)@.contains_key(*key) {
                1nat
            } else {
                0nat
            }),
            !old(self)@.contains_key(*key) ==> *final(self) == *old(self),
    {
        proof {
            self.lemma_wf();
        }
        if get_node(&self.root, key, Ghost(None), Ghost(None)).is_none() {
            proof {
                assert(self@ =~= self@.remove(*key));
            }
            return None;
        }
        let ghost before = self.root;
        let root = self.root.as_mut().unwrap();
        if !root.red_left() && !root.red_right() {
            root.balance = Color::Red;
        }
        proof {
            lemma_recolored_keeps(before, None, None);
            assert(self.root == before || self.root == recolored(before));
            lemma_entries_at_root(self.root);
        }
        let removal = remove_node(&mut self.root, key, Ghost(None), Ghost(None));
        let ghost shrunk = self.root;
        match &mut self.root {
            Some(root) => root.blacken(),
            None => {},
        }
        self.len -= 1;
        proof {
            if shrunk is Some {
                lemma_entries_at_root(shrunk);
                lemma_entries_at_root(self.root);
                assert(size(shrunk) == 1 + size(shrunk.unwrap().left) + size(
                    shrunk.unwrap().right,
                ));
                assert(size(self.root) == size(shrunk));
            }
            self.lemma_wf();
        }
        Some(removal.value)
    }

    /// The value of `key`.
    pub fn get(&self, key: &K) -> (value: Option<&V>)
        requires
            self.wf(),
        ensures
            value == (if self@.contains_key(*key) {
                Some(&self@[*key])
            } else {
                None
            }),
    {
        match get_node(&self.root, key, Ghost(None), Ghost(None)) {
            Some(node) => Some(&node.value),
            None => None,
        }
    }

    /// The pairs, each node before its subtrees.
    pub fn preorder(&self) -> (walk: Preorder<'_, K, V>)
        ensures
            walk.remaining() == self.preorder_view(),
    {
        match &self.root {
            None => Preorder::new(),
            Some(root) => Preorder::with_root(&**root),
        }
    }

    /// The pairs in ascending order of their keys.
    pub fn inorder(&self) -> (walk: Inorder<'_, K, V>)
        ensures
            walk.remaining() == self.inorder_view(),
    {
        match &self.root {
            None => Inorder::new(),
            Some(root) => Inorder::with_root(&**root),
        }
    }

    /// The inorder sequence of a well-formed map ascends strictly by key and
    /// holds exactly the pairs of the map, each once.
    pub proof fn lemma_inorder_is_sorted_content(&self)
        requires
            self.wf(),
        ensures
            self.inorder_view().len() == self@.len(),
            forall|i: int, j: int|
                0 <= i < j < self.inorder_view().len() ==> (#[trigger] self.inorder_view()[i]).0.before(
                    &(#[trigger] self.inorder_view()[j]).0,
                ),
            forall|i: int|
                0 <= i < self.inorder_view().len() ==> self@.contains_pair(
                    (#[trigger] self.inorder_view()[i]).0,
                    self.inorder_view()[i].1,
                ),
            forall|k: K| #[trigger]
                self@.contains_key(k) ==> self.inorder_view().contains((k, self@[k])),
    {
        self.lemma_wf();
        lemma_inorder_ascends(self.root, None, None);
    }
}

} // verus!
