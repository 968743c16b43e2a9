use crate::order::{above, below, Rel, TotalKey};
use vstd::prelude::*;

pub mod iter;

verus! {

/// Storage unit of a binary search tree: a key, its value, what the
/// balancing discipline records of the node, and the two child slots.
pub struct Node<K, V, B> {
    pub key: K,
    pub value: V,
    pub balance: B,
    pub left: Option<Box<Node<K, V, B>>>,
    pub right: Option<Box<Node<K, V, B>>>,
}

/// A child slot: absent, or an exclusively owned subtree.
pub type Link<K, V, B> = Option<Box<Node<K, V, B>>>;

impl<K, V, B> Node<K, V, B> {
    /// The value of a detached node.
    pub fn into_value(node: Self) -> (v: V)
        ensures
            v == node.value,
    {
        node.value
    }

    /// Exchanges key and value with a detached node.
    pub fn swap_successor(&mut self, successor: &mut Self)
        ensures
            final(self).key == old(successor).key,
            final(self).value == old(successor).value,
            final(self).balance == old(self).balance,
            final(self).left == old(self).left,
            final(self).right == old(self).right,
            final(successor).key == old(self).key,
            final(successor).value == old(self).value,
            final(successor).balance == old(successor).balance,
            final(successor).left == old(successor).left,
            final(successor).right == old(successor).right,
    {
        std::mem::swap(&mut self.key, &mut successor.key);
        std::mem::swap(&mut self.value, &mut successor.value);
    }
}

/// Number of nodes.
pub open spec fn size<K, V, B>(t: Link<K, V, B>) -> nat
    decreases t,
{
    match t {
        None => 0,
        Some(n) => 1 + size(n.left) + size(n.right),
    }
}

/// The key-value pairs that the subtree holds.
pub open spec fn entries<K, V, B>(t: Link<K, V, B>) -> Map<K, V>
    decreases t,
{
    match t {
        None => Map::empty(),
        Some(n) => entries(n.left).union_prefer_right(entries(n.right)).insert(n.key, n.value),
    }
}

/// Left subtree, node, right subtree.
pub open spec fn inorder<K, V, B>(t: Link<K, V, B>) -> Seq<(K, V)>
    decreases t,
{
    match t {
        None => Seq::empty(),
        Some(n) => inorder(n.left).push((n.key, n.value)) + inorder(n.right),
    }
}

/// Node, left subtree, right subtree.
pub open spec fn preorder<K, V, B>(t: Link<K, V, B>) -> Seq<(K, V)>
    decreases t,
{
    match t {
        None => Seq::empty(),
        Some(n) => seq![(n.key, n.value)] + preorder(n.left) + preorder(n.right),
    }
}

/// Search-tree order: every key lies strictly between the bounds, the keys
/// of a left subtree below the node's key and those of a right subtree above.
pub open spec fn ordered<K: TotalKey, V, B>(t: Link<K, V, B>, lo: Option<K>, hi: Option<K>) -> bool
    decreases t,
{
    match t {
        None => true,
        Some(n) => {
            &&& above(lo, n.key)
            &&& below(n.key, hi)
            &&& ordered(n.left, lo, Some(n.key))
            &&& ordered(n.right, Some(n.key), hi)
        },
    }
}

/// The pairs of a subtree, by its root and children.
pub proof fn lemma_entries_at_root<K, V, B>(t: Link<K, V, B>)
    requires
        t is Some,
    ensures
        entries(t) == entries(t.unwrap().left).union_prefer_right(
            entries(t.unwrap().right),
        ).insert(t.unwrap().key, t.unwrap().value),
        entries(t).contains_pair(t.unwrap().key, t.unwrap().value),
{
}

/// In an ordered subtree every key lies strictly between the bounds.
pub proof fn lemma_keys_within<K: TotalKey, V, B>(t: Link<K, V, B>, lo: Option<K>, hi: Option<K>)
    requires
        ordered(t, lo, hi),
    ensures
        forall|k: K| #[trigger] entries(t).contains_key(k) ==> above(lo, k) && below(k, hi),
    decreases t,
{
    K::order_laws();
    match t {
        None => {},
        Some(n) => {
            lemma_keys_within(n.left, lo, Some(n.key));
            lemma_keys_within(n.right, Some(n.key), hi);
            assert forall|k: K| #[trigger] entries(t).contains_key(k) implies above(lo, k)
                && below(k, hi) by {
                assert(k == n.key || entries(n.left).contains_key(k) || entries(
                    n.right,
                ).contains_key(k));
            }
        },
    }
}

/// Order within bounds is kept when the bounds are relaxed.
pub proof fn lemma_widen<K: TotalKey, V, B>(
    t: Link<K, V, B>,
    lo: Option<K>,
    hi: Option<K>,
    lo2: Option<K>,
    hi2: Option<K>,
)
    requires
        ordered(t, lo, hi),
        lo2 is None || (lo is Some && (lo2 == lo || lo2.unwrap().before(&lo.unwrap()))),
        hi2 is None || (hi is Some && (hi2 == hi || hi.unwrap().before(&hi2.unwrap()))),
    ensures
        ordered(t, lo2, hi2),
    decreases t,
{
    K::order_laws();
    match t {
        None => {},
        Some(n) => {
            lemma_widen(n.left, lo, Some(n.key), lo2, Some(n.key));
            lemma_widen(n.right, Some(n.key), hi, Some(n.key), hi2);
        },
    }
}

/// An ordered subtree holds as many keys as it has nodes.
pub proof fn lemma_size_counts_keys<K: TotalKey, V, B>(
    t: Link<K, V, B>,
    lo: Option<K>,
    hi: Option<K>,
)
    requires
        ordered(t, lo, hi),
    ensures
        entries(t).dom().finite(),
        entries(t).dom().len() == size(t),
    decreases t,
{
    K::order_laws();
    match t {
        None => {
            assert(entries(t).dom() =~= Set::empty());
        },
        Some(n) => {
            let l = entries(n.left).dom();
            let r = entries(n.right).dom();
            lemma_size_counts_keys(n.left, lo, Some(n.key));
            lemma_size_counts_keys(n.right, Some(n.key), hi);
            lemma_keys_within(n.left, lo, Some(n.key));
            lemma_keys_within(n.right, Some(n.key), hi);
            assert(l.disjoint(r)) by {
                assert forall|k: K| !(l.contains(k) && r.contains(k)) by {
                    if l.contains(k) && r.contains(k) {
                        assert(entries(n.left).contains_key(k));
                        assert(entries(n.right).contains_key(k));
                    }
                }
            }
            vstd::set_lib::lemma_set_disjoint_lens(l, r);
            assert(!(l + r).contains(n.key)) by {
                if l.contains(n.key) {
                    assert(entries(n.left).contains_key(n.key));
                }
                if r.contains(n.key) {
                    assert(entries(n.right).contains_key(n.key));
                }
            }
            assert(entries(t).dom() =~= (l + r).insert(n.key));
        },
    }
}

/// The inorder sequence of an ordered subtree ascends strictly, stays within
/// the bounds, and holds exactly the pairs of the subtree.
pub proof fn lemma_inorder_ascends<K: TotalKey, V, B>(
    t: Link<K, V, B>,
    lo: Option<K>,
    hi: Option<K>,
)
    requires
        ordered(t, lo, hi),
    ensures
        inorder(t).len() == size(t),
        forall|i: int|
            0 <= i < inorder(t).len() ==> above(lo, (#[trigger] inorder(t)[i]).0) && below(
                inorder(t)[i].0,
                hi,
            ),
        forall|i: int, j: int|
            0 <= i < j < inorder(t).len() ==> (#[trigger] inorder(t)[i]).0.before(
                &(#[trigger] inorder(t)[j]).0,
            ),
        forall|i: int|
            0 <= i < inorder(t).len() ==> entries(t).contains_pair(
                (#[trigger] inorder(t)[i]).0,
                inorder(t)[i].1,
            ),
        forall|k: K| #[trigger]
            entries(t).contains_key(k) ==> inorder(t).contains((k, entries(t)[k])),
    decreases t,
{
    K::order_laws();
    match t {
        None => {},
        Some(n) => {
            let l = inorder(n.left);
            let r = inorder(n.right);
            let s = inorder(t);
            let m = l.len() as int;
            lemma_inorder_ascends(n.left, lo, Some(n.key));
            lemma_inorder_ascends(n.right, Some(n.key), hi);
            lemma_keys_within(n.left, lo, Some(n.key));
            lemma_keys_within(n.right, Some(n.key), hi);
            lemma_entries_at_root(t);
            assert(s == l.push((n.key, n.value)) + r);
            assert(s.len() == m + 1 + r.len());
            assert forall|i: int| 0 <= i < s.len() implies (if i < m {
                s[i] == l[i]
            } else if i == m {
                s[i] == (n.key, n.value)
            } else {
                s[i] == r[i - m - 1]
            }) by {}
            assert forall|i: int| 0 <= i < s.len() implies entries(t).contains_pair(
                (#[trigger] s[i]).0,
                s[i].1,
            ) by {
                if i < m {
                    assert(s[i] == l[i]);
                    assert(entries(n.left).contains_key(l[i].0));
                } else if i > m {
                    assert(s[i] == r[i - m - 1]);
                    assert(entries(n.right).contains_key(r[i - m - 1].0));
                }
            }
            assert forall|k: K| #[trigger] entries(t).contains_key(k) implies s.contains(
                (k, entries(t)[k]),
            ) by {
                if k == n.key {
                    assert(s[m] == (k, entries(t)[k]));
                } else if entries(n.right).contains_key(k) {
                    let i = choose|i: int| 0 <= i < r.len() && r[i] == (k, entries(n.right)[k]);
                    assert(s[m + 1 + i] == r[i]);
                } else {
                    assert(entries(n.left).contains_key(k));
                    let i = choose|i: int| 0 <= i < l.len() && l[i] == (k, entries(n.left)[k]);
                    assert(s[i] == l[i]);
                }
            }
            assert forall|i: int, j: int| 0 <= i < j < s.len() implies (#[trigger] s[i]).0.before(
                &(#[trigger] s[j]).0,
            ) by {
                if j < m {
                    assert(s[i] == l[i] && s[j] == l[j]);
                } else if i > m {
                    assert(s[i] == r[i - m - 1] && s[j] == r[j - m - 1]);
                } else {
                    if i < m {
                        assert(s[i] == l[i]);
                    }
                    if j > m {
                        assert(s[j] == r[j - m - 1]);
                    }
                }
            }
            assert forall|i: int| 0 <= i < s.len() implies above(lo, (#[trigger] s[i]).0) && below(
                s[i].0,
                hi,
            ) by {
                if i < m {
                    assert(s[i] == l[i]);
                } else if i > m {
                    assert(s[i] == r[i - m - 1]);
                }
            }
        },
    }
}

/// The node that holds `key`, if there is one.
pub fn get_node<'a, K: TotalKey, V, B>(
    t: &'a Link<K, V, B>,
    key: &K,
    Ghost(lo): Ghost<Option<K>>,
    Ghost(hi): Ghost<Option<K>>,
) -> (found: Option<&'a Node<K, V, B>>)
    requires
        ordered(*t, lo, hi),
    ensures
        match found {
            Some(node) => node.key == *key && entries(*t).contains_pair(*key, node.value),
            None => !entries(*t).contains_key(*key),
        },
    decreases *t,
{
    proof {
        K::order_laws();
    }
    match t {
        None => None,
        Some(node) => {
            proof {
                lemma_entries_at_root(*t);
                lemma_keys_within(node.left, lo, Some(node.key));
                lemma_keys_within(node.right, Some(node.key), hi);
            }
            match node.key.compare(key) {
                Rel::Equal => Some(&**node),
                Rel::Less => get_node(&node.right, key, Ghost(Some(node.key)), Ghost(hi)),
                Rel::Greater => get_node(&node.left, key, Ghost(lo), Ghost(Some(node.key))),
            }
        },
    }
}

/// Releases the nodes of a subtree, the children before their parent.
pub fn discard<K, V, B>(t: Link<K, V, B>)
    decreases size(t),
    opens_invariants none
    no_unwind
{
    match t {
        None => {},
        Some(mut node) => {
            let mut left: Link<K, V, B> = None;
            let mut right: Link<K, V, B> = None;
            std::mem::swap(&mut node.left, &mut left);
            std::mem::swap(&mut node.right, &mut right);
            discard(left);
            discard(right);
        },
    }
}

} // verus!
