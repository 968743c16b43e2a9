use crate::order::{above, below, Rel, TotalKey};
use crate::tree::{
    entries, lemma_entries_at_root, lemma_keys_within, lemma_widen, ordered, size,
};
use vstd::prelude::*;

verus! {

/// Storage unit of the height-balanced tree: the balance it records is the
/// height of its subtree.
pub type Node<K, V> = crate::tree::Node<K, V, isize>;

/// A child slot: absent, or an exclusively owned subtree.
pub type Link<K, V> = crate::tree::Link<K, V, isize>;

/// The greater of two numbers.
pub open spec fn larger(a: int, b: int) -> int {
    if a >= b {
        a
    } else {
        b
    }
}

/// Height by the formula: an empty subtree has height -1, a leaf 0.
pub open spec fn height<K, V>(t: Link<K, V>) -> int
    decreases t,
{
    match t {
        None => -1,
        Some(n) => 1 + larger(height(n.left), height(n.right)),
    }
}

/// Every node records the height that the formula gives.
pub open spec fn recorded<K, V>(t: Link<K, V>) -> bool
    decreases t,
{
    match t {
        None => true,
        Some(n) => n.balance == height(t) && recorded(n.left) && recorded(n.right),
    }
}

/// At every node the heights of the two subtrees differ by at most one.
pub open spec fn balanced<K, V>(t: Link<K, V>) -> bool
    decreases t,
{
    match t {
        None => true,
        Some(n) => {
            &&& -1 <= height(n.left) - height(n.right) <= 1
            &&& balanced(n.left)
            &&& balanced(n.right)
        },
    }
}

pub proof fn lemma_height_below_size<K, V>(t: Link<K, V>)
    ensures
        -1 <= height(t) < size(t),
    decreases t,
{
    match t {
        None => {},
        Some(n) => {
            lemma_height_below_size(n.left);
            lemma_height_below_size(n.right);
        },
    }
}

/// Recorded height of a subtree; -1 where it is empty.
pub fn height_of<K, V>(t: &Link<K, V>) -> (h: isize)
    requires
        recorded(*t),
    ensures
        h == height(*t),
{
    match t {
        None => -1,
        Some(n) => n.balance,
    }
}

impl<K: TotalKey, V> Node<K, V> {
    /// A leaf.
    pub fn new(key: K, value: V) -> (n: Box<Self>)
        ensures
            *n == (Node { key, value, balance: 0, left: None, right: None }),
    {
        Box::new(Node { key, value, balance: 0, left: None, right: None })
    }

    /// Recomputes the recorded height from the children's.
    pub fn update_height(&mut self)
        requires
            recorded(old(self).left),
            recorded(old(self).right),
            size(old(self).left) + size(old(self).right) < isize::MAX,
        ensures
            final(self).key == old(self).key,
            final(self).value == old(self).value,
            final(self).left == old(self).left,
            final(self).right == old(self).right,
            final(self).balance == 1 + larger(height(old(self).left), height(old(self).right)),
    {
        proof {
            lemma_height_below_size(self.left);
            lemma_height_below_size(self.right);
        }
        let hl: isize = height_of(&self.left);
        let hr: isize = height_of(&self.right);
        self.balance = if hl >= hr { hl + 1 } else { hr + 1 };
    }

    /// Balance factor: height of the left subtree minus that of the right.
    pub fn bal_fct(&self) -> (bf: isize)
        requires
            recorded(self.left),
            recorded(self.right),
            size(self.left) + size(self.right) < isize::MAX,
        ensures
            bf == height(self.left) - height(self.right),
    {
        proof {
            lemma_height_below_size(self.left);
            lemma_height_below_size(self.right);
        }
        height_of(&self.left) - height_of(&self.right)
    }
}

/// The subtree after its left child has been lifted to the root.
pub open spec fn rotated_right<K, V>(t: Link<K, V>) -> Link<K, V>
    recommends
        t is Some,
        t.unwrap().left is Some,
{
    let n = t.unwrap();
    let l = n.left.unwrap();
    let low = Some(
        Box::new(
            Node {
                key: n.key,
                value: n.value,
                balance: (1 + larger(height(l.right), height(n.right))) as isize,
                left: l.right,
                right: n.right,
            },
        ),
    );
    Some(
        Box::new(
            Node {
                key: l.key,
                value: l.value,
                balance: (1 + larger(height(l.left), height(low))) as isize,
                left: l.left,
                right: low,
            },
        ),
    )
}

/// The subtree after its right child has been lifted to the root.
pub open spec fn rotated_left<K, V>(t: Link<K, V>) -> Link<K, V>
    recommends
        t is Some,
        t.unwrap().right is Some,
{
    let n = t.unwrap();
    let r = n.right.unwrap();
    let low = Some(
        Box::new(
            Node {
                key: n.key,
                value: n.value,
                balance: (1 + larger(height(n.left), height(r.left))) as isize,
                left: n.left,
                right: r.left,
            },
        ),
    );
    Some(
        Box::new(
            Node {
                key: r.key,
                value: r.value,
                balance: (1 + larger(height(low), height(r.right))) as isize,
                left: low,
                right: r.right,
            },
        ),
    )
}

/// A right rotation keeps the order, the pairs and the number of nodes.
pub proof fn lemma_rotated_right<K: TotalKey, V>(t: Link<K, V>, lo: Option<K>, hi: Option<K>)
    requires
        t is Some,
        t.unwrap().left is Some,
        ordered(t, lo, hi),
    ensures
        ordered(rotated_right(t), lo, hi),
        entries(rotated_right(t)) == entries(t),
        size(rotated_right(t)) == size(t),
{
    K::order_laws();
    let n = t.unwrap();
    let l = n.left.unwrap();
    let r = rotated_right(t);
    assert(ordered(n.left, lo, Some(n.key)));
    lemma_keys_within(l.left, lo, Some(l.key));
    lemma_keys_within(l.right, Some(l.key), Some(n.key));
    lemma_keys_within(n.right, Some(n.key), hi);
    assert(ordered(r.unwrap().right, Some(l.key), hi));
    assert(entries(r.unwrap().right) == entries(l.right).union_prefer_right(
        entries(n.right),
    ).insert(n.key, n.value));
    assert(entries(n.left) == entries(l.left).union_prefer_right(entries(l.right)).insert(
        l.key,
        l.value,
    ));
    assert(entries(r) =~= entries(t));
    assert(size(r.unwrap().right) == 1 + size(l.right) + size(n.right));
    assert(size(n.left) == 1 + size(l.left) + size(l.right));
}

/// A left rotation keeps the order, the pairs and the number of nodes.
pub proof fn lemma_rotated_left<K: TotalKey, V>(t: Link<K, V>, lo: Option<K>, hi: Option<K>)
    requires
        t is Some,
        t.unwrap().right is Some,
        ordered(t, lo, hi),
    ensures
        ordered(rotated_left(t), lo, hi),
        entries(rotated_left(t)) == entries(t),
        size(rotated_left(t)) == size(t),
{
    K::order_laws();
    let n = t.unwrap();
    let c = n.right.unwrap();
    let r = rotated_left(t);
    assert(ordered(n.right, Some(n.key), hi));
    lemma_keys_within(n.left, lo, Some(n.key));
    lemma_keys_within(c.left, Some(n.key), Some(c.key));
    lemma_keys_within(c.right, Some(c.key), hi);
    assert(ordered(r.unwrap().left, lo, Some(c.key)));
    assert(entries(r.unwrap().left) == entries(n.left).union_prefer_right(
        entries(c.left),
    ).insert(n.key, n.value));
    assert(entries(n.right) == entries(c.left).union_prefer_right(entries(c.right)).insert(
        c.key,
        c.value,
    ));
    assert(entries(r) =~= entries(t));
    assert(size(r.unwrap().left) == 1 + size(n.left) + size(c.left));
    assert(size(n.right) == 1 + size(c.left) + size(c.right));
}

/// Lifts the left child to the root of the subtree.
pub fn rot_right<K: TotalKey, V>(t: &mut Link<K, V>)
    requires
        *old(t) is Some,
        old(t).unwrap().left is Some,
        recorded(old(t).unwrap().left.unwrap().left),
        recorded(old(t).unwrap().left.unwrap().right),
        recorded(old(t).unwrap().right),
        size(*old(t)) <= isize::MAX,
    ensures
        *final(t) == rotated_right(*old(t)),
        recorded(*final(t)),
{
    proof {
        assert(size(*t) == 1 + size(t.unwrap().left) + size(t.unwrap().right));
        assert(size(t.unwrap().left) == 1 + size(t.unwrap().left.unwrap().left) + size(
            t.unwrap().left.unwrap().right,
        ));
    }
    let mut node = t.take().unwrap();
    let mut left = node.left.take().unwrap();
    node.left = left.right.take();
    node.update_height();
    left.right = Some(node);
    proof {
        assert(size(left.right) == 1 + size(left.right.unwrap().left) + size(
            left.right.unwrap().right,
        ));
    }
    assert(recorded(left.right));
    left.update_height();
    *t = Some(left);
}

/// Lifts the right child to the root of the subtree.
pub fn rot_left<K: TotalKey, V>(t: &mut Link<K, V>)
    requires
        *old(t) is Some,
        old(t).unwrap().right is Some,
        recorded(old(t).unwrap().right.unwrap().left),
        recorded(old(t).unwrap().right.unwrap().right),
        recorded(old(t).unwrap().left),
        size(*old(t)) <= isize::MAX,
    ensures
        *final(t) == rotated_left(*old(t)),
        recorded(*final(t)),
{
    proof {
        assert(size(*t) == 1 + size(t.unwrap().left) + size(t.unwrap().right));
        assert(size(t.unwrap().right) == 1 + size(t.unwrap().right.unwrap().left) + size(
            t.unwrap().right.unwrap().right,
        ));
    }
    let mut node = t.take().unwrap();
    let mut right = node.right.take().unwrap();
    node.right = right.left.take();
    node.update_height();
    right.left = Some(node);
    proof {
        assert(size(right.left) == 1 + size(right.left.unwrap().left) + size(
            right.left.unwrap().right,
        ));
    }
    assert(recorded(right.left));
    right.update_height();
    *t = Some(right);
}

/// The subtree with another left child.
pub open spec fn with_left<K, V>(t: Link<K, V>, l: Link<K, V>) -> Link<K, V>
    recommends
        t is Some,
{
    let n = t.unwrap();
    Some(Box::new(Node { key: n.key, value: n.value, balance: n.balance, left: l, right: n.right }))
}

/// The subtree with another right child.
pub open spec fn with_right<K, V>(t: Link<K, V>, r: Link<K, V>) -> Link<K, V>
    recommends
        t is Some,
{
    let n = t.unwrap();
    Some(Box::new(Node { key: n.key, value: n.value, balance: n.balance, left: n.left, right: r }))
}

/// The subtree with the formula's height recorded at its root.
pub open spec fn with_height<K, V>(t: Link<K, V>) -> Link<K, V>
    recommends
        t is Some,
{
    let n = t.unwrap();
    Some(
        Box::new(
            Node {
                key: n.key,
                value: n.value,
                balance: height(t) as isize,
                left: n.left,
                right: n.right,
            },
        ),
    )
}

/// Rotates the left child left, then the subtree right.
pub fn rot_left_right<K: TotalKey, V>(t: &mut Link<K, V>)
    requires
        *old(t) is Some,
        old(t).unwrap().left is Some,
        old(t).unwrap().left.unwrap().right is Some,
        recorded(old(t).unwrap().left),
        recorded(old(t).unwrap().right),
        size(*old(t)) <= isize::MAX,
    ensures
        *final(t) == rotated_right(
            with_left(*old(t), rotated_left(old(t).unwrap().left)),
        ),
        recorded(*final(t)),
{
    proof {
        assert(size(*t) == 1 + size(t.unwrap().left) + size(t.unwrap().right));
        assert(recorded(t.unwrap().left.unwrap().right));
        let ghost ll = rotated_left(t.unwrap().left);
        assert(size(t.unwrap().left) == 1 + size(t.unwrap().left.unwrap().left) + size(
            t.unwrap().left.unwrap().right,
        ));
        assert(size(t.unwrap().left.unwrap().right) == 1 + size(
            t.unwrap().left.unwrap().right.unwrap().left,
        ) + size(t.unwrap().left.unwrap().right.unwrap().right));
        assert(size(ll.unwrap().left) == 1 + size(ll.unwrap().left.unwrap().left) + size(
            ll.unwrap().left.unwrap().right,
        ));
        assert(size(ll) == 1 + size(ll.unwrap().left) + size(ll.unwrap().right));
        assert(size(with_left(*t, ll)) == 1 + size(ll) + size(t.unwrap().right));
    }
    let node = t.as_mut().unwrap();
    rot_left(&mut node.left);
    rot_right(t);
}

/// Rotates the right child right, then the subtree left.
pub fn rot_right_left<K: TotalKey, V>(t: &mut Link<K, V>)
    requires
        *old(t) is Some,
        old(t).unwrap().right is Some,
        old(t).unwrap().right.unwrap().left is Some,
        recorded(old(t).unwrap().left),
        recorded(old(t).unwrap().right),
        size(*old(t)) <= isize::MAX,
    ensures
        *final(t) == rotated_left(
            with_right(*old(t), rotated_right(old(t).unwrap().right)),
        ),
        recorded(*final(t)),
{
    proof {
        assert(size(*t) == 1 + size(t.unwrap().left) + size(t.unwrap().right));
        assert(recorded(t.unwrap().right.unwrap().left));
        let ghost rr = rotated_right(t.unwrap().right);
        assert(size(t.unwrap().right) == 1 + size(t.unwrap().right.unwrap().left) + size(
            t.unwrap().right.unwrap().right,
        ));
        assert(size(t.unwrap().right.unwrap().left) == 1 + size(
            t.unwrap().right.unwrap().left.unwrap().left,
        ) + size(t.unwrap().right.unwrap().left.unwrap().right));
        assert(size(rr.unwrap().right) == 1 + size(rr.unwrap().right.unwrap().left) + size(
            rr.unwrap().right.unwrap().right,
        ));
        assert(size(rr) == 1 + size(rr.unwrap().left) + size(rr.unwrap().right));
        assert(size(with_right(*t, rr)) == 1 + size(t.unwrap().left) + size(rr));
    }
    let node = t.as_mut().unwrap();
    rot_right(&mut node.right);
    rot_left(t);
}

/// Restores the balance of a subtree whose children are balanced and whose
/// heights differ by at most two, and records its height.
pub fn rebalance<K: TotalKey, V>(
    t: &mut Link<K, V>,
    Ghost(lo): Ghost<Option<K>>,
    Ghost(hi): Ghost<Option<K>>,
)
    requires
        *old(t) is Some,
        recorded(old(t).unwrap().left),
        recorded(old(t).unwrap().right),
        balanced(old(t).unwrap().left),
        balanced(old(t).unwrap().right),
        -2 <= height(old(t).unwrap().left) - height(old(t).unwrap().right) <= 2,
        ordered(*old(t), lo, hi),
        size(*old(t)) <= isize::MAX,
    ensures
        recorded(*final(t)),
        balanced(*final(t)),
        ordered(*final(t), lo, hi),
        entries(*final(t)) == entries(*old(t)),
        size(*final(t)) == size(*old(t)),
        height(*old(t)) - 1 <= height(*final(t)) <= height(*old(t)),
        -1 <= height(old(t).unwrap().left) - height(old(t).unwrap().right) <= 1 ==> *final(t)
            == with_height(*old(t)),
{
    proof {
        K::order_laws();
    }
    let ghost before = *t;
    proof {
        assert(size(*t) == 1 + size(t.unwrap().left) + size(t.unwrap().right));
        lemma_height_below_size(t.unwrap().left);
        lemma_height_below_size(t.unwrap().right);
    }
    let bf: isize = t.as_ref().unwrap().bal_fct();
    if bf > 1 {
        let ghost l = before.unwrap().left;
        proof {
            assert(height(l) == 1 + larger(height(l.unwrap().left), height(l.unwrap().right)));
            assert(size(l) == 1 + size(l.unwrap().left) + size(l.unwrap().right));
            assert(ordered(l, lo, Some(before.unwrap().key)));
        }
        let lbf: isize = t.as_ref().unwrap().left.as_ref().unwrap().bal_fct();
        if lbf >= 0 {
            rot_right(t);
            proof {
                lemma_rotated_right(before, lo, hi);
                assert(balanced(t.unwrap().right));
            }
        } else {
            let ghost lr = l.unwrap().right;
            proof {
                assert(height(lr) == 1 + larger(
                    height(lr.unwrap().left),
                    height(lr.unwrap().right),
                ));
                lemma_height_below_size(lr.unwrap().left);
                lemma_height_below_size(lr.unwrap().right);
                lemma_height_below_size(l.unwrap().left);
                lemma_height_below_size(before.unwrap().right);
                lemma_rotated_left(l, lo, Some(before.unwrap().key));
                lemma_rotated_right(with_left(before, rotated_left(l)), lo, hi);
                assert(entries(with_left(before, rotated_left(l))) == entries(before));
                assert(size(with_left(before, rotated_left(l))) == size(before));
            }
            rot_left_right(t);
            proof {
                assert(balanced(lr));
                assert(balanced(t.unwrap().left));
                assert(balanced(t.unwrap().right));
                assert(height(t.unwrap().left) == 1 + larger(
                    height(l.unwrap().left),
                    height(lr.unwrap().left),
                ));
                assert(height(t.unwrap().right) == 1 + larger(
                    height(lr.unwrap().right),
                    height(before.unwrap().right),
                ));
            }
        }
    } else if bf < -1 {
        let ghost r = before.unwrap().right;
        proof {
            assert(height(r) == 1 + larger(height(r.unwrap().left), height(r.unwrap().right)));
            assert(size(r) == 1 + size(r.unwrap().left) + size(r.unwrap().right));
            assert(ordered(r, Some(before.unwrap().key), hi));
        }
        let rbf: isize = t.as_ref().unwrap().right.as_ref().unwrap().bal_fct();
        if rbf <= 0 {
            rot_left(t);
            proof {
                lemma_rotated_left(before, lo, hi);
                assert(balanced(t.unwrap().left));
            }
        } else {
            let ghost rl = r.unwrap().left;
            proof {
                assert(height(rl) == 1 + larger(
                    height(rl.unwrap().left),
                    height(rl.unwrap().right),
                ));
                lemma_height_below_size(rl.unwrap().left);
                lemma_height_below_size(rl.unwrap().right);
                lemma_height_below_size(r.unwrap().right);
                lemma_height_below_size(before.unwrap().left);
                lemma_rotated_right(r, Some(before.unwrap().key), hi);
                lemma_rotated_left(with_right(before, rotated_right(r)), lo, hi);
                assert(entries(with_right(before, rotated_right(r))) == entries(before));
                assert(size(with_right(before, rotated_right(r))) == size(before));
            }
            rot_right_left(t);
            proof {
                assert(balanced(rl));
                assert(balanced(t.unwrap().left));
                assert(balanced(t.unwrap().right));
                assert(height(t.unwrap().left) == 1 + larger(
                    height(before.unwrap().left),
                    height(rl.unwrap().left),
                ));
                assert(height(t.unwrap().right) == 1 + larger(
                    height(rl.unwrap().right),
                    height(r.unwrap().right),
                ));
            }
        }
    }
    let ghost shaped = *t;
    proof {
        assert(size(*t) == 1 + size(t.unwrap().left) + size(t.unwrap().right));
        lemma_height_below_size(*t);
    }
    t.as_mut().unwrap().update_height();
    proof {
        assert(t.unwrap().left == shaped.unwrap().left);
        assert(t.unwrap().right == shaped.unwrap().right);
        assert(height(*t) == height(shaped));
        assert(entries(*t) == entries(shaped));
        assert(size(*t) == size(shaped));
    }
}

/// Puts `key` with `value` into the subtree and rebalances the path to it.
/// Returns the value that the key had before.
pub fn insert<K: TotalKey, V>(
    t: &mut Link<K, V>,
    key: K,
    value: V,
    Ghost(lo): Ghost<Option<K>>,
    Ghost(hi): Ghost<Option<K>>,
) -> (prior: Option<V>)
    requires
        ordered(*old(t), lo, hi),
        above(lo, key),
        below(key, hi),
        recorded(*old(t)),
        balanced(*old(t)),
        size(*old(t)) < isize::MAX,
    ensures
        ordered(*final(t), lo, hi),
        recorded(*final(t)),
        balanced(*final(t)),
        entries(*final(t)) == entries(*old(t)).insert(key, value),
        prior == (if entries(*old(t)).contains_key(key) {
            Some(entries(*old(t))[key])
        } else {
            None
        }),
        size(*final(t)) == size(*old(t)) + (if prior is None {
            1nat
        } else {
            0nat
        }),
        height(*old(t)) <= height(*final(t)) <= height(*old(t)) + 1,
    decreases size(*old(t)),
{
    proof {
        K::order_laws();
    }
    let ghost before = *t;
    match t {
        None => {
            *t = Some(Node::new(key, value));
            proof {
                assert(entries(*t) =~= entries(before).insert(key, value));
                assert(size(*t) == 1 + size(t.unwrap().left) + size(t.unwrap().right));
                assert(height(*t) == 1 + larger(height(t.unwrap().left), height(t.unwrap().right)));
                assert(ordered(t.unwrap().left, lo, Some(key)));
                assert(ordered(t.unwrap().right, Some(key), hi));
                assert(recorded(t.unwrap().left) && recorded(t.unwrap().right));
                assert(balanced(t.unwrap().left) && balanced(t.unwrap().right));
            }
            None
        },
        Some(node) => {
            proof {
                assert(size(before) == 1 + size(node.left) + size(node.right));
                assert(height(before) == 1 + larger(height(node.left), height(node.right)));
                lemma_keys_within(node.left, lo, Some(node.key));
                lemma_keys_within(node.right, Some(node.key), hi);
            }
            let prior = match key.compare(&node.key) {
                Rel::Equal => {
                    let mut held = value;
                    std::mem::swap(&mut node.value, &mut held);
                    Some(held)
                },
                Rel::Greater => insert(
                    &mut node.right,
                    key,
                    value,
                    Ghost(Some(node.key)),
                    Ghost(hi),
                ),
                Rel::Less => insert(
                    &mut node.left,
                    key,
                    value,
                    Ghost(lo),
                    Ghost(Some(node.key)),
                ),
            };
            proof {
                lemma_entries_at_root(before);
                lemma_entries_at_root(*t);
                assert(entries(*t) =~= entries(before).insert(key, value));
                assert(size(*t) == 1 + size(t.unwrap().left) + size(t.unwrap().right));
            }
            rebalance(t, Ghost(lo), Ghost(hi));
            prior
        },
    }
}

/// Detaches the node with the least key.
pub fn pop_min_node<K: TotalKey, V>(
    t: &mut Link<K, V>,
    Ghost(lo): Ghost<Option<K>>,
    Ghost(hi): Ghost<Option<K>>,
) -> (least: Box<Node<K, V>>)
    requires
        *old(t) is Some,
        ordered(*old(t), lo, hi),
        recorded(*old(t)),
        balanced(*old(t)),
        size(*old(t)) <= isize::MAX,
    ensures
        entries(*old(t)).contains_pair(least.key, least.value),
        entries(*final(t)) == entries(*old(t)).remove(least.key),
        above(lo, least.key),
        below(least.key, hi),
        ordered(*final(t), Some(least.key), hi),
        recorded(*final(t)),
        balanced(*final(t)),
        size(*final(t)) == size(*old(t)) - 1,
        height(*old(t)) - 1 <= height(*final(t)) <= height(*old(t)),
        least.left is None,
        least.right is None,
    decreases size(*old(t)),
{
    proof {
        K::order_laws();
    }
    let ghost before = *t;
    proof {
        assert(size(before) == 1 + size(before.unwrap().left) + size(before.unwrap().right));
        assert(height(before) == 1 + larger(
            height(before.unwrap().left),
            height(before.unwrap().right),
        ));
        lemma_entries_at_root(before);
        lemma_keys_within(before.unwrap().left, lo, Some(before.unwrap().key));
        lemma_keys_within(before.unwrap().right, Some(before.unwrap().key), hi);
        lemma_height_below_size(before.unwrap().right);
    }
    if t.as_ref().unwrap().left.is_none() {
        let mut node = t.take().unwrap();
        *t = node.right.take();
        proof {
            assert(entries(*t) =~= entries(before).remove(node.key));
        }
        node
    } else {
        let node = t.as_mut().unwrap();
        let least = pop_min_node(&mut node.left, Ghost(lo), Ghost(Some(node.key)));
        proof {
            lemma_entries_at_root(*t);
            assert(entries(*t) =~= entries(before).remove(least.key));
            assert(size(*t) == 1 + size(t.unwrap().left) + size(t.unwrap().right));
        }
        rebalance(t, Ghost(Some(least.key)), Ghost(hi));
        least
    }
}

/// Detaches the node that holds `key`, if there is one, and rebalances the
/// path to it. Without such a node the subtree stays as it is.
pub fn remove_node<K: TotalKey, V>(
    t: &mut Link<K, V>,
    key: &K,
    Ghost(lo): Ghost<Option<K>>,
    Ghost(hi): Ghost<Option<K>>,
) -> (removal: Option<Box<Node<K, V>>>)
    requires
        ordered(*old(t), lo, hi),
        recorded(*old(t)),
        balanced(*old(t)),
        size(*old(t)) <= isize::MAX,
    ensures
        ordered(*final(t), lo, hi),
        recorded(*final(t)),
        balanced(*final(t)),
        entries(*final(t)) == entries(*old(t)).remove(*key),
        match removal {
            Some(node) => node.key == *key && entries(*old(t)).contains_pair(*key, node.value),
            None => !entries(*old(t)).contains_key(*key) && *final(t) == *old(t),
        },
        size(*final(t)) == size(*old(t)) - (if removal is Some {
            1nat
        } else {
            0nat
        }),
        height(*old(t)) - 1 <= height(*final(t)) <= height(*old(t)),
    decreases size(*old(t)),
{
    proof {
        K::order_laws();
    }
    let ghost before = *t;
    match t {
        None => {
            proof {
                assert(entries(*t) =~= entries(before).remove(*key));
            }
            None
        },
        Some(node) => {
            proof {
                assert(size(before) == 1 + size(node.left) + size(node.right));
                assert(height(before) == 1 + larger(height(node.left), height(node.right)));
                lemma_entries_at_root(before);
                lemma_keys_within(node.left, lo, Some(node.key));
                lemma_keys_within(node.right, Some(node.key), hi);
                lemma_height_below_size(node.left);
            }
            match node.key.compare(key) {
                Rel::Less => {
                    let removal = remove_node(
                        &mut node.right,
                        key,
                        Ghost(Some(node.key)),
                        Ghost(hi),
                    );
                    proof {
                        lemma_entries_at_root(*t);
                        assert(entries(*t) =~= entries(before).remove(*key));
                        assert(size(*t) == 1 + size(t.unwrap().left) + size(t.unwrap().right));
                    }
                    rebalance(t, Ghost(lo), Ghost(hi));
                    removal
                },
                Rel::Greater => {
                    let removal = remove_node(
                        &mut node.left,
                        key,
                        Ghost(lo),
                        Ghost(Some(node.key)),
                    );
                    proof {
                        lemma_entries_at_root(*t);
                        assert(entries(*t) =~= entries(before).remove(*key));
                        assert(size(*t) == 1 + size(t.unwrap().left) + size(t.unwrap().right));
                    }
                    rebalance(t, Ghost(lo), Ghost(hi));
                    removal
                },
                Rel::Equal => {
                    if node.right.is_some() {
                        let mut successor = pop_min_node(
                            &mut node.right,
                            Ghost(Some(node.key)),
                            Ghost(hi),
                        );
                        node.swap_successor(&mut successor);
                        proof {
                            lemma_widen(
                                node.left,
                                lo,
                                Some(before.unwrap().key),
                                lo,
                                Some(node.key),
                            );
                            lemma_entries_at_root(*t);
                            assert(entries(*t) =~= entries(before).remove(*key));
                            assert(size(*t) == 1 + size(t.unwrap().left) + size(
                                t.unwrap().right,
                            ));
                        }
                        rebalance(t, Ghost(lo), Ghost(hi));
                        Some(successor)
                    } else {
                        let mut found = t.take().unwrap();
                        *t = found.left.take();
                        proof {
                            lemma_widen(*t, lo, Some(found.key), lo, hi);
                            assert(entries(*t) =~= entries(before).remove(*key));
                        }
                        Some(found)
                    }
                },
            }
        },
    }
}

/// The least number of nodes that a balanced tree of the given height can
/// have: 0, 1, 2, 4, 7, 12 and so on.
pub open spec fn least_size(h: int) -> nat
    decreases h,
{
    if h < 0 {
        0
    } else if h == 0 {
        1
    } else if h == 1 {
        2
    } else {
        1 + least_size(h - 1) + least_size(h - 2)
    }
}

/// A taller balanced tree needs no fewer nodes, and two more levels need
/// more than twice as many.
pub proof fn lemma_least_size_grows(h: int)
    ensures
        least_size(h - 1) <= least_size(h),
        h >= 1 ==> least_size(h) > 2 * least_size(h - 2),
    decreases h,
{
    if h >= 1 {
        lemma_least_size_grows(h - 1);
    }
}

/// A balanced tree is shallow: it has at least the least number of nodes for
/// its height, which more than doubles with every two levels.
pub proof fn lemma_balanced_is_shallow<K, V>(t: Link<K, V>)
    requires
        balanced(t),
    ensures
        size(t) >= least_size(height(t)),
    decreases t,
{
    match t {
        None => {},
        Some(n) => {
            lemma_balanced_is_shallow(n.left);
            lemma_balanced_is_shallow(n.right);
            lemma_height_below_size(n.left);
            lemma_height_below_size(n.right);
            let h = height(t);
            lemma_least_size_grows(h - 1);
            if height(n.left) >= height(n.right) {
                assert(height(n.left) == h - 1);
                if height(n.right) == h - 1 {
                    assert(least_size(h - 2) <= least_size(h - 1));
                }
            } else {
                assert(height(n.right) == h - 1);
                assert(height(n.left) == h - 2);
            }
        },
    }
}

} // verus!
