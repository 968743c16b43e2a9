use crate::order::{above, below, Rel, TotalKey};
use crate::tree::{
    entries, lemma_entries_at_root, lemma_keys_within, lemma_widen, ordered, size,
};
use vstd::prelude::*;

verus! {

/// Colour of the link from a node's parent to the node.
#[derive(Clone, Copy, Debug, PartialEq, Eq, Structural)]
pub enum Color {
    Red,
    Black,
}

/// Storage unit of the left-leaning red-black tree: the balance it records
/// is the colour of the link from its parent.
pub type Node<K, V> = crate::tree::Node<K, V, Color>;

/// A child slot: absent, or an exclusively owned subtree.
pub type Link<K, V> = crate::tree::Link<K, V, Color>;

impl Color {
    /// The other colour.
    pub open spec fn reversed(self) -> Color {
        match self {
            Color::Red => Color::Black,
            Color::Black => Color::Red,
        }
    }

    pub fn is_red(&self) -> (red: bool)
        ensures
            red == (*self == Color::Red),
    {
        match self {
            Color::Red => true,
            Color::Black => false,
        }
    }

    /// Turns the colour into the other one.
    pub fn rev(&mut self)
        ensures
            *final(self) == old(self).reversed(),
    {
        match self {
            Color::Red => *self = Color::Black,
            Color::Black => *self = Color::Red,
        };
    }

    /// Sets the colour and returns the one it had.
    pub fn replce(&mut self, src: Color) -> (prior: Color)
        ensures
            *final(self) == src,
            prior == *old(self),
    {
        let prior = *self;
        *self = src;
        prior
    }
}

/// The left child of a subtree's root.
pub open spec fn left_of<K, V>(t: Link<K, V>) -> Link<K, V> {
    match t {
        None => None,
        Some(n) => n.left,
    }
}

/// The right child of a subtree's root.
pub open spec fn right_of<K, V>(t: Link<K, V>) -> Link<K, V> {
    match t {
        None => None,
        Some(n) => n.right,
    }
}

/// The link to the subtree is red. The link to an empty subtree is black.
pub open spec fn red<K, V>(t: Link<K, V>) -> bool {
    match t {
        None => false,
        Some(n) => n.balance == Color::Red,
    }
}

/// Number of black links on the leftmost path, the link to the root included.
pub open spec fn black_height<K, V>(t: Link<K, V>) -> int
    decreases t,
{
    match t {
        None => 0,
        Some(n) => black_height(n.left) + (if n.balance == Color::Black {
            1int
        } else {
            0int
        }),
    }
}

/// The colour discipline: at every node the two subtrees have the same black
/// height, so that every path from the root to an empty slot crosses the same
/// number of black links; no red link leans right; no red link follows a red
/// link. The link to the root may be red.
pub open spec fn llrb<K, V>(t: Link<K, V>) -> bool
    decreases t,
{
    match t {
        None => true,
        Some(n) => {
            &&& llrb(n.left)
            &&& llrb(n.right)
            &&& black_height(n.left) == black_height(n.right)
            &&& !red(n.right)
            &&& (n.balance == Color::Red ==> !red(n.left))
        },
    }
}

/// The discipline but for one thing: a red root may have a red left child.
pub open spec fn near<K, V>(t: Link<K, V>) -> bool {
    match t {
        None => true,
        Some(n) => {
            &&& llrb(n.left)
            &&& llrb(n.right)
            &&& black_height(n.left) == black_height(n.right)
            &&& !red(n.right)
        },
    }
}

/// A subtree from which a node can be taken without loss of black height: it
/// keeps the discipline, and its root or the root's left child is red.
pub open spec fn ready<K, V>(t: Link<K, V>) -> bool {
    t is Some && llrb(t) && (red(t) || red(left_of(t)))
}

/// A black root with a red right child and a left child that is not red,
/// both children keeping the discipline at equal black heights.
pub open spec fn tilted<K, V>(t: Link<K, V>) -> bool {
    &&& t is Some
    &&& !red(t)
    &&& !red(left_of(t))
    &&& red(right_of(t))
    &&& llrb(left_of(t))
    &&& llrb(right_of(t))
    &&& black_height(left_of(t)) == black_height(right_of(t))
}

/// The subtree with the colour of its root reversed.
pub open spec fn recolored<K, V>(t: Link<K, V>) -> Link<K, V> {
    match t {
        None => None,
        Some(n) => Some(
            Box::new(
                Node {
                    key: n.key,
                    value: n.value,
                    balance: n.balance.reversed(),
                    left: n.left,
                    right: n.right,
                },
            ),
        ),
    }
}

/// The subtree with the colours of its root and of both children reversed.
pub open spec fn flipped<K, V>(t: Link<K, V>) -> Link<K, V> {
    match t {
        None => None,
        Some(n) => Some(
            Box::new(
                Node {
                    key: n.key,
                    value: n.value,
                    balance: n.balance.reversed(),
                    left: recolored(n.left),
                    right: recolored(n.right),
                },
            ),
        ),
    }
}

/// The subtree after its right child has been lifted to the root: the new
/// root takes the colour of the old one, which turns red.
pub open spec fn rotated_left<K, V>(t: Link<K, V>) -> Link<K, V>
    recommends
        t is Some,
        right_of(t) is Some,
{
    let n = t.unwrap();
    let r = n.right.unwrap();
    Some(
        Box::new(
            Node {
                key: r.key,
                value: r.value,
                balance: n.balance,
                left: Some(
                    Box::new(
                        Node {
                            key: n.key,
                            value: n.value,
                            balance: Color::Red,
                            left: n.left,
                            right: r.left,
                        },
                    ),
                ),
                right: r.right,
            },
        ),
    )
}

/// The subtree after its left child has been lifted to the root: the new
/// root takes the colour of the old one, which turns red.
pub open spec fn rotated_right<K, V>(t: Link<K, V>) -> Link<K, V>
    recommends
        t is Some,
        left_of(t) is Some,
{
    let n = t.unwrap();
    let l = n.left.unwrap();
    Some(
        Box::new(
            Node {
                key: l.key,
                value: l.value,
                balance: n.balance,
                left: l.left,
                right: Some(
                    Box::new(
                        Node {
                            key: n.key,
                            value: n.value,
                            balance: Color::Red,
                            left: l.right,
                            right: n.right,
                        },
                    ),
                ),
            },
        ),
    )
}

/// The subtree with another right child.
pub open spec fn with_right<K, V>(t: Link<K, V>, r: Link<K, V>) -> Link<K, V>
    recommends
        t is Some,
{
    let n = t.unwrap();
    Some(Box::new(Node { key: n.key, value: n.value, balance: n.balance, left: n.left, right: r }))
}

/// First step of mending: a red link that leans right alone is turned left.
pub open spec fn lean_left<K, V>(t: Link<K, V>) -> Link<K, V> {
    if red(right_of(t)) && !red(left_of(t)) {
        rotated_left(t)
    } else {
        t
    }
}

/// Second step of mending: two red links in a row on the left are balanced.
pub open spec fn split_left<K, V>(t: Link<K, V>) -> Link<K, V> {
    if red(left_of(t)) && red(left_of(left_of(t))) {
        rotated_right(t)
    } else {
        t
    }
}

/// Third step of mending: two red children hand their colour to the root.
pub open spec fn push_up<K, V>(t: Link<K, V>) -> Link<K, V> {
    if red(left_of(t)) && red(right_of(t)) {
        flipped(t)
    } else {
        t
    }
}

/// The subtree after the three steps of mending.
pub open spec fn rebalanced<K, V>(t: Link<K, V>) -> Link<K, V> {
    push_up(split_left(lean_left(t)))
}

/// The subtree after red has been moved into its left child.
pub open spec fn restructured_left<K, V>(t: Link<K, V>) -> Link<K, V> {
    let a = flipped(t);
    if red(left_of(right_of(a))) {
        flipped(rotated_left(with_right(a, rotated_right(right_of(a)))))
    } else {
        a
    }
}

/// The subtree after red has been moved into its right child.
pub open spec fn restructured_right<K, V>(t: Link<K, V>) -> Link<K, V> {
    let a = flipped(t);
    if red(left_of(left_of(a))) {
        flipped(rotated_right(a))
    } else {
        a
    }
}

/// The discipline implies what is left of it when the root is set aside.
pub proof fn lemma_llrb_is_near<K, V>(t: Link<K, V>)
    requires
        llrb(t),
    ensures
        near(t),
{
}

pub proof fn lemma_black_height_nonneg<K, V>(t: Link<K, V>)
    ensures
        black_height(t) >= 0,
    decreases t,
{
    match t {
        None => {},
        Some(n) => {
            lemma_black_height_nonneg(n.left);
        },
    }
}

/// Reversing the root's colour keeps the order, the pairs and the size.
pub proof fn lemma_recolored_keeps<K: TotalKey, V>(t: Link<K, V>, lo: Option<K>, hi: Option<K>)
    requires
        ordered(t, lo, hi),
    ensures
        ordered(recolored(t), lo, hi),
        entries(recolored(t)) == entries(t),
        size(recolored(t)) == size(t),
{
    K::order_laws();
}

/// A colour flip keeps the order, the pairs and the size.
pub proof fn lemma_flipped_keeps<K: TotalKey, V>(t: Link<K, V>, lo: Option<K>, hi: Option<K>)
    requires
        ordered(t, lo, hi),
    ensures
        ordered(flipped(t), lo, hi),
        entries(flipped(t)) == entries(t),
        size(flipped(t)) == size(t),
{
    K::order_laws();
    match t {
        None => {},
        Some(n) => {
            lemma_recolored_keeps(n.left, lo, Some(n.key));
            lemma_recolored_keeps(n.right, Some(n.key), hi);
        },
    }
}

/// A right rotation keeps the order, the pairs and the size.
pub proof fn lemma_rotated_right_keeps<K: TotalKey, V>(
    t: Link<K, V>,
    lo: Option<K>,
    hi: Option<K>,
)
    requires
        t is Some,
        t.unwrap().left is Some,
        ordered(t, lo, hi),
    ensures
        ordered(rotated_right(t), lo, hi),
        entries(rotated_right(t)) == entries(t),
        size(rotated_right(t)) == size(t),
{
    K::order_laws();
    let n = t.unwrap();
    let l = n.left.unwrap();
    let r = rotated_right(t);
    assert(ordered(n.left, lo, Some(n.key)));
    lemma_keys_within(l.left, lo, Some(l.key));
    lemma_keys_within(l.right, Some(l.key), Some(n.key));
    lemma_keys_within(n.right, Some(n.key), hi);
    assert(ordered(r.unwrap().right, Some(l.key), hi));
    assert(entries(r.unwrap().right) == entries(l.right).union_prefer_right(
        entries(n.right),
    ).insert(n.key, n.value));
    assert(entries(n.left) == entries(l.left).union_prefer_right(entries(l.right)).insert(
        l.key,
        l.value,
    ));
    assert(entries(r) =~= entries(t));
    assert(size(r.unwrap().right) == 1 + size(l.right) + size(n.right));
    assert(size(n.left) == 1 + size(l.left) + size(l.right));
}

/// A left rotation keeps the order, the pairs and the size.
pub proof fn lemma_rotated_left_keeps<K: TotalKey, V>(
    t: Link<K, V>,
    lo: Option<K>,
    hi: Option<K>,
)
    requires
        t is Some,
        t.unwrap().right is Some,
        ordered(t, lo, hi),
    ensures
        ordered(rotated_left(t), lo, hi),
        entries(rotated_left(t)) == entries(t),
        size(rotated_left(t)) == size(t),
{
    K::order_laws();
    let n = t.unwrap();
    let c = n.right.unwrap();
    let r = rotated_left(t);
    assert(ordered(n.right, Some(n.key), hi));
    lemma_keys_within(n.left, lo, Some(n.key));
    lemma_keys_within(c.left, Some(n.key), Some(c.key));
    lemma_keys_within(c.right, Some(c.key), hi);
    assert(ordered(r.unwrap().left, lo, Some(c.key)));
    assert(entries(r.unwrap().left) == entries(n.left).union_prefer_right(
        entries(c.left),
    ).insert(n.key, n.value));
    assert(entries(n.right) == entries(c.left).union_prefer_right(entries(c.right)).insert(
        c.key,
        c.value,
    ));
    assert(entries(r) =~= entries(t));
    assert(size(r.unwrap().left) == 1 + size(n.left) + size(c.left));
    assert(size(n.right) == 1 + size(c.left) + size(c.right));
}

/// Mending keeps the order, the pairs and the size.
pub proof fn lemma_rebalanced_keeps<K: TotalKey, V>(
    t: Link<K, V>,
    lo: Option<K>,
    hi: Option<K>,
)
    requires
        t is Some,
        ordered(t, lo, hi),
    ensures
        rebalanced(t) is Some,
        ordered(rebalanced(t), lo, hi),
        entries(rebalanced(t)) == entries(t),
        size(rebalanced(t)) == size(t),
{
    K::order_laws();
    let a = lean_left(t);
    if red(right_of(t)) && !red(left_of(t)) {
        lemma_rotated_left_keeps(t, lo, hi);
    }
    let b = split_left(a);
    if red(left_of(a)) && red(left_of(left_of(a))) {
        lemma_rotated_right_keeps(a, lo, hi);
    }
    lemma_flipped_keeps(b, lo, hi);
}

/// Moving red to the left keeps the order, the pairs and the size, and puts
/// no smaller key at the root.
pub proof fn lemma_restructured_left_keeps<K: TotalKey, V>(
    t: Link<K, V>,
    lo: Option<K>,
    hi: Option<K>,
)
    requires
        t is Some,
        ordered(t, lo, hi),
    ensures
        restructured_left(t) is Some,
        ordered(restructured_left(t), lo, hi),
        entries(restructured_left(t)) == entries(t),
        size(restructured_left(t)) == size(t),
        !restructured_left(t).unwrap().key.before(&t.unwrap().key),
{
    K::order_laws();
    let a = flipped(t);
    lemma_flipped_keeps(t, lo, hi);
    if red(left_of(right_of(a))) {
        let k = a.unwrap().key;
        let r = rotated_right(right_of(a));
        lemma_rotated_right_keeps(right_of(a), Some(k), hi);
        let b = with_right(a, r);
        assert(ordered(b, lo, hi));
        assert(entries(b) == entries(a));
        assert(size(b) == size(a));
        lemma_rotated_left_keeps(b, lo, hi);
        lemma_flipped_keeps(rotated_left(b), lo, hi);
    }
}

/// Moving red to the right keeps the order, the pairs and the size, and puts
/// no larger key at the root.
pub proof fn lemma_restructured_right_keeps<K: TotalKey, V>(
    t: Link<K, V>,
    lo: Option<K>,
    hi: Option<K>,
)
    requires
        t is Some,
        ordered(t, lo, hi),
    ensures
        restructured_right(t) is Some,
        ordered(restructured_right(t), lo, hi),
        entries(restructured_right(t)) == entries(t),
        size(restructured_right(t)) == size(t),
        !t.unwrap().key.before(&restructured_right(t).unwrap().key),
{
    K::order_laws();
    let a = flipped(t);
    lemma_flipped_keeps(t, lo, hi);
    if red(left_of(left_of(a))) {
        assert(ordered(left_of(a), lo, Some(a.unwrap().key)));
        lemma_rotated_right_keeps(a, lo, hi);
        lemma_flipped_keeps(rotated_right(a), lo, hi);
    }
}

/// Mending restores the discipline below a root whose children keep it, but
/// for two red links in a row on the left or a red link on the right.
pub proof fn lemma_rebalanced_mends<K, V>(t: Link<K, V>)
    requires
        t is Some,
        near(left_of(t)),
        llrb(right_of(t)),
        black_height(left_of(t)) == black_height(right_of(t)),
        llrb(left_of(t)) || !red(right_of(t)),
        red(t) ==> llrb(left_of(t)) && !(red(left_of(t)) && red(right_of(t))),
    ensures
        near(rebalanced(t)),
        black_height(rebalanced(t)) == black_height(t),
        !red(t) ==> llrb(rebalanced(t)),
        !red(right_of(t)) && llrb(left_of(t)) ==> rebalanced(t) == t,
        !red(t) && !red(left_of(t)) ==> !red(rebalanced(t)),
{
    reveal_with_fuel(llrb, 3);
    reveal_with_fuel(black_height, 3);
}

/// Moving red to the left of a red root whose left child and left
/// grandchild are black leaves a left child from which a node can be taken.
pub proof fn lemma_restructured_left_colors<K, V>(t: Link<K, V>)
    requires
        llrb(t),
        red(t),
        left_of(t) is Some,
        !red(left_of(left_of(t))),
    ensures
        ready(left_of(restructured_left(t))),
        llrb(right_of(restructured_left(t))),
        black_height(left_of(restructured_left(t))) == black_height(
            right_of(restructured_left(t)),
        ),
        black_height(restructured_left(t)) == black_height(t),
        ({
            let u = restructured_left(t);
            ||| !red(u) && red(left_of(u)) && red(right_of(u))
            ||| red(u) && !red(left_of(u)) && !red(right_of(u))
        }),
{
    reveal_with_fuel(llrb, 4);
    reveal_with_fuel(black_height, 4);
    lemma_black_height_nonneg(left_of(left_of(t)));
    lemma_black_height_nonneg(right_of(t));
}

/// Moving red to the right of a red root whose right child and its left
/// child are black leaves a right child from which a node can be taken.
pub proof fn lemma_restructured_right_colors<K, V>(t: Link<K, V>)
    requires
        llrb(t),
        red(t),
        right_of(t) is Some,
        !red(left_of(right_of(t))),
    ensures
        llrb(left_of(restructured_right(t))),
        black_height(left_of(restructured_right(t))) == black_height(
            right_of(restructured_right(t)),
        ),
        black_height(restructured_right(t)) == black_height(t),
        ({
            let u = restructured_right(t);
            ||| !red(u) && red(left_of(u)) && ready(right_of(u)) && red(right_of(u))
                && u.unwrap().key == t.unwrap().key
            ||| red(u) && !red(left_of(u)) && tilted(right_of(u)) && right_of(u).unwrap().key
                == t.unwrap().key
        }),
{
    reveal_with_fuel(llrb, 4);
    reveal_with_fuel(black_height, 4);
    lemma_black_height_nonneg(left_of(right_of(t)));
    lemma_black_height_nonneg(left_of(t));
    lemma_black_height_nonneg(left_of(left_of(t)));
}

impl<K: TotalKey, V> Node<K, V> {
    /// A leaf.
    pub fn new(key: K, value: V, color: Color) -> (n: Box<Self>)
        ensures
            *n == (Node { key, value, balance: color, left: None, right: None }),
    {
        Box::new(Node { balance: color, key, value, left: None, right: None })
    }

    /// Whether the link to a subtree is red.
    pub fn is_red(opt_node: &Link<K, V>) -> (r: bool)
        ensures
            r == red(*opt_node),
    {
        match opt_node {
            None => false,
            Some(node) => node.balance.is_red(),
        }
    }

    pub fn red_right(&self) -> (r: bool)
        ensures
            r == red(self.right),
    {
        Self::is_red(&self.right)
    }

    pub fn red_left(&self) -> (r: bool)
        ensures
            r == red(self.left),
    {
        Self::is_red(&self.left)
    }

    /// Whether the left child and its left child are both red.
    pub fn red_double_left(&self) -> (r: bool)
        ensures
            r == (red(self.left) && red(left_of(self.left))),
    {
        match &self.left {
            None => false,
            Some(left) => left.balance.is_red() && left.red_left(),
        }
    }

    pub fn red_left_of_right(&self) -> (r: bool)
        ensures
            r == red(left_of(self.right)),
    {
        match &self.right {
            None => false,
            Some(right) => right.red_left(),
        }
    }

    pub fn red_left_of_left(&self) -> (r: bool)
        ensures
            r == red(left_of(self.left)),
    {
        match &self.left {
            None => false,
            Some(left) => left.red_left(),
        }
    }

    /// Makes the link to the node black.
    pub fn blacken(&mut self)
        ensures
            final(self).balance == Color::Black,
            final(self).key == old(self).key,
            final(self).value == old(self).value,
            final(self).left == old(self).left,
            final(self).right == old(self).right,
    {
        self.balance = Color::Black;
    }

}

/// Lifts the right child to the root of the subtree.
pub fn rot_left<K: TotalKey, V>(t: &mut Link<K, V>)
    requires
        *old(t) is Some,
        right_of(*old(t)) is Some,
    ensures
        *final(t) == rotated_left(*old(t)),
{
    let mut node = t.take().unwrap();
    let mut right = node.right.take().unwrap();
    node.right = right.left.take();
    right.balance = node.balance.replce(Color::Red);
    right.left = Some(node);
    *t = Some(right);
}

/// Lifts the left child to the root of the subtree.
pub fn rot_right<K: TotalKey, V>(t: &mut Link<K, V>)
    requires
        *old(t) is Some,
        left_of(*old(t)) is Some,
    ensures
        *final(t) == rotated_right(*old(t)),
{
    let mut node = t.take().unwrap();
    let mut left = node.left.take().unwrap();
    node.left = left.right.take();
    left.balance = node.balance.replce(Color::Red);
    left.right = Some(node);
    *t = Some(left);
}

/// Reverses the colours of the root and of both its children.
pub fn flip_color<K: TotalKey, V>(t: &mut Link<K, V>)
    requires
        *old(t) is Some,
    ensures
        *final(t) == flipped(*old(t)),
{
    let node = t.as_mut().unwrap();
    node.balance.rev();
    match &mut node.left {
        Some(left) => left.balance.rev(),
        None => {},
    }
    match &mut node.right {
        Some(right) => right.balance.rev(),
        None => {},
    }
}

/// Moves red into the left child, borrowing from the right child where it
/// has a red link to spare.
pub fn restruct_left<K: TotalKey, V>(t: &mut Link<K, V>)
    requires
        *old(t) is Some,
    ensures
        *final(t) == restructured_left(*old(t)),
{
    flip_color(t);
    if t.as_ref().unwrap().red_left_of_right() {
        rot_right(&mut t.as_mut().unwrap().right);
        rot_left(t);
        flip_color(t);
    }
}

/// Moves red into the right child, borrowing from the left child where it
/// has a red link to spare.
pub fn restruct_right<K: TotalKey, V>(t: &mut Link<K, V>)
    requires
        *old(t) is Some,
    ensures
        *final(t) == restructured_right(*old(t)),
{
    flip_color(t);
    if t.as_ref().unwrap().red_left_of_left() {
        rot_right(t);
        flip_color(t);
    }
}

/// Mends the links of a root after a change below it.
pub fn rebalance<K: TotalKey, V>(t: &mut Link<K, V>)
    requires
        *old(t) is Some,
    ensures
        *final(t) == rebalanced(*old(t)),
{
    let node = t.as_ref().unwrap();
    if node.red_right() && !node.red_left() {
        rot_left(t);
    }
    if t.as_ref().unwrap().red_double_left() {
        rot_right(t);
    }
    let node = t.as_ref().unwrap();
    if node.red_left() && node.red_right() {
        flip_color(t);
    }
}

/// Puts `key` with `value` into the subtree, a new node on a red link, and
/// mends the path to it. Returns the value that the key had before.
pub fn insert<K: TotalKey, V>(
    t: &mut Link<K, V>,
    key: K,
    value: V,
    Ghost(lo): Ghost<Option<K>>,
    Ghost(hi): Ghost<Option<K>>,
) -> (prior: Option<V>)
    requires
        ordered(*old(t), lo, hi),
        above(lo, key),
        below(key, hi),
        llrb(*old(t)),
    ensures
        ordered(*final(t), lo, hi),
        entries(*final(t)) == entries(*old(t)).insert(key, value),
        prior == (if entries(*old(t)).contains_key(key) {
            Some(entries(*old(t))[key])
        } else {
            None
        }),
        size(*final(t)) == size(*old(t)) + (if prior is None {
            1nat
        } else {
            0nat
        }),
        *final(t) is Some,
        near(*final(t)),
        black_height(*final(t)) == black_height(*old(t)),
        !red(*old(t)) ==> llrb(*final(t)),
    decreases size(*old(t)),
{
    proof {
        K::order_laws();
    }
    let ghost before = *t;
    match t {
        None => {
            *t = Some(Node::new(key, value, Color::Red));
            proof {
                assert(entries(*t) =~= entries(before).insert(key, value));
                assert(size(*t) == 1 + size(t.unwrap().left) + size(t.unwrap().right));
                assert(ordered(t.unwrap().left, lo, Some(key)));
                assert(ordered(t.unwrap().right, Some(key), hi));
                assert(llrb(t.unwrap().left) && llrb(t.unwrap().right));
            }
            None
        },
        Some(node) => {
            proof {
                assert(size(before) == 1 + size(node.left) + size(node.right));
                lemma_entries_at_root(before);
                lemma_keys_within(node.left, lo, Some(node.key));
                lemma_keys_within(node.right, Some(node.key), hi);
            }
            let prior = match key.compare(&node.key) {
                Rel::Equal => {
                    let mut held = value;
                    std::mem::swap(&mut node.value, &mut held);
                    Some(held)
                },
                Rel::Greater => insert(
                    &mut node.right,
                    key,
                    value,
                    Ghost(Some(node.key)),
                    Ghost(hi),
                ),
                Rel::Less => insert(
                    &mut node.left,
                    key,
                    value,
                    Ghost(lo),
                    Ghost(Some(node.key)),
                ),
            };
            proof {
                lemma_entries_at_root(*t);
                assert(entries(*t) =~= entries(before).insert(key, value));
                assert(size(*t) == 1 + size(t.unwrap().left) + size(t.unwrap().right));
                assert(black_height(*t) == black_height(before));
                lemma_llrb_is_near(left_of(before));
                lemma_rebalanced_mends(*t);
                lemma_rebalanced_keeps(*t, lo, hi);
            }
            rebalance(t);
            prior
        },
    }
}

/// A subtree that keeps the discipline with no black link in it and no red
/// link to it is empty.
pub proof fn lemma_no_black_is_empty<K, V>(t: Link<K, V>)
    requires
        black_height(t) == 0,
        !red(t),
    ensures
        t is None,
{
    lemma_black_height_nonneg(left_of(t));
}

/// Detaches the node with the least key from a subtree that can spare one,
/// and mends the path to it.
pub fn pop_min_node<K: TotalKey, V>(
    t: &mut Link<K, V>,
    Ghost(lo): Ghost<Option<K>>,
    Ghost(hi): Ghost<Option<K>>,
) -> (least: Box<Node<K, V>>)
    requires
        ready(*old(t)),
        ordered(*old(t), lo, hi),
    ensures
        entries(*old(t)).contains_pair(least.key, least.value),
        entries(*final(t)) == entries(*old(t)).remove(least.key),
        above(lo, least.key),
        below(least.key, hi),
        ordered(*final(t), Some(least.key), hi),
        size(*final(t)) == size(*old(t)) - 1,
        llrb(*final(t)),
        black_height(*final(t)) == black_height(*old(t)),
        !red(*old(t)) ==> !red(*final(t)),
    decreases size(*old(t)),
{
    proof {
        K::order_laws();
    }
    let ghost before = *t;
    proof {
        assert(size(before) == 1 + size(left_of(before)) + size(right_of(before)));
        lemma_entries_at_root(before);
        lemma_keys_within(left_of(before), lo, Some(before.unwrap().key));
        lemma_keys_within(right_of(before), Some(before.unwrap().key), hi);
    }
    if t.as_ref().unwrap().left.is_none() {
        proof {
            lemma_no_black_is_empty(right_of(before));
        }
        let mut node = t.take().unwrap();
        *t = node.right.take();
        proof {
            assert(entries(*t) =~= entries(before).remove(node.key));
        }
        node
    } else {
        let node = t.as_ref().unwrap();
        if !(node.red_left() || node.red_left_of_left()) {
            proof {
                lemma_restructured_left_colors(*t);
                lemma_restructured_left_keeps(*t, lo, hi);
            }
            restruct_left(t);
        }
        let ghost mid = *t;
        proof {
            lemma_entries_at_root(mid);
            assert(size(mid) == 1 + size(left_of(mid)) + size(right_of(mid)));
            assert(ready(left_of(mid)));
            lemma_keys_within(left_of(mid), lo, Some(mid.unwrap().key));
            lemma_keys_within(right_of(mid), Some(mid.unwrap().key), hi);
        }
        let node = t.as_mut().unwrap();
        let least = pop_min_node(&mut node.left, Ghost(lo), Ghost(Some(node.key)));
        proof {
            lemma_entries_at_root(*t);
            assert(entries(*t) =~= entries(before).remove(least.key));
            assert(size(*t) == 1 + size(left_of(*t)) + size(right_of(*t)));
            assert(ordered(*t, Some(least.key), hi));
            assert(black_height(*t) == black_height(mid));
            lemma_llrb_is_near(left_of(*t));
            lemma_rebalanced_mends(*t);
            lemma_rebalanced_keeps(*t, Some(least.key), hi);
        }
        rebalance(t);
        least
    }
}

/// Detaches the node that holds `key` from a subtree that holds it and can
/// spare a node, and mends the path to it.
#[verifier::rlimit(60)]
pub fn remove_node<K: TotalKey, V>(
    t: &mut Link<K, V>,
    key: &K,
    Ghost(lo): Ghost<Option<K>>,
    Ghost(hi): Ghost<Option<K>>,
) -> (removal: Box<Node<K, V>>)
    requires
        *old(t) is Some,
        ordered(*old(t), lo, hi),
        entries(*old(t)).contains_key(*key),
        ready(*old(t)) || (tilted(*old(t)) && !key.before(&old(t).unwrap().key)),
    ensures
        removal.key == *key,
        removal.value == entries(*old(t))[*key],
        entries(*final(t)) == entries(*old(t)).remove(*key),
        ordered(*final(t), lo, hi),
        size(*final(t)) == size(*old(t)) - 1,
        llrb(*final(t)),
        black_height(*final(t)) == black_height(*old(t)),
        !red(*old(t)) ==> !red(*final(t)),
    decreases size(*old(t)),
{
    proof {
        K::order_laws();
    }
    let ghost before = *t;
    proof {
        assert(size(before) == 1 + size(left_of(before)) + size(right_of(before)));
        lemma_entries_at_root(before);
        lemma_keys_within(left_of(before), lo, Some(before.unwrap().key));
        lemma_keys_within(right_of(before), Some(before.unwrap().key), hi);
    }
    let node = t.as_ref().unwrap();
    if key.compare(&node.key) == Rel::Less {
        if !(node.red_left() || node.red_left_of_left()) {
            proof {
                lemma_restructured_left_colors(*t);
                lemma_restructured_left_keeps(*t, lo, hi);
            }
            restruct_left(t);
        }
        let ghost mid = *t;
        proof {
            lemma_entries_at_root(mid);
            assert(size(mid) == 1 + size(left_of(mid)) + size(right_of(mid)));
            assert(ready(left_of(mid)));
            lemma_keys_within(left_of(mid), lo, Some(mid.unwrap().key));
            lemma_keys_within(right_of(mid), Some(mid.unwrap().key), hi);
        }
        let node = t.as_mut().unwrap();
        let removal = remove_node(&mut node.left, key, Ghost(lo), Ghost(Some(node.key)));
        proof {
            lemma_entries_at_root(*t);
            assert(entries(*t) =~= entries(before).remove(*key));
            assert(size(*t) == 1 + size(left_of(*t)) + size(right_of(*t)));
            assert(black_height(*t) == black_height(mid));
            lemma_llrb_is_near(left_of(*t));
            lemma_rebalanced_mends(*t);
            lemma_rebalanced_keeps(*t, lo, hi);
        }
        rebalance(t);
        removal
    } else {
        if node.red_left() {
            proof {
                reveal_with_fuel(llrb, 3);
                reveal_with_fuel(black_height, 3);
                assert(ordered(left_of(before), lo, Some(before.unwrap().key)));
                lemma_rotated_right_keeps(*t, lo, hi);
            }
            rot_right(t);
        }
        let ghost turned = *t;
        proof {
            assert(tilted(turned) || (red(turned) && llrb(turned)));
            assert(!key.before(&turned.unwrap().key));
            assert(black_height(turned) == black_height(before));
            lemma_entries_at_root(turned);
            lemma_keys_within(left_of(turned), lo, Some(turned.unwrap().key));
            lemma_keys_within(right_of(turned), Some(turned.unwrap().key), hi);
        }
        let node = t.as_ref().unwrap();
        if node.key.compare(key) == Rel::Equal && node.right.is_none() {
            proof {
                lemma_no_black_is_empty(left_of(turned));
            }
            let found = t.take().unwrap();
            proof {
                assert(entries(*t) =~= entries(before).remove(*key));
            }
            return found;
        }
        if !(node.red_right() || node.red_left_of_right()) {
            proof {
                lemma_restructured_right_colors(*t);
                lemma_restructured_right_keeps(*t, lo, hi);
            }
            restruct_right(t);
        }
        let ghost mid = *t;
        proof {
            lemma_entries_at_root(mid);
            assert(size(mid) == 1 + size(left_of(mid)) + size(right_of(mid)));
            assert(ordered(right_of(mid), Some(mid.unwrap().key), hi));
            lemma_keys_within(left_of(mid), lo, Some(mid.unwrap().key));
            lemma_keys_within(right_of(mid), Some(mid.unwrap().key), hi);
            assert(black_height(mid) == black_height(before));
            assert(llrb(left_of(mid)));
        }
        let node = t.as_mut().unwrap();
        let removal = if node.key.compare(key) == Rel::Equal {
            let mut successor = pop_min_node(
                &mut node.right,
                Ghost(Some(node.key)),
                Ghost(hi),
            );
            node.swap_successor(&mut successor);
            proof {
                lemma_widen(
                    node.left,
                    lo,
                    Some(mid.unwrap().key),
                    lo,
                    Some(node.key),
                );
            }
            successor
        } else {
            remove_node(&mut node.right, key, Ghost(Some(node.key)), Ghost(hi))
        };
        proof {
            lemma_entries_at_root(*t);
            assert(entries(*t) =~= entries(before).remove(*key));
            assert(size(*t) == 1 + size(left_of(*t)) + size(right_of(*t)));
            assert(ordered(*t, lo, hi));
            assert(black_height(*t) == black_height(mid));
            lemma_llrb_is_near(left_of(*t));
            lemma_rebalanced_mends(*t);
            lemma_rebalanced_keeps(*t, lo, hi);
        }
        rebalance(t);
        removal
    }
}

/// Number of nodes on the longest path from the root to an empty slot.
pub open spec fn depth<K, V>(t: Link<K, V>) -> nat
    decreases t,
{
    match t {
        None => 0,
        Some(n) => 1 + (if depth(n.left) >= depth(n.right) {
            depth(n.left)
        } else {
            depth(n.right)
        }),
    }
}

/// Two to the power of `e`.
pub open spec fn two_to(e: int) -> nat
    decreases e,
{
    if e <= 0 {
        1
    } else {
        2 * two_to(e - 1)
    }
}

/// A tree that keeps the colour discipline is shallow: no path is longer
/// than twice the black height, and one more below a red link; and the
/// number of nodes is at least two to the power of the black height, less one.
pub proof fn lemma_disciplined_is_shallow<K, V>(t: Link<K, V>)
    requires
        llrb(t),
    ensures
        depth(t) <= 2 * black_height(t) + (if red(t) {
            1int
        } else {
            0int
        }),
        size(t) + 1 >= two_to(black_height(t)),
    decreases t,
{
    match t {
        None => {},
        Some(n) => {
            lemma_disciplined_is_shallow(n.left);
            lemma_disciplined_is_shallow(n.right);
            lemma_black_height_nonneg(n.left);
        },
    }
}

/// The path that takes the given turns from the root, `true` for right and
/// `false` for left, ends at an empty slot with its last turn.
pub open spec fn ends_at_empty_slot<K, V>(t: Link<K, V>, turns: Seq<bool>) -> bool
    decreases turns.len(),
{
    match t {
        None => turns.len() == 0,
        Some(n) => turns.len() > 0 && ends_at_empty_slot(
            if turns[0] {
                n.right
            } else {
                n.left
            },
            turns.drop_first(),
        ),
    }
}

/// Number of black links on the path that takes the given turns, the link to
/// the root included.
pub open spec fn blacks_along<K, V>(t: Link<K, V>, turns: Seq<bool>) -> int
    decreases turns.len(),
{
    match t {
        None => 0,
        Some(n) => (if n.balance == Color::Black {
            1int
        } else {
            0int
        }) + (if turns.len() > 0 {
            blacks_along(
                if turns[0] {
                    n.right
                } else {
                    n.left
                },
                turns.drop_first(),
            )
        } else {
            0int
        }),
    }
}

/// In a tree that keeps the colour discipline every path from the root to an
/// empty slot crosses the same number of black links: the black height.
pub proof fn lemma_every_path_same_blacks<K, V>(t: Link<K, V>, turns: Seq<bool>)
    requires
        llrb(t),
        ends_at_empty_slot(t, turns),
    ensures
        blacks_along(t, turns) == black_height(t),
    decreases turns.len(),
{
    match t {
        None => {},
        Some(n) => {
            let child = if turns[0] {
                n.right
            } else {
                n.left
            };
            lemma_every_path_same_blacks(child, turns.drop_first());
        },
    }
}

/// Number of nodes on the longest path from the root to an empty slot.
pub fn depth_of<K, V>(t: &Link<K, V>) -> (d: usize)
    requires
        size(*t) <= usize::MAX,
    ensures
        d == depth(*t),
        d <= size(*t),
    decreases *t,
{
    match t {
        None => 0,
        Some(node) => {
            let left = depth_of(&node.left);
            let right = depth_of(&node.right);
            if left >= right {
                left + 1
            } else {
                right + 1
            }
        },
    }
}

} // verus!
