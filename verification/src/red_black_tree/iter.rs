use vstd::prelude::*;

verus! {

/// A one-shot walk that yields each node before its subtrees.
pub type Preorder<'a, K, V> = crate::tree::iter::Preorder<'a, K, V, super::node::Color>;

/// A one-shot walk that yields the pairs in ascending order of their keys.
pub type Inorder<'a, K, V> = crate::tree::iter::Inorder<'a, K, V, super::node::Color>;

} // verus!
