//! Verified data structures and algorithms: ordered maps kept as
//! self-balancing search trees, in a height-balanced and in a left-leaning
//! red-black discipline, and beside them sorting routines, a binary search,
//! a chained hash map, a linked list, disjoint sets, a directed graph with
//! shortest paths, and a few helpers on numbers and arrangements. Every
//! function states what it returns or changes over a mathematical model of
//! its data.

pub mod avl_tree;
pub mod combinatorics;
pub mod digraph;
pub mod hash_map;
pub mod laws;
pub mod linked_list;
pub mod number_theory;
pub mod order;
pub mod red_black_tree;
pub mod search;
pub mod sort;
pub mod tree;
pub mod union_find;

pub use avl_tree::AVLTreeMap;
pub use digraph::DiGraph;
pub use hash_map::{ChainHashMap, HashKey};
pub use linked_list::LinkedList;
pub use order::{Rel, TotalKey};
pub use red_black_tree::RBTreeMap;
pub use union_find::UnionFind;

