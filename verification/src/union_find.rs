use crate::order::{lemma_std_orders_u32, std_orders_u32};
use std::collections::BTreeMap;
use vstd::prelude::*;

verus! {

/// Every child and its parent have weights, each weight is at least one, and
/// a parent weighs more than its child.
pub open spec fn climbs(parents: Map<u32, u32>, weights: Map<u32, usize>) -> bool {
    &&& forall|id: u32| #[trigger] weights.contains_key(id) ==> weights[id] >= 1
    &&& forall|child: u32| #[trigger]
        parents.contains_key(child) ==> {
            &&& weights.contains_key(child)
            &&& weights.contains_key(parents[child])
            &&& weights[child] < weights[parents[child]]
        }
}

/// The id at the top of the chain of parents that starts at `id`.
pub open spec fn root_in(parents: Map<u32, u32>, weights: Map<u32, usize>, id: u32) -> u32
    decreases usize::MAX - weights[id],
    when climbs(parents, weights)
{
    if parents.contains_key(id) {
        root_in(parents, weights, parents[id])
    } else {
        id
    }
}

/// The top of a chain has no parent, and has a weight where the chain's
/// start has one.
pub proof fn lemma_root_is_top(parents: Map<u32, u32>, weights: Map<u32, usize>, id: u32)
    requires
        climbs(parents, weights),
    ensures
        !parents.contains_key(root_in(parents, weights, id)),
        weights.contains_key(id) ==> weights.contains_key(root_in(parents, weights, id)),
    decreases usize::MAX - weights[id],
{
    if parents.contains_key(id) {
        lemma_root_is_top(parents, weights, parents[id]);
    }
}

/// Hanging one top under another, which then weighs as much as both, sends
/// the chains that ended at the first to the second and leaves the others.
pub proof fn lemma_root_after_link(
    parents: Map<u32, u32>,
    weights: Map<u32, usize>,
    loser: u32,
    winner: u32,
    id: u32,
)
    requires
        climbs(parents, weights),
        !parents.contains_key(loser),
        !parents.contains_key(winner),
        loser != winner,
        weights.contains_key(loser),
        weights.contains_key(winner),
        weights[loser] + weights[winner] <= usize::MAX,
    ensures
        climbs(
            parents.insert(loser, winner),
            weights.insert(winner, (weights[winner] + weights[loser]) as usize),
        ),
        root_in(
            parents.insert(loser, winner),
            weights.insert(winner, (weights[winner] + weights[loser]) as usize),
            id,
        ) == (if root_in(parents, weights, id) == loser {
            winner
        } else {
            root_in(parents, weights, id)
        }),
    decreases usize::MAX - weights[id],
{
    let parents2 = parents.insert(loser, winner);
    let weights2 = weights.insert(winner, (weights[winner] + weights[loser]) as usize);
    assert(climbs(parents2, weights2)) by {
        assert forall|child: u32| #[trigger] parents2.contains_key(child) implies {
            &&& weights2.contains_key(child)
            &&& weights2.contains_key(parents2[child])
            &&& weights2[child] < weights2[parents2[child]]
        } by {
            if child != loser {
                assert(parents.contains_key(child));
            }
        }
    }
    if parents.contains_key(id) {
        lemma_root_after_link(parents, weights, loser, winner, parents[id]);
        assert(root_in(parents2, weights2, id) == root_in(parents2, weights2, parents2[id]));
    } else if id == loser {
        assert(root_in(parents2, weights2, id) == root_in(parents2, weights2, winner));
        assert(!parents2.contains_key(winner));
    } else {
        assert(!parents2.contains_key(id));
    }
}

/// Disjoint sets of ids, each set known by the id at the top of its chains.
pub struct UnionFind {
    child2parent: BTreeMap<u32, u32>,
    id2weight: BTreeMap<u32, usize>,
}

impl UnionFind {
    /// The parent chains climb by weight.
    pub closed spec fn wf(&self) -> bool {
        climbs(self.child2parent@, self.id2weight@)
    }

    /// `id` was given when the sets were made.
    pub closed spec fn knows(&self, id: u32) -> bool {
        self.id2weight@.contains_key(id)
    }

    /// The id that stands for the set of `id`.
    pub closed spec fn root_of(&self, id: u32) -> u32 {
        root_in(self.child2parent@, self.id2weight@, id)
    }

    /// The weight recorded for `id`: for the id that stands for a set, the
    /// number of ids in the set.
    pub closed spec fn weight_of(&self, id: u32) -> nat {
        self.id2weight@[id] as nat
    }

    /// The id that stands for a set stands for itself, and is known where a
    /// member is.
    pub proof fn lemma_root_of_root(&self, id: u32)
        requires
            self.wf(),
        ensures
            self.root_of(self.root_of(id)) == self.root_of(id),
            self.knows(id) ==> self.knows(self.root_of(id)),
            self.knows(id) ==> self.weight_of(id) >= 1,
    {
        lemma_root_is_top(self.child2parent@, self.id2weight@, id);
    }

    /// Sets of one id each, one for every id of `ids`.
    pub fn from_ids(ids: &[u32]) -> (sets: Self)
        ensures
            sets.wf(),
            forall|id: u32| sets.root_of(id) == id,
            forall|id: u32| sets.knows(id) <==> ids@.contains(id),
            forall|id: u32| sets.knows(id) ==> sets.weight_of(id) == 1,
    {
        proof {
            lemma_std_orders_u32();
        }
        let mut id2weight: BTreeMap<u32, usize> = BTreeMap::new();
        let mut i: usize = 0;
        while i < ids.len()
            invariant
                std_orders_u32(),
                i <= ids@.len(),
                forall|id: u32|
                    id2weight@.contains_key(id) <==> exists|k: int| 0 <= k < i && ids@[k] == id,
                forall|id: u32| #[trigger] id2weight@.contains_key(id) ==> id2weight@[id] == 1,
            decreases ids@.len() - i,
        {
            let ghost before = id2weight@;
            id2weight.insert(ids[i], 1);
            proof {
                assert forall|id: u32| id2weight@.contains_key(id) <==> exists|k: int|
                    0 <= k < i + 1 && ids@[k] == id by {
                    if id2weight@.contains_key(id) {
                        if id == ids@[i as int] {
                        } else {
                            assert(before.contains_key(id));
                            let k = choose|k: int| 0 <= k < i && ids@[k] == id;
                            assert(0 <= k < i + 1 && ids@[k] == id);
                        }
                    }
                    if exists|k: int| 0 <= k < i + 1 && ids@[k] == id {
                        let k = choose|k: int| 0 <= k < i + 1 && ids@[k] == id;
                        if k < i {
                            assert(before.contains_key(id));
                        }
                    }
                }
            }
            i += 1;
        }
        let sets = UnionFind { child2parent: BTreeMap::new(), id2weight };
        proof {
            assert forall|id: u32| sets.knows(id) <==> ids@.contains(id) by {
                if ids@.contains(id) {
                    let k = choose|k: int| 0 <= k < ids@.len() && ids@[k] == id;
                    assert(0 <= k < i && ids@[k] == id);
                }
            }
        }
        sets
    }

    /// The id that stands for the set of `id`.
    pub fn find(&self, id: u32) -> (root: u32)
        requires
            self.wf(),
        ensures
            root == self.root_of(id),
    {
        broadcast use vstd::std_specs::btree::group_btree_axioms;

        proof {
            lemma_std_orders_u32();
        }
        let mut at: u32 = id;
        loop
            invariant
                std_orders_u32(),
                self.wf(),
                self.root_of(at) == self.root_of(id),
            decreases usize::MAX - self.id2weight@[at],
        {
            match self.child2parent.get(&at) {
                Some(parent) => {
                    at = *parent;
                },
                None => {
                    return at;
                },
            }
        }
    }

    /// Whether the two ids are in one set.
    pub fn connected(&self, id1: u32, id2: u32) -> (yes: bool)
        requires
            self.wf(),
        ensures
            yes == (self.root_of(id1) == self.root_of(id2)),
    {
        self.find(id1) == self.find(id2)
    }

    /// Makes one set of the sets of two known ids: the lighter one goes under
    /// the heavier, and under the first where they weigh the same.
    pub fn union(&mut self, id1: u32, id2: u32)
        requires
            old(self).wf(),
            old(self).knows(id1),
            old(self).knows(id2),
            old(self).root_of(id1) != old(self).root_of(id2) ==> old(self).weight_of(
                old(self).root_of(id1),
            ) + old(self).weight_of(old(self).root_of(id2)) <= usize::MAX,
        ensures
            final(self).wf(),
            forall|id: u32| final(self).knows(id) == old(self).knows(id),
            ({
                let root1 = old(self).root_of(id1);
                let root2 = old(self).root_of(id2);
                let first_wins = old(self).weight_of(root1) >= old(self).weight_of(root2);
                let winner = if first_wins {
                    root1
                } else {
                    root2
                };
                let loser = if first_wins {
                    root2
                } else {
                    root1
                };
                &&& forall|id: u32| #[trigger]
                    final(self).root_of(id) == (if old(self).root_of(id) == loser {
                        winner
                    } else {
                        old(self).root_of(id)
                    })
                &&& root1 != root2 ==> final(self).weight_of(winner) == old(self).weight_of(root1)
                    + old(self).weight_of(root2)
            }),
    {
        broadcast use vstd::std_specs::btree::group_btree_axioms;

        proof {
            lemma_std_orders_u32();
            old(self).lemma_root_of_root(id1);
            old(self).lemma_root_of_root(id2);
            lemma_root_is_top(self.child2parent@, self.id2weight@, id1);
            lemma_root_is_top(self.child2parent@, self.id2weight@, id2);
        }
        let root1 = self.find(id1);
        let root2 = self.find(id2);
        if root1 == root2 {
            return;
        }
        let weight1: usize = *self.id2weight.get(&root1).unwrap();
        let weight2: usize = *self.id2weight.get(&root2).unwrap();
        if weight1 >= weight2 {
            proof {
                assert forall|id: u32|
                    root_in(
                        self.child2parent@.insert(root2, root1),
                        self.id2weight@.insert(root1, (weight1 + weight2) as usize),
                        id,
                    ) == (if old(self).root_of(id) == root2 {
                        root1
                    } else {
                        old(self).root_of(id)
                    }) by {
                    lemma_root_after_link(self.child2parent@, self.id2weight@, root2, root1, id);
                }
                lemma_root_after_link(self.child2parent@, self.id2weight@, root2, root1, root1);
            }
            self.child2parent.insert(root2, root1);
            self.id2weight.insert(root1, weight1 + weight2);
        } else {
            proof {
                assert forall|id: u32|
                    root_in(
                        self.child2parent@.insert(root1, root2),
                        self.id2weight@.insert(root2, (weight2 + weight1) as usize),
                        id,
                    ) == (if old(self).root_of(id) == root1 {
                        root2
                    } else {
                        old(self).root_of(id)
                    }) by {
                    lemma_root_after_link(self.child2parent@, self.id2weight@, root1, root2, id);
                }
                lemma_root_after_link(self.child2parent@, self.id2weight@, root1, root2, root2);
            }
            self.child2parent.insert(root1, root2);
            self.id2weight.insert(root2, weight2 + weight1);
        }
    }
}

} // verus!
