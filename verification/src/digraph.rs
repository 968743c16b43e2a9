use crate::order::{lemma_std_orders_u32, std_orders_u32};
use std::collections::{BTreeMap, BTreeSet, VecDeque};
use vstd::prelude::*;

verus! {

/// A node of the graph: what it carries, and the ids that its edges lead to.
pub struct Node<V> {
    element: V,
    neighbours: BTreeSet<u32>,
}

/// An edge from the first id to the second.
pub type Edge = (u32, u32);

impl<V> Node<V> {
    /// A node without edges.
    fn new(element: V) -> (node: Self)
        ensures
            node.element == element,
            node.neighbours@ == Set::<u32>::empty(),
    {
        Node { element, neighbours: BTreeSet::new() }
    }
}

/// The ids of the set, in ascending order.
fn members(set: &BTreeSet<u32>) -> (out: Vec<u32>)
    ensures
        forall|x: u32| set@.contains(x) <==> out@.contains(x),
{
    broadcast use vstd::std_specs::btree::group_btree_axioms;

    proof {
        lemma_std_orders_u32();
    }
    let mut out: Vec<u32> = Vec::new();
    for x in it: set.iter()
        invariant
            std_orders_u32(),
            out@.len() == it.index(),
            forall|i: int| 0 <= i < out@.len() ==> out@[i] == *it.seq()[i],
            it.seq().unref().to_set() == set@,
            forall|x: u32| #[trigger]
                set@.contains(x) ==> exists|i: int|
                    0 <= i < it.seq().len() && *(#[trigger] it.seq()[i]) == x,
            forall|i: int| 0 <= i < out@.len() ==> set@.contains(#[trigger] out@[i]),
    {
        proof {
            let all = it.seq().unref();
            assert(all[it.index() as int] == *x);
            assert(all.contains(*x));
        }
        out.push(*x);
    }
    out
}

/// A directed graph of nodes known by their ids.
pub struct DiGraph<V> {
    adj_table: BTreeMap<u32, Node<V>>,
}

impl<V> Default for DiGraph<V> {
    /// A graph without nodes.
    fn default() -> (graph: Self)
        ensures
            graph.wf(),
            forall|id: u32| !graph.has_node(id),
    {
        Self::new()
    }
}

impl<V> DiGraph<V> {
    /// The graph has a node with this id.
    pub closed spec fn has_node(&self, id: u32) -> bool {
        self.adj_table@.contains_key(id)
    }

    /// What the node with this id carries.
    pub closed spec fn element(&self, id: u32) -> V {
        self.adj_table@[id].element
    }

    /// The graph has an edge from `a` to `b`.
    pub closed spec fn has_edge(&self, a: u32, b: u32) -> bool {
        self.adj_table@.contains_key(a) && self.adj_table@[a].neighbours@.contains(b)
    }

    /// The ids of the nodes.
    pub closed spec fn nodes(&self) -> Set<u32> {
        self.adj_table@.dom()
    }

    /// Every edge leads to a node of the graph.
    pub closed spec fn wf(&self) -> bool {
        forall|a: u32, b: u32| #[trigger] self.has_edge(a, b) ==> self.has_node(b)
    }

    /// The ids of the nodes are those that `has_node` holds of, and they are
    /// finitely many.
    pub proof fn lemma_nodes(&self)
        ensures
            forall|id: u32| self.nodes().contains(id) == self.has_node(id),
            self.nodes().finite(),
            forall|a: u32, b: u32| #[trigger] self.has_edge(a, b) ==> self.has_node(a),
    {
        broadcast use vstd::std_specs::btree::group_btree_axioms;

    }

    /// A graph without nodes.
    pub fn new() -> (graph: Self)
        ensures
            graph.wf(),
            forall|id: u32| !graph.has_node(id),
            forall|a: u32, b: u32| !graph.has_edge(a, b),
    {
        DiGraph { adj_table: BTreeMap::new() }
    }

    /// Number of nodes.
    pub fn node_count(&self) -> (n: usize)
        ensures
            n == self.nodes().len(),
    {
        broadcast use vstd::std_specs::btree::group_btree_axioms;

        proof {
            lemma_std_orders_u32();
        }
        self.adj_table.len()
    }

    /// Number of edges that leave the node with this id.
    pub closed spec fn degree(&self, id: u32) -> nat {
        self.adj_table@[id].neighbours@.len()
    }

    /// Number of edges that leave the nodes of the list, a node that is
    /// listed twice counted twice.
    pub open spec fn degree_sum(&self, ids: Seq<u32>) -> nat
        decreases ids.len(),
    {
        if ids.len() == 0 {
            0
        } else {
            self.degree_sum(ids.drop_last()) + self.degree(ids.last())
        }
    }

    /// `ids` lists every node of the graph once.
    pub open spec fn lists_nodes(&self, ids: Seq<u32>) -> bool {
        ids.no_duplicates() && forall|id: u32| self.has_node(id) <==> ids.contains(id)
    }

    /// The edges that leave the first nodes of a list are no more than those
    /// that leave all of them.
    pub proof fn lemma_degree_sum_grows(&self, ids: Seq<u32>, n: int)
        requires
            0 <= n <= ids.len(),
        ensures
            self.degree_sum(ids.take(n)) <= self.degree_sum(ids),
        decreases ids.len() - n,
    {
        if n < ids.len() {
            self.lemma_degree_sum_grows(ids, n + 1);
            assert(ids.take(n + 1).drop_last() =~= ids.take(n));
        } else {
            assert(ids.take(n) =~= ids);
        }
    }

    /// The ids of the nodes, in ascending order.
    fn ids(&self) -> (out: Vec<u32>)
        ensures
            self.lists_nodes(out@),
    {
        broadcast use vstd::std_specs::btree::group_btree_axioms;

        proof {
            lemma_std_orders_u32();
        }
        let mut out: Vec<u32> = Vec::new();
        for x in it: self.adj_table.keys()
            invariant
                std_orders_u32(),
                out@.len() == it.index(),
                forall|i: int| 0 <= i < out@.len() ==> out@[i] == *it.seq()[i],
                it.seq().unref().to_set() == self.adj_table@.dom(),
                it.seq().no_duplicates(),
                forall|x: u32| #[trigger]
                    self.adj_table@.contains_key(x) ==> exists|i: int|
                        0 <= i < it.seq().len() && *(#[trigger] it.seq()[i]) == x,
                forall|x: u32| #[trigger]
                    self.adj_table@.contains_key(x) ==> out@.contains(x) || exists|i: int|
                        it.index() <= i < it.seq().len() && *(#[trigger] it.seq()[i]) == x,
                forall|i: int| 0 <= i < out@.len() ==> self.adj_table@.contains_key(#[trigger] out@[i]),
                forall|i: int, j: int| 0 <= i < j < out@.len() ==> out@[i] != out@[j],
        {
            proof {
                let all = it.seq().unref();
                assert(all[it.index() as int] == *x);
                assert(all.contains(*x));
                assert forall|i: int| 0 <= i < out@.len() implies out@[i] != *x by {
                    assert(it.seq()[i] != it.seq()[it.index() as int]);
                }
            }
            let ghost listed = out@;
            out.push(*x);
            proof {
                assert forall|y: u32| #[trigger] self.adj_table@.contains_key(y) implies out@.contains(
                    y,
                ) || exists|i: int|
                    it.index() + 1 <= i < it.seq().len() && *(#[trigger] it.seq()[i]) == y by {
                    if listed.contains(y) {
                        let i = choose|i: int| 0 <= i < listed.len() && listed[i] == y;
                        assert(out@[i] == y);
                    } else {
                        let i = choose|i: int|
                            it.index() <= i < it.seq().len() && *(#[trigger] it.seq()[i]) == y;
                        if i == it.index() {
                            assert(out@[out@.len() - 1] == y);
                        }
                    }
                }
            }
        }
        proof {
            assert forall|id: u32| self.has_node(id) <==> out@.contains(id) by {
                if self.has_node(id) {
                    assert(self.adj_table@.contains_key(id));
                }
                if out@.contains(id) {
                    let i = choose|i: int| 0 <= i < out@.len() && out@[i] == id;
                    assert(self.adj_table@.contains_key(out@[i]));
                }
            }
            assert forall|i: int, j: int|
                0 <= i < out@.len() && 0 <= j < out@.len() && i != j implies out@[i] != out@[j] by {
                if i < j {
                    assert(out@[i] != out@[j]);
                } else {
                    assert(out@[j] != out@[i]);
                }
            }
        }
        out
    }

    /// Number of edges: those that leave the nodes, each node taken once.
    /// The number must fit `usize`.
    pub fn edge_count(&self) -> (n: usize)
        requires
            forall|ids: Seq<u32>| #[trigger] self.lists_nodes(ids) ==> self.degree_sum(ids) <= usize::MAX,
        ensures
            exists|ids: Seq<u32>| #[trigger] self.lists_nodes(ids) && n == self.degree_sum(ids),
    {
        broadcast use vstd::std_specs::btree::group_btree_axioms;

        proof {
            lemma_std_orders_u32();
        }
        let ids = self.ids();
        let mut n: usize = 0;
        let mut i: usize = 0;
        proof {
            assert(ids@.take(0) =~= Seq::<u32>::empty());
        }
        while i < ids.len()
            invariant
                std_orders_u32(),
                i <= ids@.len(),
                self.lists_nodes(ids@),
                self.degree_sum(ids@) <= usize::MAX,
                n == self.degree_sum(ids@.take(i as int)),
            decreases ids@.len() - i,
        {
            proof {
                self.lemma_degree_sum_grows(ids@, i + 1);
                assert(ids@.take(i + 1).drop_last() =~= ids@.take(i as int));
                assert(ids@.contains(ids@[i as int]));
            }
            let node = self.adj_table.get(&ids[i]).unwrap();
            n += node.neighbours.len();
            i += 1;
        }
        proof {
            assert(ids@.take(i as int) =~= ids@);
        }
        n
    }

    /// Puts a node with this id into the graph, or gives the node that has
    /// the id something else to carry.
    fn add_node(&mut self, id: u32, elt: V)
        requires
            old(self).wf(),
        ensures
            final(self).wf(),
            forall|x: u32| final(self).has_node(x) == (x == id || old(self).has_node(x)),
            final(self).element(id) == elt,
            forall|x: u32| x != id ==> final(self).element(x) == old(self).element(x),
            forall|a: u32, b: u32| final(self).has_edge(a, b) == old(self).has_edge(a, b),
    {
        broadcast use vstd::std_specs::btree::group_btree_axioms;

        proof {
            lemma_std_orders_u32();
        }
        match self.adj_table.remove(&id) {
            Some(mut node) => {
                node.element = elt;
                self.adj_table.insert(id, node);
            },
            None => {
                self.adj_table.insert(id, Node::new(elt));
            },
        }
        proof {
            assert forall|a: u32, b: u32| #[trigger]
                final(self).has_edge(a, b) == old(self).has_edge(a, b) by {}
            assert forall|a: u32, b: u32| #[trigger]
                final(self).has_edge(a, b) implies final(self).has_node(b) by {
                assert(old(self).has_edge(a, b));
            }
        }
    }

    /// Puts an edge into the graph, and with it its two ends as nodes that
    /// carry `start` and `end`.
    pub fn add_edge(&mut self, edge: Edge, start: V, end: V)
        requires
            old(self).wf(),
        ensures
            final(self).wf(),
            forall|x: u32|
                final(self).has_node(x) == (x == edge.0 || x == edge.1 || old(self).has_node(x)),
            forall|a: u32, b: u32|
                final(self).has_edge(a, b) == ((a == edge.0 && b == edge.1) || old(self).has_edge(a, b)),
            final(self).element(edge.1) == end,
            edge.0 != edge.1 ==> final(self).element(edge.0) == start,
            forall|x: u32|
                x != edge.0 && x != edge.1 ==> final(self).element(x) == old(self).element(x),
    {
        broadcast use vstd::std_specs::btree::group_btree_axioms;

        proof {
            lemma_std_orders_u32();
        }
        self.add_node(edge.0, start);
        let ghost first = *self;
        self.add_node(edge.1, end);
        let ghost mid = *self;
        proof {
            assert(first.has_node(edge.0));
            assert(mid.has_node(edge.0));
            assert(mid.has_node(edge.1));
            assert(mid.element(edge.1) == end);
            assert(edge.0 != edge.1 ==> mid.element(edge.0) == first.element(edge.0));
            assert forall|x: u32|
                mid.has_node(x) == (x == edge.0 || x == edge.1 || old(self).has_node(x)) by {
                assert(first.has_node(x) == (x == edge.0 || old(self).has_node(x)));
            }
            assert forall|x: u32| x != edge.0 && x != edge.1 implies mid.element(x) == old(self).element(x) by {
                assert(first.element(x) == old(self).element(x));
            }
            assert forall|a: u32, b: u32| mid.has_edge(a, b) == old(self).has_edge(a, b) by {
                assert(first.has_edge(a, b) == old(self).has_edge(a, b));
            }
        }
        match self.adj_table.remove(&edge.0) {
            Some(mut node) => {
                node.neighbours.insert(edge.1);
                self.adj_table.insert(edge.0, node);
            },
            None => {},
        }
        proof {
            assert(self.adj_table@.dom() =~= mid.adj_table@.dom());
            assert forall|x: u32| final(self).has_node(x) == mid.has_node(x) by {}
            assert forall|x: u32| final(self).element(x) == mid.element(x) by {}
            assert forall|a: u32, b: u32| #[trigger]
                final(self).has_edge(a, b) == ((a == edge.0 && b == edge.1) || mid.has_edge(a, b)) by {}
            assert forall|a: u32, b: u32| #[trigger]
                final(self).has_edge(a, b) implies final(self).has_node(b) by {
                if !(a == edge.0 && b == edge.1) {
                    assert(mid.has_edge(a, b));
                }
            }
        }
    }

    /// Each id of the path is joined to the next by an edge.
    pub open spec fn is_walk(&self, path: Seq<u32>) -> bool {
        forall|i: int| 0 <= i < path.len() - 1 ==> self.has_edge(#[trigger] path[i], path[i + 1])
    }

    /// The path is a walk from `start` to `end`.
    pub open spec fn joins(&self, path: Seq<u32>, start: u32, end: u32) -> bool {
        path.len() > 0 && path[0] == start && path.last() == end && self.is_walk(path)
    }

    /// There is a walk from `start` to `end`.
    pub open spec fn reaches(&self, start: u32, end: u32) -> bool {
        exists|path: Seq<u32>| self.joins(path, start, end)
    }

    /// Every id of `found` but `start` comes with the id it was found from,
    /// one step nearer to `start` and joined to it by an edge.
    pub open spec fn spans(
        &self,
        stretchs: Map<u32, u32>,
        found: Map<u32, nat>,
        start: u32,
    ) -> bool {
        &&& found.contains_key(start)
        &&& forall|m: u32| #[trigger]
            found.contains_key(m) && m != start ==> {
                &&& stretchs.contains_key(m)
                &&& found.contains_key(stretchs[m])
                &&& self.has_edge(stretchs[m], m)
                &&& found[m] == found[stretchs[m]] + 1
            }
    }

    /// The ids of `found` are closed under the edges that leave them.
    pub open spec fn closed_under_edges(&self, found: Set<u32>) -> bool {
        forall|a: u32, b: u32| found.contains(a) && #[trigger] self.has_edge(a, b) ==> found.contains(b)
    }

    /// No edge leads more than one step further from the start.
    pub open spec fn steps_by_one(&self, found: Map<u32, nat>) -> bool {
        forall|a: u32, b: u32|
            found.contains_key(a) && #[trigger] self.has_edge(a, b) ==> found.contains_key(b)
                && found[b] <= found[a] + 1
    }

    /// The id at place `i` of a walk from the start is at most `i` steps
    /// from it.
    pub proof fn lemma_walk_is_no_shorter(&self, found: Map<u32, nat>, path: Seq<u32>, i: int)
        requires
            self.steps_by_one(found),
            self.is_walk(path),
            0 <= i < path.len(),
            found.contains_key(path[0]),
            found[path[0]] == 0,
        ensures
            found.contains_key(path[i]),
            found[path[i]] <= i,
        decreases i,
    {
        if i > 0 {
            self.lemma_walk_is_no_shorter(found, path, i - 1);
            assert(self.has_edge(path[i - 1], path[i]));
        }
    }

    /// A walk that starts within a set closed under edges stays within it.
    pub proof fn lemma_walk_stays(&self, found: Set<u32>, path: Seq<u32>, i: int)
        requires
            self.closed_under_edges(found),
            self.is_walk(path),
            0 <= i < path.len(),
            found.contains(path[0]),
        ensures
            found.contains(path[i]),
        decreases i,
    {
        if i > 0 {
            self.lemma_walk_stays(found, path, i - 1);
            assert(self.has_edge(path[i - 1], path[i]));
        }
    }

    /// The ids that the edges of a node lead to, in ascending order.
    fn neighbours(&self, id: u32) -> (out: Vec<u32>)
        requires
            self.has_node(id),
        ensures
            forall|x: u32| self.has_edge(id, x) <==> out@.contains(x),
    {
        broadcast use vstd::std_specs::btree::group_btree_axioms;

        proof {
            lemma_std_orders_u32();
        }
        let node = self.adj_table.get(&id).unwrap();
        members(&node.neighbours)
    }

    /// Searches the graph breadth first from `start`. Gives for each id that
    /// can be reached, but `start`, the id that it was found from.
    fn bfs(&self, start: u32) -> (out: (BTreeMap<u32, u32>, Ghost<Map<u32, nat>>))
        requires
            self.wf(),
            self.has_node(start),
        ensures
            self.spans(out.0@, out.1@, start),
            self.closed_under_edges(out.1@.dom()),
            self.steps_by_one(out.1@),
            out.1@[start] == 0,
    {
        broadcast use vstd::std_specs::btree::group_btree_axioms;

        proof {
            lemma_std_orders_u32();
            self.lemma_nodes();
        }
        let mut stretchs: BTreeMap<u32, u32> = BTreeMap::new();
        let mut marked: BTreeSet<u32> = BTreeSet::new();
        let mut queue: VecDeque<u32> = VecDeque::new();
        let ghost mut found: Map<u32, nat> = Map::<u32, nat>::empty().insert(start, 0nat);
        marked.insert(start);
        queue.push_front(start);
        let ghost mut level: nat = 0;
        proof {
            assert(marked@ =~= found.dom());
            assert(queue@[0] == start);
        }
        loop
            invariant
                found[start] == 0,
                forall|i: int|
                    0 <= i < queue@.len() ==> level <= found[#[trigger] queue@[i]] <= level + 1,
                forall|i: int, j: int|
                    0 <= i < j < queue@.len() ==> found[#[trigger] queue@[i]] >= found[
                        #[trigger] queue@[j]],
                forall|m: u32| #[trigger] marked@.contains(m) ==> found[m] <= level + 1,
                forall|m: u32|
                    #[trigger] marked@.contains(m) && !queue@.contains(m) ==> found[m] <= level,
                forall|a: u32, b: u32|
                    marked@.contains(a) && #[trigger] self.has_edge(a, b) && !queue@.contains(a)
                        ==> found[b] <= found[a] + 1,
                std_orders_u32(),
                self.wf(),
                self.nodes().finite(),
                marked@ == found.dom(),
                forall|m: u32| marked@.contains(m) ==> self.has_node(m),
                self.spans(stretchs@, found, start),
                forall|i: int| 0 <= i < queue@.len() ==> marked@.contains(#[trigger] queue@[i]),
                forall|a: u32, b: u32|
                    marked@.contains(a) && #[trigger] self.has_edge(a, b) && !queue@.contains(a)
                        ==> marked@.contains(b),
            ensures
                self.spans(stretchs@, found, start),
                self.closed_under_edges(found.dom()),
                self.steps_by_one(found),
                found[start] == 0,
            decreases self.nodes().len() - marked@.len() + queue@.len(),
        {
            proof {
                self.lemma_nodes();
                assert(marked@.subset_of(self.nodes()));
                vstd::set_lib::lemma_len_subset(marked@, self.nodes());
            }
            let ghost before_queue = queue@;
            let ghost budget: int = self.nodes().len() - marked@.len() + queue@.len();
            let id = match queue.pop_back() {
                None => {
                    break;
                },
                Some(id) => id,
            };
            proof {
                assert(before_queue[before_queue.len() - 1] == id);
                assert(marked@.contains(id));
                assert forall|i: int| 0 <= i < queue@.len() implies found[id] <= found[
                    #[trigger] queue@[i]] <= found[id] + 1 by {
                    assert(queue@[i] == before_queue[i]);
                    assert(found[before_queue[i]] >= found[before_queue[before_queue.len() - 1]]);
                }
                assert forall|m: u32|
                    #[trigger] marked@.contains(m) && !queue@.contains(m) && m != id implies found[m]
                    <= found[id] by {
                    if before_queue.contains(m) {
                        let i = choose|i: int| 0 <= i < before_queue.len() && before_queue[i] == m;
                        assert(queue@[i] == m);
                    }
                }
                level = found[id];
            }
            let ns = self.neighbours(id);
            proof {
                assert forall|a: u32, b: u32|
                    marked@.contains(a) && #[trigger] self.has_edge(a, b) && !queue@.contains(a)
                        && a != id implies marked@.contains(b) && found[b] <= found[a] + 1 by {
                    if before_queue.contains(a) {
                        let i = choose|i: int| 0 <= i < before_queue.len() && before_queue[i] == a;
                        assert(queue@[i] == a);
                    }
                }
            }
            let mut k: usize = 0;
            while k < ns.len()
                invariant
                    std_orders_u32(),
                    self.wf(),
                    self.nodes().finite(),
                    k <= ns@.len(),
                    marked@ == found.dom(),
                    marked@.contains(id),
                    forall|m: u32| marked@.contains(m) ==> self.has_node(m),
                    forall|x: u32| self.has_edge(id, x) <==> ns@.contains(x),
                    self.spans(stretchs@, found, start),
                    forall|i: int| 0 <= i < queue@.len() ==> marked@.contains(#[trigger] queue@[i]),
                    forall|j: int|
                        0 <= j < k ==> marked@.contains(#[trigger] ns@[j]) && found[ns@[j]] <= level
                            + 1,
                    forall|a: u32, b: u32|
                        marked@.contains(a) && #[trigger] self.has_edge(a, b) && !queue@.contains(a)
                            && a != id ==> marked@.contains(b) && found[b] <= found[a] + 1,
                    found[start] == 0,
                    found[id] == level,
                    forall|i: int|
                        0 <= i < queue@.len() ==> level <= found[#[trigger] queue@[i]] <= level + 1,
                    forall|i: int, j: int|
                        0 <= i < j < queue@.len() ==> found[#[trigger] queue@[i]] >= found[
                            #[trigger] queue@[j]],
                    forall|m: u32| #[trigger] marked@.contains(m) ==> found[m] <= level + 1,
                    forall|m: u32|
                        #[trigger] marked@.contains(m) && !queue@.contains(m) ==> found[m] <= level,
                    marked@.finite(),
                    marked@.len() <= self.nodes().len(),
                    self.nodes().len() - marked@.len() + queue@.len() == budget - 1,
                decreases ns@.len() - k,
            {
                let neighbour: u32 = ns[k];
                let ghost marked_before = marked@;
                let ghost queue_before = queue@;
                proof {
                    assert(ns@.contains(neighbour));
                    assert(self.has_edge(id, neighbour));
                    assert(self.has_node(neighbour));
                }
                if marked.insert(neighbour) {
                    stretchs.insert(neighbour, id);
                    queue.push_front(neighbour);
                    proof {
                        found = found.insert(neighbour, found[id] + 1);
                        assert(marked@ =~= found.dom());
                        assert(marked@.subset_of(self.nodes()));
                        vstd::set_lib::lemma_len_subset(marked@, self.nodes());
                        assert forall|i: int| 0 <= i < queue@.len() implies marked@.contains(
                            #[trigger] queue@[i],
                        ) by {
                            if i > 0 {
                                assert(queue@[i] == queue_before[i - 1]);
                            }
                        }
                        assert forall|a: u32, b: u32|
                            marked@.contains(a) && #[trigger] self.has_edge(a, b)
                                && !queue@.contains(a) && a != id implies marked@.contains(b)
                            && found[b] <= found[a] + 1 by {
                            if a == neighbour {
                                assert(queue@[0] == neighbour);
                            } else {
                                if queue_before.contains(a) {
                                    let i = choose|i: int|
                                        0 <= i < queue_before.len() && queue_before[i] == a;
                                    assert(queue@[i + 1] == a);
                                }
                                assert(marked_before.contains(b));
                            }
                        }
                        assert forall|i: int, j: int| 0 <= i < j < queue@.len() implies found[
                            #[trigger] queue@[i]] >= found[#[trigger] queue@[j]] by {
                            assert(queue@[j] == queue_before[j - 1]);
                            if i > 0 {
                                assert(queue@[i] == queue_before[i - 1]);
                            }
                        }
                        assert forall|m: u32|
                            #[trigger] marked@.contains(m) && !queue@.contains(m) implies found[m]
                            <= level by {
                            if m == neighbour {
                                assert(queue@[0] == neighbour);
                            } else if queue_before.contains(m) {
                                let i = choose|i: int|
                                    0 <= i < queue_before.len() && queue_before[i] == m;
                                assert(queue@[i + 1] == m);
                            }
                        }
                    }
                }
                k += 1;
            }
            proof {
                assert forall|a: u32, b: u32|
                    marked@.contains(a) && #[trigger] self.has_edge(a, b) && !queue@.contains(
                        a,
                    ) implies marked@.contains(b) && found[b] <= found[a] + 1 by {
                    if a == id {
                        assert(ns@.contains(b));
                        let j = choose|j: int| 0 <= j < ns@.len() && ns@[j] == b;
                        assert(marked@.contains(ns@[j]));
                    }
                }
            }
        }
        proof {
            assert(self.closed_under_edges(found.dom()));
        }
        (stretchs, Ghost(found))
    }

    /// A path from `start` to `end` with as few edges as any. Where the
    /// graph has no node `start`, the error is `start`; where it has that
    /// one but no node `end`, the error is `end`.
    pub fn shortest_path(&self, start: u32, end: u32) -> (found: Result<Vec<u32>, u32>)
        requires
            self.wf(),
            self.has_node(start) && self.has_node(end) ==> self.reaches(start, end),
        ensures
            match found {
                Ok(path) => {
                    &&& self.has_node(start)
                    &&& self.has_node(end)
                    &&& self.joins(path@, start, end)
                    &&& forall|other: Seq<u32>| #[trigger]
                        self.joins(other, start, end) ==> path@.len() <= other.len()
                },
                Err(id) => (!self.has_node(start) && id == start) || (self.has_node(start)
                    && !self.has_node(end) && id == end),
            },
    {
        broadcast use vstd::std_specs::btree::group_btree_axioms;

        proof {
            lemma_std_orders_u32();
        }
        if !self.adj_table.contains_key(&start) {
            return Err(start);
        } else if !self.adj_table.contains_key(&end) {
            return Err(end);
        }
        let (stretchs, Ghost(depth)) = self.bfs(start);
        proof {
            let walk = choose|walk: Seq<u32>| self.joins(walk, start, end);
            self.lemma_walk_stays(depth.dom(), walk, walk.len() - 1);
        }
        let mut path: Vec<u32> = Vec::new();
        let mut id: u32 = end;
        while id != start
            invariant
                std_orders_u32(),
                self.spans(stretchs@, depth, start),
                depth.contains_key(id),
                depth.contains_key(end),
                path@.len() + depth[id] == depth[end],
                path@.len() == 0 ==> id == end,
                path@.len() > 0 ==> self.has_edge(id, path@[0]) && path@.last() == end
                    && self.is_walk(path@),
            decreases depth[id],
        {
            let ghost above = path@;
            path.insert(0, id);
            proof {
                assert forall|i: int| 0 <= i < path@.len() - 1 implies self.has_edge(
                    #[trigger] path@[i],
                    path@[i + 1],
                ) by {
                    if i > 0 {
                        assert(path@[i] == above[i - 1]);
                        assert(path@[i + 1] == above[i]);
                    }
                }
            }
            id = *stretchs.get(&id).unwrap();
        }
        let ghost above = path@;
        path.insert(0, start);
        proof {
            assert forall|other: Seq<u32>| #[trigger] self.joins(other, start, end) implies path@.len()
                <= other.len() by {
                self.lemma_walk_is_no_shorter(depth, other, other.len() - 1);
            }
            assert forall|i: int| 0 <= i < path@.len() - 1 implies self.has_edge(
                #[trigger] path@[i],
                path@[i + 1],
            ) by {
                if i > 0 {
                    assert(path@[i] == above[i - 1]);
                    assert(path@[i + 1] == above[i]);
                }
            }
        }
        Ok(path)
    }
}

} // verus!
