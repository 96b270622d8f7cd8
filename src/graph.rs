use vstd::prelude::*;

use crate::entity::{Edge, Node};
use std::collections::HashMap;

verus! {

broadcast use vstd::std_specs::hash::group_hash_axioms;

/// Nodes keyed by id, and for each id the directed arcs that leave it.
///
/// An arc is kept under the id it leaves from; its `node_b_id` is where it
/// leads and its `weight` what it costs. Arcs may name ids that have no node:
/// the search treats those as unreachable.
#[derive(Debug)]
pub struct Graph {
    pub nodes: HashMap<i32, Node>,
    pub edges: HashMap<i32, Vec<Edge>>,
}

/// The arcs that `add_edge(e)` appends under id `x`: the forward arc under
/// `e.node_a_id`, then the reverse arc under `e.node_b_id`.
pub open spec fn arcs_added(e: Edge, x: i32) -> Seq<Edge> {
    (if x == e.node_a_id { seq![e] } else { Seq::empty() }) + (if x == e.node_b_id {
        seq![e.reversed()]
    } else {
        Seq::empty()
    })
}

impl Graph {
    /// Whether a node with this id has been added.
    pub open spec fn has_node(&self, id: i32) -> bool {
        self.nodes@.contains_key(id)
    }

    /// The arcs kept under id `u`, in insertion order.
    pub open spec fn arcs_from(&self, u: i32) -> Seq<Edge> {
        if self.edges@.contains_key(u) {
            self.edges@[u]@
        } else {
            Seq::empty()
        }
    }

    /// Every stored arc has a non-negative weight.
    pub open spec fn nonnegative_weights(&self) -> bool {
        forall|u: i32, i: int|
            0 <= i < self.arcs_from(u).len() ==> #[trigger] self.arcs_from(u)[i].weight >= 0
    }

    /// An empty graph.
    pub fn new() -> (g: Self)
        ensures
            g.nodes@ == Map::<i32, Node>::empty(),
            g.edges@ == Map::<i32, Vec<Edge>>::empty(),
            g.nonnegative_weights(),
    {
        Graph { nodes: HashMap::new(), edges: HashMap::new() }
    }

    /// Inserts the node under its id, replacing any node that had that id.
    pub fn add_node(&mut self, node: Node)
        ensures
            final(self).nodes@ == old(self).nodes@.insert(node.id, node),
            final(self).edges@ == old(self).edges@,
            forall|e: Edge| #[trigger] old(self).holds_edge(e) ==> final(self).holds_edge(e),
            old(self).nonnegative_weights() ==> final(self).nonnegative_weights(),
    {
        let ghost before = *self;
        self.nodes.insert(node.id, node);
        assert(forall|x: i32| #[trigger] self.arcs_from(x) == before.arcs_from(x));
    }

    /// Appends the arc `a -> b` under `a` and the arc `b -> a` under `b`, both
    /// with the edge's weight. Neither endpoint needs to be a node.
    pub fn add_edge(&mut self, edge: Edge)
        ensures
            final(self).nodes@ == old(self).nodes@,
            final(self).edges@.dom() == old(self).edges@.dom().insert(edge.node_a_id).insert(
                edge.node_b_id,
            ),
            forall|x: i32| #[trigger]
                final(self).arcs_from(x) == old(self).arcs_from(x) + arcs_added(edge, x),
            final(self).holds_edge(edge),
            forall|e: Edge| #[trigger] old(self).holds_edge(e) ==> final(self).holds_edge(e),
            old(self).nonnegative_weights() && edge.weight >= 0
                ==> final(self).nonnegative_weights(),
    {
        let a = edge.node_a_id;
        let b = edge.node_b_id;
        let w = edge.weight;
        let ghost e = edge;
        let ghost before = *self;

        let mut forward = match self.edges.remove(&a) {
            Some(v) => v,
            None => Vec::new(),
        };
        assert(forward@ == before.arcs_from(a));
        forward.push(Edge { node_a_id: a, node_b_id: b, weight: w });
        self.edges.insert(a, forward);
        let ghost middle = *self;
        assert forall|x: i32| #[trigger]
            middle.arcs_from(x) == before.arcs_from(x) + (if x == a {
                seq![e]
            } else {
                Seq::<Edge>::empty()
            }) by {
            if x != a {
                assert(before.arcs_from(x) + Seq::<Edge>::empty() == before.arcs_from(x));
            }
        }

        let mut backward = match self.edges.remove(&b) {
            Some(v) => v,
            None => Vec::new(),
        };
        assert(backward@ == middle.arcs_from(b));
        backward.push(Edge { node_a_id: b, node_b_id: a, weight: w });
        self.edges.insert(b, backward);
        assert forall|x: i32| #[trigger]
            self.arcs_from(x) == before.arcs_from(x) + arcs_added(e, x) by {
            let fa = if x == a { seq![e] } else { Seq::<Edge>::empty() };
            let fb = if x == b { seq![e.reversed()] } else { Seq::<Edge>::empty() };
            assert(before.arcs_from(x) + (fa + fb) == (before.arcs_from(x) + fa) + fb);
            if x != b {
                assert(middle.arcs_from(x) + Seq::<Edge>::empty() == middle.arcs_from(x));
            }
        }
        assert(self.edges@.dom() =~= before.edges@.dom().insert(a).insert(b));
        assert(self.arcs_from(a)[before.arcs_from(a).len() as int] == e);
        let ghost added_b = arcs_added(e, b);
        assert(added_b[added_b.len() - 1] == e.reversed());
        assert(self.arcs_from(b)[before.arcs_from(b).len() + added_b.len() - 1] == e.reversed());
        assert forall|x: i32, i: int|
            before.nonnegative_weights() && w >= 0 && 0 <= i < self.arcs_from(x).len() implies
            #[trigger] self.arcs_from(x)[i].weight >= 0 by {
            if i >= before.arcs_from(x).len() {
                let added = arcs_added(e, x);
                assert(self.arcs_from(x)[i] == added[i - before.arcs_from(x).len()]);
            } else {
                assert(self.arcs_from(x)[i] == before.arcs_from(x)[i]);
            }
        }
        assert forall|f: Edge| #[trigger] before.holds_edge(f) implies self.holds_edge(f) by {
            let i = choose|i: int|
                0 <= i < before.arcs_from(f.node_a_id).len() && before.arcs_from(f.node_a_id)[i]
                    == f;
            assert(self.arcs_from(f.node_a_id)[i] == f);
            let j = choose|j: int|
                0 <= j < before.arcs_from(f.node_b_id).len() && before.arcs_from(f.node_b_id)[j]
                    == f.reversed();
            assert(self.arcs_from(f.node_b_id)[j] == f.reversed());
        }
    }
}

} // verus!
