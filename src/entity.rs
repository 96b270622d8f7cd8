use vstd::prelude::*;

verus! {

/// A point of the graph: its identity and its position, which the search
/// carries along but never reads.
#[derive(Clone, Copy, Debug)]
pub struct Node {
    pub id: i32,
    pub x: i32,
    pub y: i32,
}

/// A weighted connection from `node_a_id` to `node_b_id`. Inserted into a
/// graph, it stands for both directions at the same cost.
#[derive(Clone, Copy, Debug)]
pub struct Edge {
    pub node_a_id: i32,
    pub node_b_id: i32,
    pub weight: i32,
}

impl Edge {
    /// The same connection travelled the other way.
    pub open spec fn reversed(self) -> Edge {
        Edge { node_a_id: self.node_b_id, node_b_id: self.node_a_id, weight: self.weight }
    }
}

} // verus!
