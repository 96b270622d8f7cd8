use vstd::prelude::*;

use crate::entity::Edge;
use crate::graph::Graph;

verus! {

/// The largest value a distance can take; it also stands for "unreachable".
pub const UNREACHABLE: i32 = i32::MAX;

/// Total weight of a sequence of arcs, as an unbounded integer.
pub open spec fn path_weight(p: Seq<Edge>) -> int
    decreases p.len(),
{
    if p.len() == 0 {
        0
    } else {
        path_weight(p.drop_last()) + p.last().weight
    }
}

/// Saturating sum of two distances: the true sum, or `UNREACHABLE` when it
/// would go beyond.
pub open spec fn saturating_sum(a: int, b: int) -> int {
    if a + b > UNREACHABLE as int {
        UNREACHABLE as int
    } else {
        a + b
    }
}

impl Graph {
    /// `e` is an arc between two nodes: one of the arcs kept under
    /// `e.node_a_id` leads to `e.node_b_id` at cost `e.weight`.
    pub open spec fn is_arc(&self, e: Edge) -> bool {
        &&& self.has_node(e.node_a_id)
        &&& self.has_node(e.node_b_id)
        &&& exists|i: int|
            0 <= i < self.arcs_from(e.node_a_id).len() && #[trigger] self.arcs_from(
                e.node_a_id,
            )[i].node_b_id == e.node_b_id && self.arcs_from(e.node_a_id)[i].weight == e.weight
    }

    /// `p` is a walk of arcs from node `s` to node `t`; the empty walk goes
    /// from a node to itself.
    pub open spec fn is_path(&self, p: Seq<Edge>, s: i32, t: i32) -> bool
        decreases p.len(),
    {
        if p.len() == 0 {
            self.has_node(s) && s == t
        } else {
            &&& self.is_path(p.drop_last(), s, p.last().node_a_id)
            &&& self.is_arc(p.last())
            &&& p.last().node_b_id == t
        }
    }

    /// Some walk from `s` to `t` costs at most `k`.
    pub open spec fn reaches_within(&self, s: i32, t: i32, k: int) -> bool {
        exists|p: Seq<Edge>| #[trigger] self.is_path(p, s, t) && path_weight(p) <= k
    }

    /// Every walk from `s` to `t` costs at least `b`.
    pub open spec fn costs_at_least(&self, s: i32, t: i32, b: int) -> bool {
        forall|p: Seq<Edge>| #[trigger] self.is_path(p, s, t) ==> path_weight(p) >= b
    }

    /// `d` is the distance from `s` to `t`: the least walk cost when that is
    /// below `UNREACHABLE`, and `UNREACHABLE` when no walk costs less (no walk
    /// at all, an endpoint that is no node, or a cost too large to represent).
    pub open spec fn is_distance(&self, s: i32, t: i32, d: int) -> bool {
        &&& 0 <= d <= UNREACHABLE as int
        &&& d < UNREACHABLE as int ==> self.reaches_within(s, t, d)
        &&& self.costs_at_least(s, t, d)
    }

    /// Both arcs of the undirected edge `e` are stored.
    pub open spec fn holds_edge(&self, e: Edge) -> bool {
        &&& self.arcs_from(e.node_a_id).contains(e)
        &&& self.arcs_from(e.node_b_id).contains(e.reversed())
    }
}

/// Both endpoints of a walk are nodes.
pub proof fn lemma_path_endpoints(g: &Graph, p: Seq<Edge>, s: i32, t: i32)
    requires
        g.is_path(p, s, t),
    ensures
        g.has_node(s),
        g.has_node(t),
    decreases p.len(),
{
    if p.len() > 0 {
        lemma_path_endpoints(g, p.drop_last(), s, p.last().node_a_id);
    }
}

/// With non-negative weights no walk costs less than zero.
pub proof fn lemma_path_weight_nonnegative(g: &Graph, p: Seq<Edge>, s: i32, t: i32)
    requires
        g.nonnegative_weights(),
        g.is_path(p, s, t),
    ensures
        path_weight(p) >= 0,
    decreases p.len(),
{
    if p.len() > 0 {
        let e = p.last();
        lemma_path_weight_nonnegative(g, p.drop_last(), s, e.node_a_id);
        let i = choose|i: int|
            0 <= i < g.arcs_from(e.node_a_id).len() && #[trigger] g.arcs_from(
                e.node_a_id,
            )[i].node_b_id == e.node_b_id && g.arcs_from(e.node_a_id)[i].weight == e.weight;
        assert(g.arcs_from(e.node_a_id)[i].weight >= 0);
    }
}

/// A walk to `x` followed by an arc `x -> y` is a walk to `y`.
pub proof fn lemma_path_extend(g: &Graph, p: Seq<Edge>, s: i32, e: Edge)
    requires
        g.is_path(p, s, e.node_a_id),
        g.is_arc(e),
    ensures
        g.is_path(p.push(e), s, e.node_b_id),
        path_weight(p.push(e)) == path_weight(p) + e.weight,
{
    assert(p.push(e).drop_last() =~= p);
}

/// Two walks joined end to end make a walk whose cost is the sum.
pub proof fn lemma_path_concat(g: &Graph, p: Seq<Edge>, q: Seq<Edge>, a: i32, b: i32, c: i32)
    requires
        g.is_path(p, a, b),
        g.is_path(q, b, c),
    ensures
        g.is_path(p + q, a, c),
        path_weight(p + q) == path_weight(p) + path_weight(q),
    decreases q.len(),
{
    if q.len() == 0 {
        assert(p + q =~= p);
    } else {
        let e = q.last();
        lemma_path_concat(g, p, q.drop_last(), a, b, e.node_a_id);
        lemma_path_extend(g, p + q.drop_last(), a, e);
        assert((p + q.drop_last()).push(e) =~= p + q);
    }
}

/// A single arc reaches its target within its weight.
pub proof fn lemma_arc_reaches(g: &Graph, e: Edge)
    requires
        g.is_arc(e),
    ensures
        g.reaches_within(e.node_a_id, e.node_b_id, e.weight as int),
{
    let empty = Seq::<Edge>::empty();
    assert(g.is_path(empty, e.node_a_id, e.node_a_id));
    lemma_path_extend(g, empty, e.node_a_id, e);
    assert(g.is_path(empty.push(e), e.node_a_id, e.node_b_id));
}

/// The distance from a node to itself is zero.
pub proof fn lemma_distance_to_self(g: &Graph, n: i32)
    requires
        g.nonnegative_weights(),
        g.has_node(n),
    ensures
        g.is_distance(n, n, 0),
{
    let empty = Seq::<Edge>::empty();
    assert(g.is_path(empty, n, n));
    assert forall|p: Seq<Edge>| #[trigger] g.is_path(p, n, n) implies path_weight(p) >= 0 by {
        lemma_path_weight_nonnegative(g, p, n, n);
    }
}

/// Where either endpoint is no node, the distance is `UNREACHABLE`.
pub proof fn lemma_distance_absent_endpoint(g: &Graph, s: i32, t: i32)
    requires
        !g.has_node(s) || !g.has_node(t),
    ensures
        g.is_distance(s, t, UNREACHABLE as int),
{
    assert forall|p: Seq<Edge>| #[trigger] g.is_path(p, s, t) implies path_weight(p)
        >= UNREACHABLE as int by {
        lemma_path_endpoints(g, p, s, t);
    }
}

/// A pair of endpoints has at most one distance, so asking twice on an
/// unchanged graph gives the same answer.
pub proof fn lemma_distance_unique(g: &Graph, s: i32, t: i32, d1: int, d2: int)
    requires
        g.is_distance(s, t, d1),
        g.is_distance(s, t, d2),
    ensures
        d1 == d2,
{
    if d1 < d2 {
        let p = choose|p: Seq<Edge>| #[trigger] g.is_path(p, s, t) && path_weight(p) <= d1;
    } else if d2 < d1 {
        let p = choose|p: Seq<Edge>| #[trigger] g.is_path(p, s, t) && path_weight(p) <= d2;
    }
}

/// For a stored edge `(a, b, w)` between two nodes, the distance from `a` to
/// `b` and the distance from `b` to `a` are both at most `w`.
pub proof fn lemma_edge_bounds_distance(g: &Graph, e: Edge, d_ab: int, d_ba: int)
    requires
        g.holds_edge(e),
        g.has_node(e.node_a_id),
        g.has_node(e.node_b_id),
        g.is_distance(e.node_a_id, e.node_b_id, d_ab),
        g.is_distance(e.node_b_id, e.node_a_id, d_ba),
    ensures
        d_ab <= e.weight,
        d_ba <= e.weight,
{
    let fwd = g.arcs_from(e.node_a_id);
    let i = choose|i: int| 0 <= i < fwd.len() && fwd[i] == e;
    assert(fwd[i].node_b_id == e.node_b_id);
    assert(g.is_arc(e));
    lemma_arc_reaches(g, e);
    let p = choose|p: Seq<Edge>| #[trigger] g.is_path(p, e.node_a_id, e.node_b_id) && path_weight(p)
        <= e.weight;

    let r = e.reversed();
    let bwd = g.arcs_from(e.node_b_id);
    let j = choose|j: int| 0 <= j < bwd.len() && bwd[j] == r;
    assert(bwd[j].node_b_id == r.node_b_id);
    assert(g.is_arc(r));
    lemma_arc_reaches(g, r);
    let q = choose|q: Seq<Edge>| #[trigger] g.is_path(q, r.node_a_id, r.node_b_id) && path_weight(q)
        <= r.weight;
}

/// Triangle inequality: the distance from `a` to `c` is at most the saturating
/// sum of the distances from `a` to `b` and from `b` to `c`.
pub proof fn lemma_distance_triangle(
    g: &Graph,
    a: i32,
    b: i32,
    c: i32,
    d_ab: int,
    d_bc: int,
    d_ac: int,
)
    requires
        g.is_distance(a, b, d_ab),
        g.is_distance(b, c, d_bc),
        g.is_distance(a, c, d_ac),
    ensures
        d_ac <= saturating_sum(d_ab, d_bc),
{
    if d_ab < UNREACHABLE as int && d_bc < UNREACHABLE as int {
        let p = choose|p: Seq<Edge>| #[trigger] g.is_path(p, a, b) && path_weight(p) <= d_ab;
        let q = choose|q: Seq<Edge>| #[trigger] g.is_path(q, b, c) && path_weight(q) <= d_bc;
        lemma_path_concat(g, p, q, a, b, c);
        if d_ab + d_bc < UNREACHABLE as int {
            assert(g.is_path(p + q, a, c));
        }
    }
}

} // verus!
