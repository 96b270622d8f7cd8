use vstd::prelude::*;

use crate::entity::Edge;
use crate::graph::Graph;
use crate::path::{
    lemma_distance_absent_endpoint, lemma_distance_to_self, lemma_distance_unique,
    lemma_path_endpoints, lemma_path_extend, lemma_path_weight_nonnegative, path_weight,
    saturating_sum, UNREACHABLE,
};
use std::collections::HashMap;
use vstd::std_specs::hash::spec_keys_iter;
use vstd::std_specs::iter::IteratorSpec;

verus! {

broadcast use vstd::std_specs::hash::group_hash_axioms;

/// Where a node stands during one search.
#[derive(Clone, Copy, PartialEq, Eq, Structural, Debug)]
enum Status {
    /// Not reached yet; its tentative distance is `UNREACHABLE`.
    Unvisited,
    /// Reached, with a tentative distance that may still drop.
    Frontier,
    /// Settled: its distance is final.
    Finalized,
}

/// Number of entries that are not yet finalized.
spec fn open_count(st: Seq<Status>) -> nat
    decreases st.len(),
{
    if st.len() == 0 {
        0
    } else {
        open_count(st.drop_last()) + if st.last() == Status::Finalized {
            0nat
        } else {
            1nat
        }
    }
}

proof fn lemma_open_count_update(st: Seq<Status>, i: int, x: Status)
    requires
        0 <= i < st.len(),
    ensures
        open_count(st.update(i, x)) as int == open_count(st) as int - (if st[i]
            != Status::Finalized {
            1int
        } else {
            0int
        }) + (if x != Status::Finalized {
            1int
        } else {
            0int
        }),
    decreases st.len(),
{
    if i == st.len() - 1 {
        assert(st.update(i, x).drop_last() =~= st.drop_last());
    } else {
        lemma_open_count_update(st.drop_last(), i, x);
        assert(st.update(i, x).drop_last() =~= st.drop_last().update(i, x));
    }
}

/// `ids` lists the graph's node ids once each, and `index` maps each of them
/// to its position there.
spec fn dense_index(g: &Graph, ids: Seq<i32>, index: Map<i32, usize>) -> bool {
    &&& forall|k: i32| g.has_node(k) <==> #[trigger] index.contains_key(k)
    &&& forall|k: i32| #[trigger]
        index.contains_key(k) ==> (index[k] as int) < ids.len() && ids[index[k] as int] == k
    &&& forall|j: int| 0 <= j < ids.len() ==> #[trigger] index.contains_key(ids[j])
    &&& forall|j: int| 0 <= j < ids.len() ==> index[#[trigger] ids[j]] == j
}

/// The `k`-th arc kept under the node at position `u` does not improve on
/// the tentative distance of its target.
spec fn arc_relaxed(
    g: &Graph,
    ids: Seq<i32>,
    index: Map<i32, usize>,
    d: Seq<i32>,
    u: int,
    k: int,
) -> bool {
    let e = g.arcs_from(ids[u])[k];
    index.contains_key(e.node_b_id) ==> d[index[e.node_b_id] as int] <= saturating_sum(
        d[u] as int,
        e.weight as int,
    )
}

/// What holds of the tentative distances `d` and statuses `st` of a search
/// from `s` between two steps. All finalized nodes have had their arcs
/// relaxed, except the node at position `pending`, whose first `done` arcs
/// have been.
spec fn search_state(
    g: &Graph,
    s: i32,
    ids: Seq<i32>,
    index: Map<i32, usize>,
    d: Seq<i32>,
    st: Seq<Status>,
    pending: int,
    done: int,
) -> bool {
    &&& d.len() == ids.len()
    &&& st.len() == ids.len()
    &&& index.contains_key(s)
    &&& d[index[s] as int] == 0
    &&& forall|j: int| 0 <= j < d.len() ==> #[trigger] d[j] >= 0
    &&& forall|j: int|
        0 <= j < d.len() && #[trigger] st[j] == Status::Unvisited ==> d[j] == UNREACHABLE
    &&& forall|j: int| 0 <= j < d.len() && #[trigger] st[j] == Status::Frontier ==> d[j] < UNREACHABLE
    &&& forall|j: int|
        0 <= j < d.len() && #[trigger] d[j] < UNREACHABLE ==> g.reaches_within(
            s,
            ids[j],
            d[j] as int,
        )
    &&& forall|j: int|
        0 <= j < d.len() && #[trigger] st[j] == Status::Finalized ==> g.costs_at_least(
            s,
            ids[j],
            d[j] as int,
        )
    &&& forall|i: int, j: int|
        0 <= i < d.len() && 0 <= j < d.len() && #[trigger] st[i] == Status::Finalized
            && #[trigger] st[j] != Status::Finalized ==> d[i] <= d[j]
    &&& forall|j: int, k: int|
        0 <= j < d.len() && st[j] == Status::Finalized && 0 <= k < g.arcs_from(ids[j]).len() && (j
            != pending || k < done) ==> #[trigger] arc_relaxed(g, ids, index, d, j, k)
}

/// Every walk from `s` that ends at a node not yet finalized costs at least
/// `m`, where `m` bounds the tentative distance of every such node.
proof fn lemma_open_nodes_cost_at_least(
    g: &Graph,
    s: i32,
    ids: Seq<i32>,
    index: Map<i32, usize>,
    d: Seq<i32>,
    st: Seq<Status>,
    m: int,
    p: Seq<Edge>,
    v: i32,
)
    requires
        g.nonnegative_weights(),
        dense_index(g, ids, index),
        search_state(g, s, ids, index, d, st, -1, 0),
        forall|j: int| 0 <= j < d.len() && #[trigger] st[j] != Status::Finalized ==> m <= d[j],
        g.is_path(p, s, v),
        st[index[v] as int] != Status::Finalized,
    ensures
        path_weight(p) >= m,
    decreases p.len(),
{
    lemma_path_endpoints(g, p, s, v);
    assert(index.contains_key(v));
    if p.len() == 0 {
        assert(st[index[s] as int] != Status::Finalized);
    } else {
        let e = p.last();
        let x = e.node_a_id;
        let q = p.drop_last();
        lemma_path_endpoints(g, q, s, x);
        assert(index.contains_key(x));
        let xi = index[x] as int;
        let vi = index[v] as int;
        let k = choose|k: int|
            0 <= k < g.arcs_from(x).len() && #[trigger] g.arcs_from(x)[k].node_b_id == e.node_b_id
                && g.arcs_from(x)[k].weight == e.weight;
        assert(g.arcs_from(x)[k].weight >= 0);
        if st[xi] == Status::Finalized {
            assert(ids[xi] == x);
            assert(arc_relaxed(g, ids, index, d, xi, k));
            assert(g.costs_at_least(s, x, d[xi] as int));
            assert(g.is_path(q, s, x));
            assert(path_weight(q) >= d[xi]);
        } else {
            lemma_open_nodes_cost_at_least(g, s, ids, index, d, st, m, q, x);
        }
    }
}

/// Adds two non-negative distances, saturating at `UNREACHABLE`.
fn add_saturating(a: i32, b: i32) -> (r: i32)
    requires
        a >= 0,
        b >= 0,
    ensures
        r == saturating_sum(a as int, b as int),
{
    if a > UNREACHABLE - b {
        UNREACHABLE
    } else {
        a + b
    }
}

/// The position of a frontier entry of least tentative distance, or `None`
/// when the frontier is empty.
fn closest_frontier(d: &Vec<i32>, st: &Vec<Status>) -> (r: Option<usize>)
    requires
        d.len() == st.len(),
    ensures
        match r {
            Some(u) => {
                &&& u < st.len()
                &&& st[u as int] == Status::Frontier
                &&& forall|j: int|
                    0 <= j < st.len() && #[trigger] st[j] == Status::Frontier ==> d[u as int]
                        <= d[j]
            },
            None => forall|j: int| 0 <= j < st.len() ==> #[trigger] st[j] != Status::Frontier,
        },
{
    let mut best: Option<usize> = None;
    let mut j: usize = 0;
    while j < st.len()
        invariant
            j <= st.len(),
            d.len() == st.len(),
            match best {
                Some(u) => {
                    &&& u < j
                    &&& st[u as int] == Status::Frontier
                    &&& forall|i: int|
                        0 <= i < j && #[trigger] st[i] == Status::Frontier ==> d[u as int] <= d[i]
                },
                None => forall|i: int| 0 <= i < j ==> #[trigger] st[i] != Status::Frontier,
            },
        decreases st.len() - j,
    {
        if st[j] == Status::Frontier {
            match best {
                Some(u) => {
                    if d[j] < d[u] {
                        best = Some(j);
                    }
                },
                None => {
                    best = Some(j);
                },
            }
        }
        j = j + 1;
    }
    best
}


/// Relaxes the arcs `arcs` of the node at position `u`, just finalized:
/// each target not yet finalized whose tentative distance the arc improves
/// gets the improved distance and joins the frontier.
fn relax_arcs(
    g: &Graph,
    s: i32,
    arcs: &Vec<Edge>,
    ids: &Vec<i32>,
    index: &HashMap<i32, usize>,
    u: usize,
    d: &mut Vec<i32>,
    st: &mut Vec<Status>,
)
    requires
        g.nonnegative_weights(),
        dense_index(g, ids@, index@),
        u < ids.len(),
        arcs@ == g.arcs_from(ids[u as int]),
        search_state(g, s, ids@, index@, old(d)@, old(st)@, u as int, 0),
        old(st)[u as int] == Status::Finalized,
        old(d)[u as int] < UNREACHABLE,
        forall|j: int|
            0 <= j < old(d).len() && #[trigger] old(st)[j] == Status::Finalized ==> old(d)[j]
                <= old(d)[u as int],
    ensures
        search_state(g, s, ids@, index@, final(d)@, final(st)@, -1, 0),
        final(st)[u as int] == Status::Finalized,
        final(d)[u as int] == old(d)[u as int],
        open_count(final(st)@) == open_count(old(st)@),
        forall|j: int|
            0 <= j < final(st).len() && #[trigger] old(st)[j] == Status::Finalized ==> final(st)[j]
                == Status::Finalized,
        forall|j: int|
            0 <= j < final(st).len() && #[trigger] final(st)[j] == Status::Finalized ==> old(st)[j]
                == Status::Finalized,
{
    let du = d[u];
    let ghost iu = u as int;
    let mut k: usize = 0;
    while k < arcs.len()
        invariant
            g.nonnegative_weights(),
            dense_index(g, ids@, index@),
            u < ids.len(),
            iu == u as int,
            arcs@ == g.arcs_from(ids[iu]),
            k <= arcs.len(),
            search_state(g, s, ids@, index@, d@, st@, iu, k as int),
            st[iu] == Status::Finalized,
            d[iu] == du,
            du < UNREACHABLE,
            forall|j: int|
                0 <= j < d.len() && #[trigger] st[j] == Status::Finalized ==> d[j] <= du,
            open_count(st@) == open_count(old(st)@),
            forall|j: int|
                0 <= j < st.len() && #[trigger] old(st)[j] == Status::Finalized ==> st[j]
                    == Status::Finalized,
            forall|j: int|
                0 <= j < st.len() && #[trigger] st[j] == Status::Finalized ==> old(st)[j]
                    == Status::Finalized,
        decreases arcs.len() - k,
    {
        let v = arcs[k].node_b_id;
        let w = arcs[k].weight;
        assert(g.arcs_from(ids[iu])[k as int].weight >= 0);
        match index.get(&v) {
            None => {
                assert(arc_relaxed(g, ids@, index@, d@, iu, k as int));
            },
            Some(vi_ref) => {
                let vi = *vi_ref;
                if st[vi] != Status::Finalized {
                    assert(d[iu] >= 0);
                    let cand = add_saturating(du, w);
                    if cand < d[vi] {
                        let ghost d0 = d@;
                        let ghost st0 = st@;
                        proof {
                            let e = Edge { node_a_id: ids[iu], node_b_id: v, weight: w };
                            assert(g.arcs_from(e.node_a_id)[k as int].node_b_id == e.node_b_id);
                            assert(index@.contains_key(ids[iu]));
                            assert(index@.contains_key(v));
                            assert(g.is_arc(e));
                            assert(g.reaches_within(s, ids[iu], du as int));
                            let p = choose|p: Seq<Edge>| #[trigger]
                                g.is_path(p, s, ids[iu]) && path_weight(p) <= du;
                            lemma_path_extend(g, p, s, e);
                            assert(g.is_path(p.push(e), s, ids[vi as int]));
                            lemma_open_count_update(st0, vi as int, Status::Frontier);
                        }
                        d.set(vi, cand);
                        st.set(vi, Status::Frontier);
                        proof {
                            assert forall|j: int, kk: int|
                                0 <= j < d.len() && st[j] == Status::Finalized && 0 <= kk
                                    < g.arcs_from(ids[j]).len() && (j != iu || kk < k + 1) implies
                                #[trigger] arc_relaxed(g, ids@, index@, d@, j, kk) by {
                                if j != iu || kk < k {
                                    assert(arc_relaxed(g, ids@, index@, d0, j, kk));
                                }
                            }
                        }
                    } else {
                        assert(arc_relaxed(g, ids@, index@, d@, iu, k as int));
                    }
                } else {
                    assert(arc_relaxed(g, ids@, index@, d@, iu, k as int));
                }
            },
        }
        k = k + 1;
    }
}

impl Graph {
    /// The ids of all nodes, each once.
    fn node_ids(&self) -> (ids: Vec<i32>)
        ensures
            ids@.no_duplicates(),
            forall|k: i32| self.has_node(k) <==> #[trigger] ids@.contains(k),
    {
        let mut ids: Vec<i32> = Vec::new();
        for k in it: self.nodes.keys()
            invariant
                ids@ == it.seq().unref().take(it.index()),
                it.seq() == spec_keys_iter(&self.nodes).remaining(),
        {
            ids.push(*k);
            proof {
                assert(it.seq().unref().take(it.index() + 1) =~= ids@);
            }
        }
        proof {
            let keys = spec_keys_iter(&self.nodes).remaining().unref();
            assert(ids@ =~= keys);
            assert forall|k: i32| self.has_node(k) <==> #[trigger] ids@.contains(k) by {
                if self.has_node(k) {
                    assert(keys.to_set().contains(k));
                }
                if ids@.contains(k) {
                    assert(keys.to_set().contains(k));
                }
            }
        }
        ids
    }
}


/// Maps each id of `ids` to its position.
fn position_index(ids: &Vec<i32>) -> (index: HashMap<i32, usize>)
    requires
        ids@.no_duplicates(),
    ensures
        forall|k: i32| #[trigger] index@.contains_key(k) <==> ids@.contains(k),
        forall|k: i32| #[trigger]
            index@.contains_key(k) ==> (index@[k] as int) < ids.len() && ids[index@[k] as int]
                == k,
        forall|j: int| 0 <= j < ids.len() ==> index@[#[trigger] ids[j]] == j,
{
    let mut index: HashMap<i32, usize> = HashMap::new();
    let mut j: usize = 0;
    while j < ids.len()
        invariant
            j <= ids.len(),
            ids@.no_duplicates(),
            forall|k: i32| #[trigger]
                index@.contains_key(k) <==> exists|i: int| 0 <= i < j && ids[i] == k,
            forall|k: i32| #[trigger]
                index@.contains_key(k) ==> (index@[k] as int) < j && ids[index@[k] as int] == k,
            forall|i: int| 0 <= i < j ==> index@[#[trigger] ids[i]] == i,
        decreases ids.len() - j,
    {
        let ghost before = index@;
        index.insert(ids[j], j);
        assert forall|i: int| 0 <= i < j + 1 implies index@[#[trigger] ids[i]] == i by {
            if i < j {
                assert(ids[i] != ids[j as int]);
            }
        }
        assert forall|k: i32| #[trigger]
            index@.contains_key(k) <==> exists|i: int| 0 <= i < j + 1 && ids[i] == k by {
            if k == ids[j as int] {
                assert(0 <= j < j + 1 && ids[j as int] == k);
            }
        }
        j = j + 1;
    }
    assert forall|k: i32| #[trigger] index@.contains_key(k) <==> ids@.contains(k) by {
        if ids@.contains(k) {
            let i = choose|i: int| 0 <= i < ids.len() && ids[i] == k;
        }
    }
    index
}

impl Graph {
    /// Distance from `from_node_id` to `to_node_id`: the least total weight
    /// of a walk between them, or `i32::MAX` when there is no walk, when
    /// either id is no node, or when every walk costs `i32::MAX` or more.
    /// The graph is left as it is.
    pub fn shortest_path(&self, from_node_id: i32, to_node_id: i32) -> (r: i32)
        requires
            self.nonnegative_weights(),
        ensures
            self.is_distance(from_node_id, to_node_id, r as int),
            !self.has_node(from_node_id) || !self.has_node(to_node_id) ==> r == UNREACHABLE,
            from_node_id == to_node_id && self.has_node(from_node_id) ==> r == 0,
    {
        if !self.nodes.contains_key(&from_node_id) || !self.nodes.contains_key(&to_node_id) {
            proof {
                lemma_distance_absent_endpoint(self, from_node_id, to_node_id);
            }
            return UNREACHABLE;
        }
        let r = self.search(from_node_id, to_node_id);
        proof {
            if from_node_id == to_node_id {
                lemma_distance_to_self(self, from_node_id);
                lemma_distance_unique(self, from_node_id, to_node_id, r as int, 0);
            }
        }
        r
    }

    /// Dijkstra's search from node `s`, stopping when node `t` is settled.
    /// Node ids get dense positions for the duration of the search; the
    /// frontier lives in the status array and its least entry is found by a
    /// scan.
    fn search(&self, s: i32, t: i32) -> (r: i32)
        requires
            self.nonnegative_weights(),
            self.has_node(s),
            self.has_node(t),
        ensures
            self.is_distance(s, t, r as int),
    {
        let ids = self.node_ids();
        let index = position_index(&ids);
        let n = ids.len();
        let mut d: Vec<i32> = vec![UNREACHABLE; n];
        let mut st: Vec<Status> = vec![Status::Unvisited; n];
        assert(index@.contains_key(s));
        assert(index@.contains_key(t));
        let si = *index.get(&s).unwrap();
        let ghost ti = index@[t] as int;
        assert(d@[si as int] == UNREACHABLE);
        d.set(si, 0);
        st.set(si, Status::Frontier);
        assert(self.is_path(Seq::<Edge>::empty(), s, s));
        assert(path_weight(Seq::<Edge>::empty()) == 0);
        assert(forall|j: int| 0 <= j < n && j != si ==> d@[j] == UNREACHABLE);
        assert(forall|j: int| 0 <= j < n && j != si ==> st@[j] == Status::Unvisited);
        assert(dense_index(self, ids@, index@));
        assert(search_state(self, s, ids@, index@, d@, st@, -1, 0));
        loop
            invariant
                self.nonnegative_weights(),
                dense_index(self, ids@, index@),
                search_state(self, s, ids@, index@, d@, st@, -1, 0),
                ti == index@[t] as int,
                0 <= ti < ids.len(),
                ids[ti] == t,
                st[ti] != Status::Finalized,
            decreases open_count(st@),
        {
            match closest_frontier(&d, &st) {
                None => {
                    proof {
                        assert forall|p: Seq<Edge>| #[trigger]
                            self.is_path(p, s, t) implies path_weight(p)
                            >= UNREACHABLE as int by {
                            lemma_open_nodes_cost_at_least(
                                self,
                                s,
                                ids@,
                                index@,
                                d@,
                                st@,
                                UNREACHABLE as int,
                                p,
                                t,
                            );
                        }
                    }
                    return UNREACHABLE;
                },
                Some(u) => {
                    let du = d[u];
                    proof {
                        assert forall|p: Seq<Edge>| #[trigger]
                            self.is_path(p, s, ids[u as int]) implies path_weight(p) >= du by {
                            lemma_open_nodes_cost_at_least(
                                self,
                                s,
                                ids@,
                                index@,
                                d@,
                                st@,
                                du as int,
                                p,
                                ids[u as int],
                            );
                        }
                    }
                    if ids[u] == t {
                        return du;
                    }
                    proof {
                        lemma_open_count_update(st@, u as int, Status::Finalized);
                    }
                    st.set(u, Status::Finalized);
                    match self.edges.get(&ids[u]) {
                        Some(arcs) => {
                            relax_arcs(self, s, arcs, &ids, &index, u, &mut d, &mut st);
                        },
                        None => {
                            assert(self.arcs_from(ids[u as int]).len() == 0);
                            let empty: Vec<Edge> = Vec::new();
                            relax_arcs(self, s, &empty, &ids, &index, u, &mut d, &mut st);
                        },
                    }
                },
            }
        }
    }
}

} // verus!
