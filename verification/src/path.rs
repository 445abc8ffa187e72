//! Shortest paths: single-source Dijkstra and Bellman-Ford, plus all-pairs and
//! reachability as thin wrappers over the semiring closure.

use crate::error::GraphError;
use crate::graph::{Directedness, Graph};
use crate::matrix::{closure_model, AlgebraLimits, Matrix};
use crate::semiring::{BoolRing, MinPlus, Semiring};
use crate::traversal::{count_true, lemma_count_all_false, lemma_count_true_le, lemma_count_true_set, nones};
use vstd::prelude::*;

verus! {

/// Single-source shortest-path output.
#[derive(Debug, Clone, PartialEq, Eq)]
pub struct PathResult<W> {
    /// Distance to each node, `None` when unreached.
    pub distances: Vec<Option<W>>,
    /// Predecessor of each node on its shortest path, `None` for the source
    /// and unreached nodes.
    pub predecessors: Vec<Option<usize>>,
}

/// The arcs leaving `node` (either way when undirected) as (other end,
/// weight), in edge order.
pub open spec fn arcs_of<N, W>(g: &Graph<N, W>, node: usize) -> Seq<(usize, W)> {
    g.incident(node).map_values(|x: (usize, usize, W)| (x.0, x.2))
}

/// There is a walk of at most `k` arcs from `s` to `v` whose weights, read
/// through `val`, sum to `d`.
pub open spec fn walk<N, W>(g: &Graph<N, W>, val: spec_fn(W) -> int, s: int, v: int, d: int, k: nat) -> bool
    decreases k,
{
    if k == 0 {
        v == s && d == 0
    } else {
        walk(g, val, s, v, d, (k - 1) as nat) || exists|u: int, i: int|
            0 <= i < g.edges@.len() && #[trigger] g.edge_joins(i, u, v) && walk(
                g,
                val,
                s,
                u,
                d - val(g.edges@[i].weight),
                (k - 1) as nat,
            )
    }
}

/// Unsigned weights read as integers.
pub open spec fn u64_weight() -> spec_fn(u64) -> int {
    |w: u64| w as int
}

/// Signed weights read as integers.
pub open spec fn i64_weight() -> spec_fn(i64) -> int {
    |w: i64| w as int
}

/// The arcs leaving `node`, as (other end, weight) pairs in edge order.
fn out_arcs<N, W: Copy>(graph: &Graph<N, W>, node: usize) -> (r: Vec<(usize, W)>)
    ensures
        r@ == arcs_of(graph, node),
{
    let undirected = !graph.is_directed();
    let mut arcs: Vec<(usize, W)> = Vec::new();
    let mut i: usize = 0;
    while i < graph.edges.len()
        invariant
            undirected == graph.undirected(),
            i <= graph.edges@.len(),
            arcs@ == graph.incident_upto(node, i as nat).map_values(|x: (usize, usize, W)| (x.0, x.2)),
        decreases graph.edges@.len() - i,
    {
        let e = &graph.edges[i];
        if e.source == node {
            arcs.push((e.target, e.weight));
        } else if undirected && e.target == node {
            arcs.push((e.source, e.weight));
        }
        proof {
            assert(arcs@ =~= graph.incident_upto(node, (i + 1) as nat).map_values(|x: (usize, usize, W)| (x.0, x.2)));
        }
        i += 1;
    }
    arcs
}

/// A queue entry `(d, x)`: `x` is a node already reached at distance at most
/// `d`, no smaller than the last distance taken; an entry at `x`'s current
/// distance belongs to an unsettled node.
pub open spec fn entry_ok(dist: Seq<Option<u64>>, settled: Seq<bool>, lastd: int, n: nat, e: (u64, usize)) -> bool {
    &&& e.1 < n
    &&& e.0 >= lastd
    &&& dist[e.1 as int] is Some
    &&& dist[e.1 as int]->0 <= e.0
    &&& (e.0 == dist[e.1 as int]->0 ==> !settled[e.1 as int])
}

/// The predecessor of `x` is a reached node joined to `x` by an arc whose
/// weight accounts for the difference in distance.
pub open spec fn pred_link<N>(g: &Graph<N, u64>, dist: Seq<Option<u64>>, pred: Seq<Option<usize>>, x: int) -> bool {
    &&& pred[x] is Some
    &&& pred[x]->0 < g.n()
    &&& dist[pred[x]->0 as int] is Some
    &&& exists|i: int|
        0 <= i < g.edges@.len() && #[trigger] g.edge_joins(i, pred[x]->0 as int, x) && dist[pred[x]->0 as int]->0
            + g.edges@[i].weight == dist[x]->0
}

/// Every arc from `x` is relaxed: its head is reached no further than
/// through `x` (arcs whose sum would overflow excepted).
pub open spec fn relaxed_from<N>(g: &Graph<N, u64>, dist: Seq<Option<u64>>, x: int) -> bool {
    forall|i: int, v: int|
        0 <= i < g.edges@.len() && #[trigger] g.edge_joins(i, x, v) && dist[x]->0 + g.edges@[i].weight <= u64::MAX
            ==> (dist[v] is Some && dist[v]->0 <= dist[x]->0 + g.edges@[i].weight)
}

/// `res` holds shortest distances from `s` over unsigned weights: every
/// distance is the weight of a walk from `s` and hangs off its predecessor
/// by an arc; no arc leaves a reached node towards a longer distance (arcs
/// whose sum would overflow excepted); the source sits at 0.
pub open spec fn is_shortest_u64<N>(g: &Graph<N, u64>, s: usize, res: PathResult<u64>) -> bool {
    let dist = res.distances@;
    let pred = res.predecessors@;
    let n = g.n();
    &&& dist.len() == n
    &&& pred.len() == n
    &&& dist[s as int] == Some(0u64)
    &&& pred[s as int] is None
    &&& forall|v: int| 0 <= v < n ==> (#[trigger] dist[v] matches Some(d) ==> exists|k: nat| walk(g, u64_weight(), s as int, v, d as int, k))
    &&& forall|v: int| 0 <= v < n && v != s && #[trigger] dist[v] is Some ==> pred_link(g, dist, pred, v)
    &&& forall|v: int| 0 <= v < n && #[trigger] dist[v] is None ==> pred[v] is None
    &&& forall|u: int| 0 <= u < n && #[trigger] dist[u] is Some ==> relaxed_from(g, dist, u)
}

/// Dijkstra's distances are least: whenever a walk of at most `k` arcs leads
/// from the source to `v` with total weight `d` that fits in `u64`, `v` is
/// reached at distance at most `d`.
pub proof fn lemma_shortest_u64_is_least<N>(g: &Graph<N, u64>, s: usize, res: PathResult<u64>, v: int, d: int, k: nat)
    requires
        g.endpoints_in_range(),
        (s as int) < g.n(),
        is_shortest_u64(g, s, res),
        walk(g, u64_weight(), s as int, v, d, k),
        d <= u64::MAX,
    ensures
        res.distances@[v] matches Some(dv) && dv <= d,
    decreases k,
{
    if k == 0 {
    } else if walk(g, u64_weight(), s as int, v, d, (k - 1) as nat) {
        lemma_shortest_u64_is_least(g, s, res, v, d, (k - 1) as nat);
    } else {
        let (u, i) = choose|u: int, i: int|
            0 <= i < g.edges@.len() && #[trigger] g.edge_joins(i, u, v) && walk(
                g,
                u64_weight(),
                s as int,
                u,
                d - (u64_weight())(g.edges@[i].weight),
                (k - 1) as nat,
            );
        let w = g.edges@[i].weight;
        lemma_shortest_u64_is_least(g, s, res, u, d - w, (k - 1) as nat);
        assert(0 <= u < g.n()) by {
            assert(g.edges@[i].source < g.n() && g.edges@[i].target < g.n());
        }
        assert(relaxed_from(g, res.distances@, u));
    }
}

/// Dijkstra's algorithm over non-negative `u64` weights, popping the
/// smallest `(distance, node)` entry first. A relaxation whose sum would
/// overflow `u64` is skipped: it yields no shorter path.
pub fn dijkstra<N>(graph: &Graph<N, u64>, source: usize) -> (r: Result<PathResult<u64>, GraphError>)
    ensures
        !graph.valid() ==> (r matches Err(e) && graph.reports(e)),
        graph.valid() && source >= graph.n() ==> r == Err::<PathResult<u64>, GraphError>(
            GraphError::NodeOutOfRange { node: source, count: graph.n() as usize },
        ),
        graph.valid() && source < graph.n() ==> (r matches Ok(res) && is_shortest_u64(graph, source, res)),
{
    graph.validate()?;
    let n = graph.node_count();
    if source >= n {
        return Err(GraphError::NodeOutOfRange { node: source, count: n });
    }
    let mut dist: Vec<Option<u64>> = Vec::new();
    let mut z: usize = 0;
    while z < n
        invariant
            z <= n,
            dist@ == Seq::new(z as nat, |i: int| None::<u64>),
        decreases n - z,
    {
        dist.push(None);
        z += 1;
        assert(dist@ =~= Seq::new(z as nat, |i: int| None::<u64>));
    }
    let mut pred = nones(n);
    let mut heap: Vec<(u64, usize)> = Vec::new();
    dist.set(source, Some(0));
    heap.push((0, source));
    let ghost n0 = n as nat;
    let ghost mut processed: Seq<bool> = Seq::new(n0, |i: int| false);
    let ghost mut hops: Seq<nat> = Seq::new(n0, |i: int| 0nat);
    let ghost mut lastd: int = 0;
    let ghost val = u64_weight();
    proof {
        lemma_count_all_false(n0);
        assert(walk(graph, val, source as int, source as int, 0, 0));
        assert(heap@[0] == (0u64, source));
    }
    while heap.len() > 0
        invariant
            graph.valid(),
            n == graph.n(),
            n0 == n,
            val == u64_weight(),
            source < n,
            dist@.len() == n,
            pred@.len() == n,
            processed.len() == n,
            hops.len() == n,
            lastd >= 0,
            dist@[source as int] == Some(0u64),
            pred@[source as int] is None,
            count_true(processed, n0) <= n0,
            forall|j: int| 0 <= j < heap@.len() ==> entry_ok(dist@, processed, lastd, n0, #[trigger] heap@[j]),
            forall|j1: int, j2: int|
                0 <= j1 < heap@.len() && 0 <= j2 < heap@.len() && j1 != j2 && (#[trigger] heap@[j1]).1 == (#[trigger] heap@[j2]).1
                    ==> heap@[j1].0 != heap@[j2].0,
            forall|x: int| 0 <= x < n && #[trigger] processed[x] ==> (dist@[x] is Some && dist@[x]->0 <= lastd),
            forall|x: int| 0 <= x < n && !#[trigger] processed[x] && dist@[x] is Some ==> exists|j: int|
                0 <= j < heap@.len() && heap@[j] == (dist@[x]->0, x as usize),
            forall|x: int| 0 <= x < n && #[trigger] processed[x] ==> relaxed_from(graph, dist@, x),
            forall|x: int| 0 <= x < n ==> (#[trigger] dist@[x] matches Some(dx) ==> walk(graph, val, source as int, x, dx as int, hops[x])),
            forall|x: int|
                0 <= x < n && x != source && #[trigger] dist@[x] is Some ==> (pred_link(graph, dist@, pred@, x) && processed[pred@[x]->0 as int]),
            forall|x: int| 0 <= x < n && #[trigger] dist@[x] is None ==> pred@[x] is None,
        decreases n0 - count_true(processed, n0), heap@.len(),
    {
        let mut bi: usize = 0;
        let mut k: usize = 1;
        while k < heap.len()
            invariant
                heap@.len() >= 1,
                bi < heap@.len(),
                1 <= k <= heap@.len(),
                forall|j: int| 0 <= j < k ==> heap@[bi as int].0 <= (#[trigger] heap@[j]).0,
            decreases heap@.len() - k,
        {
            if heap[k].0 < heap[bi].0 || (heap[k].0 == heap[bi].0 && heap[k].1 < heap[bi].1) {
                bi = k;
            }
            k += 1;
        }
        let ghost h0 = heap@;
        let (d, u) = heap.remove(bi);
        proof {
            assert((d, u) == h0[bi as int]);
            assert(forall|j: int| 0 <= j < heap@.len() ==> #[trigger] heap@[j] == h0[if j < bi { j } else { j + 1 }]);
            lastd = d as int;
        }
        let best = match dist[u] {
            Some(b) => b,
            None => {
                proof {
                    assert(false);
                }
                0
            },
        };
        if d > best {
            proof {
                assert forall|x: int| 0 <= x < n && !#[trigger] processed[x] && dist@[x] is Some implies exists|j: int|
                    0 <= j < heap@.len() && heap@[j] == (dist@[x]->0, x as usize) by {
                    let j0 = choose|j: int| 0 <= j < h0.len() && h0[j] == (dist@[x]->0, x as usize);
                    assert(j0 != bi);
                    let j = if j0 < bi { j0 } else { j0 - 1 };
                    assert(heap@[j] == h0[j0]);
                }
                assert forall|j1: int, j2: int|
                    0 <= j1 < heap@.len() && 0 <= j2 < heap@.len() && j1 != j2 && (#[trigger] heap@[j1]).1 == (#[trigger] heap@[j2]).1
                        implies heap@[j1].0 != heap@[j2].0 by {
                    let a = if j1 < bi { j1 } else { j1 + 1 };
                    let b = if j2 < bi { j2 } else { j2 + 1 };
                    assert(heap@[j1] == h0[a] && heap@[j2] == h0[b]);
                }
            }
            continue;
        }
        proof {
            assert(d == best);
            assert(!processed[u as int]);
            lemma_count_true_set(processed, u as int, n0);
            processed = processed.update(u as int, true);
            lemma_count_true_le(processed, n0);
            assert forall|x: int| 0 <= x < n && !#[trigger] processed[x] && dist@[x] is Some implies exists|j: int|
                0 <= j < heap@.len() && heap@[j] == (dist@[x]->0, x as usize) by {
                let j0 = choose|j: int| 0 <= j < h0.len() && h0[j] == (dist@[x]->0, x as usize);
                assert(j0 != bi);
                let j = if j0 < bi { j0 } else { j0 - 1 };
                assert(heap@[j] == h0[j0]);
            }
            assert forall|j1: int, j2: int|
                0 <= j1 < heap@.len() && 0 <= j2 < heap@.len() && j1 != j2 && (#[trigger] heap@[j1]).1 == (#[trigger] heap@[j2]).1
                    implies heap@[j1].0 != heap@[j2].0 by {
                let a = if j1 < bi { j1 } else { j1 + 1 };
                let b = if j2 < bi { j2 } else { j2 + 1 };
                assert(heap@[j1] == h0[a] && heap@[j2] == h0[b]);
            }
            assert forall|j: int| 0 <= j < heap@.len() implies entry_ok(dist@, processed, lastd, n0, #[trigger] heap@[j]) by {
                let a = if j < bi { j } else { j + 1 };
                assert(heap@[j] == h0[a]);
                if heap@[j].1 == u {
                    assert(h0[a].0 != h0[bi as int].0);
                }
            }
        }
        let arcs = out_arcs(graph, u);
        proof {
            assert forall|s: int| 0 <= s < arcs@.len() implies (#[trigger] arcs@[s]).0 < n by {
                assert(arcs@[s] == (graph.incident(u)[s].0, graph.incident(u)[s].2));
                graph.lemma_incident_edge(u, graph.edges@.len(), s);
                let i = choose|i: int|
                    0 <= i < graph.edges@.len() && #[trigger] graph.edge_joins(i, u as int, graph.incident(u)[s].0 as int)
                        && graph.edges@[i].weight == graph.incident(u)[s].2 && graph.edges@[i].id == graph.incident(u)[s].1;
                assert(graph.edge_ok(i));
            }
        }
        let mut t: usize = 0;
        while t < arcs.len()
            invariant
                graph.valid(),
                n == graph.n(),
                n0 == n,
                val == u64_weight(),
                source < n,
                u < n,
                arcs@ == arcs_of(graph, u),
                forall|s: int| 0 <= s < arcs@.len() ==> (#[trigger] arcs@[s]).0 < n,
                t <= arcs@.len(),
                lastd == d,
                processed[u as int],
                dist@[u as int] == Some(d),
                dist@.len() == n,
                pred@.len() == n,
                processed.len() == n,
                hops.len() == n,
                dist@[source as int] == Some(0u64),
                pred@[source as int] is None,
                count_true(processed, n0) <= n0,
                forall|j: int| 0 <= j < heap@.len() ==> entry_ok(dist@, processed, lastd, n0, #[trigger] heap@[j]),
                forall|j1: int, j2: int|
                    0 <= j1 < heap@.len() && 0 <= j2 < heap@.len() && j1 != j2 && (#[trigger] heap@[j1]).1 == (#[trigger] heap@[j2]).1
                        ==> heap@[j1].0 != heap@[j2].0,
                forall|x: int| 0 <= x < n && #[trigger] processed[x] ==> (dist@[x] is Some && dist@[x]->0 <= lastd),
                forall|x: int| 0 <= x < n && !#[trigger] processed[x] && dist@[x] is Some ==> exists|j: int|
                    0 <= j < heap@.len() && heap@[j] == (dist@[x]->0, x as usize),
                forall|x: int| 0 <= x < n && x != u && #[trigger] processed[x] ==> relaxed_from(graph, dist@, x),
                forall|s: int| 0 <= s < t && d + (#[trigger] arcs@[s]).1 <= u64::MAX ==> (dist@[arcs@[s].0 as int] is Some && dist@[arcs@[s].0 as int]->0 <= d + arcs@[s].1),
                forall|x: int| 0 <= x < n ==> (#[trigger] dist@[x] matches Some(dx) ==> walk(graph, val, source as int, x, dx as int, hops[x])),
                forall|x: int|
                    0 <= x < n && x != source && #[trigger] dist@[x] is Some ==> (pred_link(graph, dist@, pred@, x) && processed[pred@[x]->0 as int]),
                forall|x: int| 0 <= x < n && #[trigger] dist@[x] is None ==> pred@[x] is None,
            decreases arcs@.len() - t,
        {
            let (v, w) = arcs[t];
            proof {
                assert(arcs@[t as int] == (graph.incident(u)[t as int].0, graph.incident(u)[t as int].2));
                graph.lemma_incident_edge(u, graph.edges@.len(), t as int);
            }
            let ghost ei = choose|i: int|
                0 <= i < graph.edges@.len() && #[trigger] graph.edge_joins(i, u as int, v as int) && graph.edges@[i].weight == w;
            proof {
                assert(graph.edge_ok(ei));
                assert(v < n);
            }
            let ghost dist0 = dist@;
            if let Some(nd) = d.checked_add(w) {
                let improves = match dist[v] {
                    None => true,
                    Some(b) => nd < b,
                };
                if improves {
                    let ghost h1 = heap@;
                    proof {
                        assert(!processed[v as int]) by {
                            if processed[v as int] {
                                assert(dist@[v as int]->0 <= lastd);
                            }
                        }
                        assert(v != source);
                        assert(walk(graph, val, source as int, u as int, d as int, hops[u as int]));
                        assert(walk(graph, val, source as int, v as int, nd as int, hops[u as int] + 1)) by {
                            assert(graph.edge_joins(ei, u as int, v as int));
                            assert(nd - val(graph.edges@[ei].weight) == d);
                        }
                        hops = hops.update(v as int, hops[u as int] + 1);
                    }
                    dist.set(v, Some(nd));
                    pred.set(v, Some(u));
                    heap.push((nd, v));
                    proof {
                        assert forall|j: int| 0 <= j < heap@.len() implies entry_ok(dist@, processed, lastd, n0, #[trigger] heap@[j]) by {
                            if j < h1.len() {
                                assert(heap@[j] == h1[j]);
                            }
                        }
                        assert forall|j1: int, j2: int|
                            0 <= j1 < heap@.len() && 0 <= j2 < heap@.len() && j1 != j2 && (#[trigger] heap@[j1]).1 == (#[trigger] heap@[j2]).1
                                implies heap@[j1].0 != heap@[j2].0 by {
                            if j1 < h1.len() {
                                assert(heap@[j1] == h1[j1]);
                            }
                            if j2 < h1.len() {
                                assert(heap@[j2] == h1[j2]);
                            }
                        }
                        assert forall|x: int| 0 <= x < n && !#[trigger] processed[x] && dist@[x] is Some implies exists|j: int|
                            0 <= j < heap@.len() && heap@[j] == (dist@[x]->0, x as usize) by {
                            if x == v {
                                assert(heap@[heap@.len() - 1] == (nd, v));
                            } else {
                                let j = choose|j: int| 0 <= j < h1.len() && h1[j] == (dist0[x]->0, x as usize);
                                assert(heap@[j] == h1[j]);
                            }
                        }
                        assert forall|x: int| 0 <= x < n && x != u && #[trigger] processed[x] implies relaxed_from(graph, dist@, x) by {
                            assert(relaxed_from(graph, dist0, x));
                            assert(x != v);
                            assert forall|i: int, v2: int|
                                0 <= i < graph.edges@.len() && #[trigger] graph.edge_joins(i, x, v2) && dist@[x]->0 + graph.edges@[i].weight
                                    <= u64::MAX implies (dist@[v2] is Some && dist@[v2]->0 <= dist@[x]->0 + graph.edges@[i].weight) by {
                                assert(graph.edge_ok(i));
                                assert(dist0[v2] is Some && dist0[v2]->0 <= dist0[x]->0 + graph.edges@[i].weight);
                            }
                        }
                        assert forall|x: int|
                            0 <= x < n && x != source && #[trigger] dist@[x] is Some implies (pred_link(graph, dist@, pred@, x) && processed[pred@[x]->0 as int]) by {
                            if x == v {
                                assert(graph.edge_joins(ei, u as int, v as int));
                            } else {
                                let p = pred@[x]->0;
                                assert(processed[p as int]);
                                assert(p != v);
                            }
                        }
                    }
                }
            }
            proof {
                assert forall|s: int| 0 <= s < t + 1 && d + (#[trigger] arcs@[s]).1 <= u64::MAX implies (dist@[arcs@[s].0 as int] is Some && dist@[arcs@[s].0 as int]->0 <= d + arcs@[s].1) by {
                    if s < t {
                        let v2 = arcs@[s].0 as int;
                        assert(v2 < n);
                        assert(dist0[v2] is Some && dist0[v2]->0 <= d + arcs@[s].1);
                    }
                }
            }
            t += 1;
        }
        proof {
            assert forall|i: int, v: int|
                0 <= i < graph.edges@.len() && #[trigger] graph.edge_joins(i, u as int, v) && dist@[u as int]->0 + graph.edges@[i].weight
                    <= u64::MAX implies (dist@[v] is Some && dist@[v]->0 <= dist@[u as int]->0 + graph.edges@[i].weight) by {
                {
                    assert(graph.edge_ok(i));
                    graph.lemma_edge_incident(u, v as usize, i, graph.edges@.len());
                    let s = choose|s: int| 0 <= s < graph.incident(u).len() && (#[trigger] graph.incident(u)[s]).0 == v as usize
                        && graph.incident(u)[s].2 == graph.edges@[i].weight;
                    assert(arcs@[s] == (graph.incident(u)[s].0, graph.incident(u)[s].2));
                }
            }
        }
    }
    proof {
        assert forall|x: int| 0 <= x < n && #[trigger] dist@[x] is Some implies processed[x] by {
            if !processed[x] {
                let j = choose|j: int| 0 <= j < heap@.len() && heap@[j] == (dist@[x]->0, x as usize);
            }
        }
        assert forall|v: int| 0 <= v < n implies (#[trigger] dist@[v] matches Some(dd) ==> exists|k: nat| walk(graph, u64_weight(), source as int, v, dd as int, k)) by {
            if dist@[v] is Some {
                assert(walk(graph, val, source as int, v, dist@[v]->0 as int, hops[v]));
            }
        }
        assert forall|x: int| 0 <= x < n && #[trigger] dist@[x] is Some implies relaxed_from(graph, dist@, x) by {
            assert(processed[x]);
        }
    }
    Ok(PathResult { distances: dist, predecessors: pred })
}

/// The arcs of the graph as (tail, head, weight) triples: each edge as
/// given, followed by its reverse when the graph is undirected.
pub open spec fn arc_list<N, W>(g: &Graph<N, W>, m: nat) -> Seq<(usize, usize, W)>
    decreases m,
{
    if m == 0 {
        Seq::empty()
    } else {
        let prev = arc_list(g, (m - 1) as nat);
        let e = g.edges@[m - 1];
        if g.undirected() {
            prev.push((e.source, e.target, e.weight)).push((e.target, e.source, e.weight))
        } else {
            prev.push((e.source, e.target, e.weight))
        }
    }
}

proof fn lemma_arc_list_edge<N, W>(g: &Graph<N, W>, m: nat, t: int)
    requires
        m <= g.edges@.len(),
        0 <= t < arc_list(g, m).len(),
    ensures
        exists|i: int|
            0 <= i < m && #[trigger] g.edge_joins(i, arc_list(g, m)[t].0 as int, arc_list(g, m)[t].1 as int)
                && g.edges@[i].weight == arc_list(g, m)[t].2,
    decreases m,
{
    let prev = arc_list(g, (m - 1) as nat);
    if t < prev.len() {
        lemma_arc_list_edge(g, (m - 1) as nat, t);
        if g.undirected() {
            assert(arc_list(g, m)[t] == prev[t]);
        } else {
            assert(arc_list(g, m)[t] == prev[t]);
        }
    } else {
        assert(g.edge_joins(m - 1, arc_list(g, m)[t].0 as int, arc_list(g, m)[t].1 as int));
    }
}

proof fn lemma_edge_arc_list<N, W>(g: &Graph<N, W>, m: nat, i: int, u: int, v: int)
    requires
        0 <= i < m <= g.edges@.len(),
        g.edge_joins(i, u, v),
    ensures
        exists|t: int|
            0 <= t < arc_list(g, m).len() && (#[trigger] arc_list(g, m)[t]).0 == u && arc_list(g, m)[t].1 == v
                && arc_list(g, m)[t].2 == g.edges@[i].weight,
    decreases m,
{
    let prev = arc_list(g, (m - 1) as nat);
    if i < m - 1 {
        lemma_edge_arc_list(g, (m - 1) as nat, i, u, v);
        let t = choose|t: int|
            0 <= t < prev.len() && (#[trigger] prev[t]).0 == u && prev[t].1 == v && prev[t].2 == g.edges@[i].weight;
        assert(arc_list(g, m)[t] == prev[t]);
    } else {
        let e = g.edges@[i];
        if e.source == u && e.target == v {
            assert(arc_list(g, m)[prev.len() as int] == (e.source, e.target, e.weight));
        } else {
            assert(arc_list(g, m)[prev.len() as int + 1] == (e.target, e.source, e.weight));
        }
    }
}

/// Every walk of at most `k` arcs from `s` ends at a reached node whose
/// distance is at most the walk's weight.
pub open spec fn bounded_by_walks<N>(g: &Graph<N, i64>, s: usize, dist: Seq<Option<i64>>, k: nat) -> bool {
    forall|v: int, d: int|
        0 <= v < g.n() && #[trigger] walk(g, i64_weight(), s as int, v, d, k) ==> (dist[v] matches Some(dv) && dv <= d)
}

/// One full relaxation pass over the arcs extends the walk bound by one arc.
proof fn lemma_bf_round<N>(
    g: &Graph<N, i64>,
    s: usize,
    start: Seq<Option<i64>>,
    dist: Seq<Option<i64>>,
    arcs: Seq<(usize, usize, i64)>,
    r: nat,
)
    requires
        g.valid(),
        arcs == arc_list(g, g.edges@.len()),
        bounded_by_walks(g, s, start, r),
        forall|x: int| 0 <= x < g.n() && (#[trigger] start[x]) is Some ==> dist[x] is Some && dist[x]->0 <= start[x]->0,
        forall|t: int|
            0 <= t < arcs.len() && start[(#[trigger] arcs[t]).0 as int] is Some ==> dist[arcs[t].1 as int] is Some
                && dist[arcs[t].1 as int]->0 <= start[arcs[t].0 as int]->0 + arcs[t].2,
    ensures
        bounded_by_walks(g, s, dist, r + 1),
{
    assert forall|v: int, d: int|
        0 <= v < g.n() && #[trigger] walk(g, i64_weight(), s as int, v, d, r + 1) implies (dist[v] matches Some(dv) && dv <= d) by {
        if walk(g, i64_weight(), s as int, v, d, r) {
            assert(start[v] is Some);
        } else {
            let (u, i) = choose|u: int, i: int|
                0 <= i < g.edges@.len() && #[trigger] g.edge_joins(i, u, v) && walk(
                    g,
                    i64_weight(),
                    s as int,
                    u,
                    d - (i64_weight())(g.edges@[i].weight),
                    r,
                );
            assert(g.edge_ok(i));
            assert(0 <= u < g.n());
            assert(start[u] is Some);
            lemma_edge_arc_list(g, g.edges@.len(), i, u, v);
            let t = choose|t: int|
                0 <= t < arcs.len() && (#[trigger] arcs[t]).0 == u && arcs[t].1 == v && arcs[t].2 == g.edges@[i].weight;
        }
    }
}

/// Distances at which every arc is relaxed, the source's at most 0, bound
/// every walk.
proof fn lemma_bf_fix<N>(g: &Graph<N, i64>, s: usize, dist: Seq<Option<i64>>, arcs: Seq<(usize, usize, i64)>, k: nat)
    requires
        g.valid(),
        (s as int) < g.n(),
        arcs == arc_list(g, g.edges@.len()),
        dist[s as int] matches Some(d0) && d0 <= 0,
        forall|t: int|
            0 <= t < arcs.len() && dist[(#[trigger] arcs[t]).0 as int] is Some ==> dist[arcs[t].1 as int] is Some
                && dist[arcs[t].1 as int]->0 <= dist[arcs[t].0 as int]->0 + arcs[t].2,
    ensures
        bounded_by_walks(g, s, dist, k),
    decreases k,
{
    if k == 0 {
    } else {
        lemma_bf_fix(g, s, dist, arcs, (k - 1) as nat);
        assert forall|x: int| 0 <= x < g.n() && (#[trigger] dist[x]) is Some implies dist[x] is Some && dist[x]->0 <= dist[x]->0 by {}
        lemma_bf_round(g, s, dist, dist, arcs, (k - 1) as nat);
    }
}

/// Some walk from `s` is lighter than every walk of at most `n - 1` arcs to
/// the same node: the walk form of a negative cycle reachable from `s`, since
/// without one a walk can drop its cycles, never getting heavier, down to a
/// path of at most `n - 1` arcs.
pub open spec fn lighter_than_short_walks<N>(g: &Graph<N, i64>, s: usize) -> bool {
    exists|v: int, d: int, k: nat|
        0 <= v < g.n() && #[trigger] walk(g, i64_weight(), s as int, v, d, k) && forall|d2: int|
            #[trigger] walk(g, i64_weight(), s as int, v, d2, (g.n() - 1) as nat) ==> d < d2
}

/// An arc that still shortens a distance bounded by the short walks gives a
/// walk lighter than every short walk to its head.
proof fn lemma_flag_beats<N>(g: &Graph<N, i64>, s: usize, dist: Seq<Option<i64>>, i: int, u: int, v: int, k: nat)
    requires
        0 <= i < g.edges@.len(),
        g.edge_joins(i, u, v),
        0 <= v < g.n(),
        bounded_by_walks(g, s, dist, (g.n() - 1) as nat),
        dist[u] matches Some(du) && walk(g, i64_weight(), s as int, u, du as int, k),
        dist[v] is None || dist[u]->0 + g.edges@[i].weight < dist[v]->0,
    ensures
        lighter_than_short_walks(g, s),
{
    let du = dist[u]->0;
    let d = du + g.edges@[i].weight;
    assert(walk(g, i64_weight(), s as int, v, d, k + 1)) by {
        assert(d - (i64_weight())(g.edges@[i].weight) == du);
    }
    assert forall|d2: int| #[trigger] walk(g, i64_weight(), s as int, v, d2, (g.n() - 1) as nat) implies d < d2 by {}
}

/// The Bellman-Ford output for signed weights: every reached distance is the
/// weight of a walk from `s`, the source's at most 0; each predecessor is a
/// reached node joined by an arc no longer than the distance difference; the
/// flag reports a negative cycle exactly when some arc can still shorten a
/// distance, and without one every arc is relaxed; and every walk of at most
/// `n - 1` arcs ends at a reached node no farther than its weight.
pub open spec fn is_bellman_ford<N>(g: &Graph<N, i64>, s: usize, res: PathResult<i64>, neg: bool) -> bool {
    let dist = res.distances@;
    let pred = res.predecessors@;
    let n = g.n();
    &&& dist.len() == n
    &&& pred.len() == n
    &&& dist[s as int] matches Some(d0) && d0 <= 0
    &&& bounded_by_walks(g, s, dist, (n - 1) as nat)
    &&& forall|v: int| 0 <= v < n ==> (#[trigger] dist[v] matches Some(d) ==> exists|k: nat| walk(g, i64_weight(), s as int, v, d as int, k))
    &&& forall|v: int|
        0 <= v < n && #[trigger] pred[v] is Some ==> (dist[v] is Some && pred[v]->0 < n && dist[pred[v]->0 as int] is Some
            && exists|i: int|
            0 <= i < g.edges@.len() && #[trigger] g.edge_joins(i, pred[v]->0 as int, v) && dist[pred[v]->0 as int]->0
                + g.edges@[i].weight <= dist[v]->0)
    &&& forall|v: int| 0 <= v < n && #[trigger] dist[v] is None ==> pred[v] is None
    &&& forall|v: int| 0 <= v < n && v != s && #[trigger] dist[v] is Some ==> pred[v] is Some
    &&& neg ==> lighter_than_short_walks(g, s)
    &&& neg <==> exists|i: int, u: int, v: int|
        0 <= i < g.edges@.len() && 0 <= u < n && #[trigger] g.edge_joins(i, u, v) && dist[u] is Some && (dist[v] is None
            || dist[u]->0 + g.edges@[i].weight < dist[v]->0)
}

/// Without a reported negative cycle, Bellman-Ford's distances are least:
/// whenever a walk of at most `k` arcs leads from the source to `v` with
/// total weight `d`, `v` is reached at distance at most `d`.
pub proof fn lemma_bellman_ford_is_least<N>(g: &Graph<N, i64>, s: usize, res: PathResult<i64>, v: int, d: int, k: nat)
    requires
        g.endpoints_in_range(),
        (s as int) < g.n(),
        is_bellman_ford(g, s, res, false),
        walk(g, i64_weight(), s as int, v, d, k),
    ensures
        res.distances@[v] matches Some(dv) && dv <= d,
    decreases k,
{
    if k == 0 {
    } else if walk(g, i64_weight(), s as int, v, d, (k - 1) as nat) {
        lemma_bellman_ford_is_least(g, s, res, v, d, (k - 1) as nat);
    } else {
        let (u, i) = choose|u: int, i: int|
            0 <= i < g.edges@.len() && #[trigger] g.edge_joins(i, u, v) && walk(
                g,
                i64_weight(),
                s as int,
                u,
                d - (i64_weight())(g.edges@[i].weight),
                (k - 1) as nat,
            );
        let w = g.edges@[i].weight;
        lemma_bellman_ford_is_least(g, s, res, u, d - w, (k - 1) as nat);
        assert(0 <= u < g.n()) by {
            assert(g.edges@[i].source < g.n() && g.edges@[i].target < g.n());
        }
    }
}

/// One relaxation of the arc `x = (a, b, w)` on distances `d`: where `a` is
/// reached, the candidate `d[a] + w` replaces an unreached or farther
/// `d[b]`; `None` when the candidate leaves `i64`.
pub open spec fn relax_arc(d: Seq<Option<i64>>, x: (usize, usize, i64)) -> Option<Seq<Option<i64>>> {
    match d[x.0 as int] {
        None => Some(d),
        Some(da) => if !(i64::MIN <= da + x.2 <= i64::MAX) {
            None
        } else {
            let nd = (da + x.2) as i64;
            match d[x.1 as int] {
                Some(best) => if nd < best { Some(d.update(x.1 as int, Some(nd))) } else { Some(d) },
                None => Some(d.update(x.1 as int, Some(nd))),
            }
        },
    }
}

/// The first `t` relaxations of one pass over `arcs`, in order, from `d`;
/// `None` once one overflows.
pub open spec fn relax_pass(arcs: Seq<(usize, usize, i64)>, d: Seq<Option<i64>>, t: nat) -> Option<Seq<Option<i64>>>
    decreases t,
{
    if t == 0 {
        Some(d)
    } else {
        match relax_pass(arcs, d, (t - 1) as nat) {
            None => None,
            Some(d1) => relax_arc(d1, arcs[t - 1]),
        }
    }
}

/// `r` full passes over `arcs` from `d`; `None` once one overflows.
pub open spec fn relax_rounds(arcs: Seq<(usize, usize, i64)>, d: Seq<Option<i64>>, r: nat) -> Option<Seq<Option<i64>>>
    decreases r,
{
    if r == 0 {
        Some(d)
    } else {
        match relax_rounds(arcs, d, (r - 1) as nat) {
            None => None,
            Some(d1) => relax_pass(arcs, d1, arcs.len()),
        }
    }
}

/// The negative-cycle check over the first `t` arcs on distances `d`:
/// `Some(true)` from the first arc out of a reached node whose candidate
/// would still shorten its head on, `Some(false)` when none does, `None`
/// when a candidate before that leaves `i64`.
pub open spec fn check_pass(arcs: Seq<(usize, usize, i64)>, d: Seq<Option<i64>>, t: nat) -> Option<bool>
    decreases t,
{
    if t == 0 {
        Some(false)
    } else {
        match check_pass(arcs, d, (t - 1) as nat) {
            None => None,
            Some(true) => Some(true),
            Some(false) => {
                let x = arcs[t - 1];
                match d[x.0 as int] {
                    None => Some(false),
                    Some(da) => if !(i64::MIN <= da + x.2 <= i64::MAX) {
                        None
                    } else {
                        match d[x.1 as int] {
                            None => Some(true),
                            Some(best) => Some(da + x.2 < best),
                        }
                    },
                }
            },
        }
    }
}

/// What Bellman-Ford computes from `s`: the distances after `n - 1` passes
/// over the arcs (edge order, both ways when undirected) from the source at
/// 0 and every other node unreached, and the negative-cycle flag of the
/// check pass; `None` when a relaxation or check candidate leaves `i64`.
pub open spec fn bf_outcome<N>(g: &Graph<N, i64>, s: usize) -> Option<(Seq<Option<i64>>, bool)> {
    let arcs = arc_list(g, g.edges@.len());
    let d0 = Seq::new(g.n(), |i: int| None::<i64>).update(s as int, Some(0i64));
    match relax_rounds(arcs, d0, (g.n() - 1) as nat) {
        None => None,
        Some(d) => match check_pass(arcs, d, arcs.len()) {
            None => None,
            Some(neg) => Some((d, neg)),
        },
    }
}

/// An overflow ends every later pass.
proof fn lemma_rounds_none(arcs: Seq<(usize, usize, i64)>, d: Seq<Option<i64>>, r: nat, m: nat)
    requires
        relax_rounds(arcs, d, r) is None,
        r <= m,
    ensures
        relax_rounds(arcs, d, m) is None,
    decreases m,
{
    if m > r {
        lemma_rounds_none(arcs, d, r, (m - 1) as nat);
    }
}

/// A pass that changes nothing is a fixed point of every later pass.
proof fn lemma_rounds_fixed(arcs: Seq<(usize, usize, i64)>, d: Seq<Option<i64>>, e: Seq<Option<i64>>, r: nat, m: nat)
    requires
        relax_rounds(arcs, d, r) == Some(e),
        relax_pass(arcs, e, arcs.len()) == Some(e),
        r <= m,
    ensures
        relax_rounds(arcs, d, m) == Some(e),
    decreases m,
{
    if m > r {
        lemma_rounds_fixed(arcs, d, e, r, (m - 1) as nat);
    }
}

/// An overflow within a pass ends the pass.
proof fn lemma_pass_none(arcs: Seq<(usize, usize, i64)>, d: Seq<Option<i64>>, t: nat, m: nat)
    requires
        relax_pass(arcs, d, t) is None,
        t <= m,
    ensures
        relax_pass(arcs, d, m) is None,
    decreases m,
{
    if m > t {
        lemma_pass_none(arcs, d, t, (m - 1) as nat);
    }
}

/// Once the check has decided or overflowed, later arcs change nothing.
proof fn lemma_check_settled(arcs: Seq<(usize, usize, i64)>, d: Seq<Option<i64>>, t: nat, m: nat)
    requires
        check_pass(arcs, d, t) != Some(false),
        t <= m,
    ensures
        check_pass(arcs, d, m) == check_pass(arcs, d, t),
    decreases m,
{
    if m > t {
        lemma_check_settled(arcs, d, t, (m - 1) as nat);
    }
}

/// Without a reported negative cycle, Bellman-Ford's predecessors form a
/// shortest-path tree: every node other than the source that is reached has
/// a predecessor, itself reached, and an edge from it whose weight is exactly
/// the difference of their distances.
pub proof fn lemma_bellman_ford_predecessor_tree<N>(g: &Graph<N, i64>, s: usize, res: PathResult<i64>, v: int)
    requires
        g.valid(),
        (s as int) < g.n(),
        is_bellman_ford(g, s, res, false),
        0 <= v < g.n(),
        v != s,
        res.distances@[v] is Some,
    ensures
        res.predecessors@[v] matches Some(u) && (u as int) < g.n() && res.distances@[u as int] is Some && exists|i: int|
            0 <= i < g.edges@.len() && #[trigger] g.edge_joins(i, u as int, v) && res.distances@[u as int]->0
                + g.edges@[i].weight == res.distances@[v]->0,
{
    let dist = res.distances@;
    let pred = res.predecessors@;
    assert(pred[v] is Some);
    let u = pred[v]->0 as int;
    let i = choose|i: int|
        0 <= i < g.edges@.len() && #[trigger] g.edge_joins(i, u, v) && dist[u]->0 + g.edges@[i].weight <= dist[v]->0;
    assert(g.edge_joins(i, u, v));
    assert(!(dist[v] is None || dist[u]->0 + g.edges@[i].weight < dist[v]->0));
}

/// Bellman-Ford over signed `i64` weights: up to `n - 1` relaxation rounds
/// over all arcs (stopping early once a round changes nothing), then a final
/// pass that reports whether a negative cycle is reachable. A relaxation whose
/// sum overflows `i64` fails with `WeightOverflow` rather than wrapping.
pub fn bellman_ford<N>(graph: &Graph<N, i64>, source: usize) -> (r: Result<(PathResult<i64>, bool), GraphError>)
    ensures
        !graph.valid() ==> (r matches Err(e) && graph.reports(e)),
        graph.valid() && source >= graph.n() ==> r == Err::<(PathResult<i64>, bool), GraphError>(
            GraphError::NodeOutOfRange { node: source, count: graph.n() as usize },
        ),
        graph.valid() && source < graph.n() ==> (match r {
            Ok((res, neg)) => is_bellman_ford(graph, source, res, neg),
            Err(e) => e is WeightOverflow,
        }),
        graph.valid() && source < graph.n() ==> (r is Ok <==> bf_outcome(graph, source) is Some),
        r matches Ok((res, neg)) ==> bf_outcome(graph, source) == Some((res.distances@, neg)),
{
    graph.validate()?;
    let n = graph.node_count();
    if source >= n {
        return Err(GraphError::NodeOutOfRange { node: source, count: n });
    }
    let undirected = !graph.is_directed();
    let mut arcs: Vec<(usize, usize, i64)> = Vec::new();
    let mut ei: usize = 0;
    while ei < graph.edges.len()
        invariant
            undirected == graph.undirected(),
            ei <= graph.edges@.len(),
            arcs@ == arc_list(graph, ei as nat),
        decreases graph.edges@.len() - ei,
    {
        let e = &graph.edges[ei];
        arcs.push((e.source, e.target, e.weight));
        if undirected {
            arcs.push((e.target, e.source, e.weight));
        }
        ei += 1;
    }
    proof {
        assert forall|t: int| 0 <= t < arcs@.len() implies (#[trigger] arcs@[t]).0 < n && arcs@[t].1 < n by {
            lemma_arc_list_edge(graph, graph.edges@.len(), t);
            let i = choose|i: int|
                0 <= i < graph.edges@.len() && #[trigger] graph.edge_joins(i, arcs@[t].0 as int, arcs@[t].1 as int)
                    && graph.edges@[i].weight == arcs@[t].2;
            assert(graph.edge_ok(i));
        }
    }
    let mut dist: Vec<Option<i64>> = Vec::new();
    let mut z: usize = 0;
    while z < n
        invariant
            z <= n,
            dist@ == Seq::new(z as nat, |i: int| None::<i64>),
        decreases n - z,
    {
        dist.push(None);
        z += 1;
        assert(dist@ =~= Seq::new(z as nat, |i: int| None::<i64>));
    }
    let mut pred = nones(n);
    dist.set(source, Some(0));
    let ghost d0 = dist@;
    proof {
        assert(d0 =~= Seq::new(graph.n(), |i: int| None::<i64>).update(source as int, Some(0i64)));
    }
    let ghost val = i64_weight();
    let ghost mut hops: Seq<nat> = Seq::new(n as nat, |i: int| 0nat);
    proof {
        assert(walk(graph, val, source as int, source as int, 0, 0));
    }
    let rounds = if n > 0 {
        n - 1
    } else {
        0
    };
    let mut round: usize = 0;
    while round < rounds
        invariant
            graph.valid(),
            n == graph.n(),
            source < n,
            val == i64_weight(),
            arcs@ == arc_list(graph, graph.edges@.len()),
            forall|t: int| 0 <= t < arcs@.len() ==> (#[trigger] arcs@[t]).0 < n && arcs@[t].1 < n,
            dist@.len() == n,
            pred@.len() == n,
            hops.len() == n,
            dist@[source as int] matches Some(d0) && d0 <= 0,
            forall|x: int| 0 <= x < n ==> (#[trigger] dist@[x] matches Some(dx) ==> walk(graph, val, source as int, x, dx as int, hops[x])),
            forall|x: int|
                0 <= x < n && #[trigger] pred@[x] is Some ==> (dist@[x] is Some && pred@[x]->0 < n && dist@[pred@[x]->0 as int] is Some
                    && exists|i: int|
                    0 <= i < graph.edges@.len() && #[trigger] graph.edge_joins(i, pred@[x]->0 as int, x) && dist@[pred@[x]->0 as int]->0
                        + graph.edges@[i].weight <= dist@[x]->0),
            forall|x: int| 0 <= x < n && #[trigger] dist@[x] is None ==> pred@[x] is None,
            forall|x: int| 0 <= x < n && x != source && #[trigger] dist@[x] is Some ==> pred@[x] is Some,
            bounded_by_walks(graph, source, dist@, round as nat),
            relax_rounds(arcs@, d0, round as nat) == Some(dist@),
            d0 == Seq::new(graph.n(), |i: int| None::<i64>).update(source as int, Some(0i64)),
            round <= rounds,
            rounds == n - 1,
        ensures
            bounded_by_walks(graph, source, dist@, rounds as nat),
            relax_rounds(arcs@, d0, rounds as nat) == Some(dist@),
            dist@.len() == n,
            pred@.len() == n,
            hops.len() == n,
            dist@[source as int] matches Some(d0) && d0 <= 0,
            forall|x: int| 0 <= x < n ==> (#[trigger] dist@[x] matches Some(dx) ==> walk(graph, val, source as int, x, dx as int, hops[x])),
            forall|x: int|
                0 <= x < n && #[trigger] pred@[x] is Some ==> (dist@[x] is Some && pred@[x]->0 < n && dist@[pred@[x]->0 as int] is Some
                    && exists|i: int|
                    0 <= i < graph.edges@.len() && #[trigger] graph.edge_joins(i, pred@[x]->0 as int, x) && dist@[pred@[x]->0 as int]->0
                        + graph.edges@[i].weight <= dist@[x]->0),
            forall|x: int| 0 <= x < n && #[trigger] dist@[x] is None ==> pred@[x] is None,
            forall|x: int| 0 <= x < n && x != source && #[trigger] dist@[x] is Some ==> pred@[x] is Some,
        decreases rounds - round,
    {
        let mut changed = false;
        let ghost start = dist@;
        let mut t: usize = 0;
        while t < arcs.len()
            invariant
                start.len() == n,
                forall|x: int| 0 <= x < n && (#[trigger] start[x]) is Some ==> dist@[x] is Some && dist@[x]->0 <= start[x]->0,
                forall|tt: int|
                    0 <= tt < t && start[(#[trigger] arcs@[tt]).0 as int] is Some ==> dist@[arcs@[tt].1 as int] is Some
                        && dist@[arcs@[tt].1 as int]->0 <= start[arcs@[tt].0 as int]->0 + arcs@[tt].2,
                !changed ==> dist@ == start,
                relax_rounds(arcs@, d0, round as nat) == Some(start),
                d0 == Seq::new(graph.n(), |i: int| None::<i64>).update(source as int, Some(0i64)),
                relax_pass(arcs@, start, t as nat) == Some(dist@),
                round < rounds,
                rounds == n - 1,
                graph.valid(),
                n == graph.n(),
                source < n,
                val == i64_weight(),
                arcs@ == arc_list(graph, graph.edges@.len()),
                forall|t: int| 0 <= t < arcs@.len() ==> (#[trigger] arcs@[t]).0 < n && arcs@[t].1 < n,
                t <= arcs@.len(),
                dist@.len() == n,
                pred@.len() == n,
                hops.len() == n,
                dist@[source as int] matches Some(d0) && d0 <= 0,
                forall|x: int| 0 <= x < n ==> (#[trigger] dist@[x] matches Some(dx) ==> walk(graph, val, source as int, x, dx as int, hops[x])),
                forall|x: int|
                    0 <= x < n && #[trigger] pred@[x] is Some ==> (dist@[x] is Some && pred@[x]->0 < n && dist@[pred@[x]->0 as int] is Some
                        && exists|i: int|
                        0 <= i < graph.edges@.len() && #[trigger] graph.edge_joins(i, pred@[x]->0 as int, x)
                            && dist@[pred@[x]->0 as int]->0 + graph.edges@[i].weight <= dist@[x]->0),
                forall|x: int| 0 <= x < n && #[trigger] dist@[x] is None ==> pred@[x] is None,
                forall|x: int| 0 <= x < n && x != source && #[trigger] dist@[x] is Some ==> pred@[x] is Some,
            decreases arcs@.len() - t,
        {
            let (a, b, w) = arcs[t];
            let ghost dbefore = dist@;
            if let Some(da) = dist[a] {
                let nd = match da.checked_add(w) {
                    Some(x) => x,
                    None => {
                        proof {
                            assert(arcs@[t as int] == (a, b, w));
                            assert(relax_pass(arcs@, start, (t + 1) as nat) is None);
                            lemma_pass_none(arcs@, start, (t + 1) as nat, arcs@.len());
                            assert(relax_rounds(arcs@, d0, (round + 1) as nat) is None);
                            lemma_rounds_none(arcs@, d0, (round + 1) as nat, rounds as nat);
                            assert(bf_outcome(graph, source) is None);
                        }
                        return Err(GraphError::WeightOverflow("Bellman-Ford relaxation".to_string()));
                    },
                };
                let improves = match dist[b] {
                    None => true,
                    Some(best) => nd < best,
                };
                if improves {
                    proof {
                        lemma_arc_list_edge(graph, graph.edges@.len(), t as int);
                    }
                    let ghost i0 = choose|i: int|
                        0 <= i < graph.edges@.len() && #[trigger] graph.edge_joins(i, a as int, b as int) && graph.edges@[i].weight == w;
                    let ghost dist0 = dist@;
                    proof {
                        assert(walk(graph, val, source as int, a as int, da as int, hops[a as int]));
                        assert(walk(graph, val, source as int, b as int, nd as int, hops[a as int] + 1)) by {
                            assert(graph.edge_joins(i0, a as int, b as int));
                            assert(nd - val(graph.edges@[i0].weight) == da);
                        }
                        hops = hops.update(b as int, hops[a as int] + 1);
                    }
                    let ghost dprev = dist@;
                    dist.set(b, Some(nd));
                    pred.set(b, Some(a));
                    changed = true;
                    proof {
                        assert forall|x: int| 0 <= x < n && (#[trigger] start[x]) is Some implies dist@[x] is Some && dist@[x]->0 <= start[x]->0 by {
                            assert(dprev[x] is Some);
                        }
                        assert forall|tt: int|
                            0 <= tt < t + 1 && start[(#[trigger] arcs@[tt]).0 as int] is Some implies dist@[arcs@[tt].1 as int] is Some
                                && dist@[arcs@[tt].1 as int]->0 <= start[arcs@[tt].0 as int]->0 + arcs@[tt].2 by {
                            if tt < t {
                                assert(dprev[arcs@[tt].1 as int] is Some);
                            } else {
                                assert(arcs@[tt] == (a, b, w));
                            }
                        }
                    }
                    proof {
                        assert forall|x: int|
                            0 <= x < n && #[trigger] pred@[x] is Some implies (dist@[x] is Some && pred@[x]->0 < n && dist@[pred@[x]->0 as int] is Some
                                && exists|i: int|
                                0 <= i < graph.edges@.len() && #[trigger] graph.edge_joins(i, pred@[x]->0 as int, x)
                                    && dist@[pred@[x]->0 as int]->0 + graph.edges@[i].weight <= dist@[x]->0) by {
                            if x == b {
                                assert(graph.edge_joins(i0, a as int, b as int));
                                if a == b {
                                    assert(w < 0);
                                }
                            } else {
                                let p = pred@[x]->0;
                                let i = choose|i: int|
                                    0 <= i < graph.edges@.len() && #[trigger] graph.edge_joins(i, p as int, x) && dist0[p as int]->0
                                        + graph.edges@[i].weight <= dist0[x]->0;
                                assert(graph.edge_joins(i, p as int, x));
                            }
                        }
                    }
                }
            }
            proof {
                assert forall|tt: int|
                    0 <= tt < t + 1 && start[(#[trigger] arcs@[tt]).0 as int] is Some implies dist@[arcs@[tt].1 as int] is Some
                        && dist@[arcs@[tt].1 as int]->0 <= start[arcs@[tt].0 as int]->0 + arcs@[tt].2 by {
                    if tt == t {
                        assert(arcs@[tt] == (a, b, w));
                        assert(dist@[a as int] is Some);
                    }
                }
                assert(arcs@[t as int] == (a, b, w));
                assert(relax_arc(dbefore, arcs@[t as int]) == Some(dist@));
                assert(relax_pass(arcs@, start, (t + 1) as nat) == Some(dist@));
            }
            t += 1;
        }
        proof {
            lemma_bf_round(graph, source, start, dist@, arcs@, round as nat);
        }
        proof {
            assert(relax_rounds(arcs@, d0, (round + 1) as nat) == Some(dist@));
        }
        round += 1;
        if !changed {
            proof {
                lemma_bf_fix(graph, source, dist@, arcs@, rounds as nat);
                lemma_rounds_fixed(arcs@, d0, dist@, round as nat, rounds as nat);
            }
            break;
        }
    }
    let mut negative_cycle = false;
    let mut t: usize = 0;
    while t < arcs.len()
        invariant_except_break
            !negative_cycle,
            check_pass(arcs@, dist@, t as nat) == Some(false),
        invariant
            relax_rounds(arcs@, d0, rounds as nat) == Some(dist@),
            d0 == Seq::new(graph.n(), |i: int| None::<i64>).update(source as int, Some(0i64)),
            graph.valid(),
            n == graph.n(),
            source < n,
            arcs@ == arc_list(graph, graph.edges@.len()),
            forall|t: int| 0 <= t < arcs@.len() ==> (#[trigger] arcs@[t]).0 < n && arcs@[t].1 < n,
            t <= arcs@.len(),
            dist@.len() == n,
            hops.len() == n,
            forall|x: int| 0 <= x < n ==> (#[trigger] dist@[x] matches Some(dx) ==> walk(graph, i64_weight(), source as int, x, dx as int, hops[x])),
            rounds + 1 == n,
            forall|s: int|
                0 <= s < t && dist@[(#[trigger] arcs@[s]).0 as int] is Some ==> (dist@[arcs@[s].1 as int] is Some
                    && dist@[arcs@[s].1 as int]->0 <= dist@[arcs@[s].0 as int]->0 + arcs@[s].2),
        ensures
            negative_cycle ==> check_pass(arcs@, dist@, arcs@.len()) == Some(true),
            !negative_cycle ==> check_pass(arcs@, dist@, arcs@.len()) == Some(false),
            negative_cycle ==> exists|s: int|
                0 <= s < arcs@.len() && dist@[(#[trigger] arcs@[s]).0 as int] is Some && (dist@[arcs@[s].1 as int] is None
                    || dist@[arcs@[s].0 as int]->0 + arcs@[s].2 < dist@[arcs@[s].1 as int]->0),
            !negative_cycle ==> forall|s: int|
                0 <= s < arcs@.len() && dist@[(#[trigger] arcs@[s]).0 as int] is Some ==> (dist@[arcs@[s].1 as int] is Some
                    && dist@[arcs@[s].1 as int]->0 <= dist@[arcs@[s].0 as int]->0 + arcs@[s].2),
        decreases arcs@.len() - t,
    {
        let (a, b, w) = arcs[t];
        if let Some(da) = dist[a] {
            let nd = match da.checked_add(w) {
                Some(x) => x,
                None => {
                    proof {
                        assert(arcs@[t as int] == (a, b, w));
                        assert(check_pass(arcs@, dist@, (t + 1) as nat) is None);
                        lemma_check_settled(arcs@, dist@, (t + 1) as nat, arcs@.len());
                        assert(bf_outcome(graph, source) is None);
                    }
                    return Err(GraphError::WeightOverflow("Bellman-Ford cycle check".to_string()));
                },
            };
            let violates = match dist[b] {
                None => true,
                Some(best) => nd < best,
            };
            if violates {
                negative_cycle = true;
                proof {
                    assert(arcs@[t as int] == (a, b, w));
                    assert(check_pass(arcs@, dist@, (t + 1) as nat) == Some(true));
                    lemma_check_settled(arcs@, dist@, (t + 1) as nat, arcs@.len());
                    assert(dist@[arcs@[t as int].0 as int] is Some);
                    assert(dist@[arcs@[t as int].1 as int] is None || dist@[arcs@[t as int].0 as int]->0 + arcs@[t as int].2
                        < dist@[arcs@[t as int].1 as int]->0);
                }
                break;
            }
        }
        proof {
            assert(arcs@[t as int] == (a, b, w));
            assert(check_pass(arcs@, dist@, (t + 1) as nat) == Some(false));
        }
        t += 1;
    }
    proof {
        let dd = dist@;
        if negative_cycle {
            let s = choose|s: int|
                0 <= s < arcs@.len() && dist@[(#[trigger] arcs@[s]).0 as int] is Some && (dist@[arcs@[s].1 as int] is None
                    || dist@[arcs@[s].0 as int]->0 + arcs@[s].2 < dist@[arcs@[s].1 as int]->0);
            lemma_arc_list_edge(graph, graph.edges@.len(), s);
            let i = choose|i: int|
                0 <= i < graph.edges@.len() && #[trigger] graph.edge_joins(i, arcs@[s].0 as int, arcs@[s].1 as int)
                    && graph.edges@[i].weight == arcs@[s].2;
            assert(graph.edge_joins(i, arcs@[s].0 as int, arcs@[s].1 as int));
            assert(graph.edge_ok(i));
            let a = arcs@[s].0 as int;
            assert(walk(graph, val, source as int, a, dd[a]->0 as int, hops[a]));
            lemma_flag_beats(graph, source, dd, i, a, arcs@[s].1 as int, hops[a]);
        } else {
            assert forall|i: int, u: int, v: int|
                0 <= i < graph.edges@.len() && 0 <= u < n && #[trigger] graph.edge_joins(i, u, v) && dd[u] is Some implies !(dd[v] is None
                    || dd[u]->0 + graph.edges@[i].weight < dd[v]->0) by {
                lemma_edge_arc_list(graph, graph.edges@.len(), i, u, v);
                let s = choose|s: int|
                    0 <= s < arcs@.len() && (#[trigger] arcs@[s]).0 == u && arcs@[s].1 == v && arcs@[s].2 == graph.edges@[i].weight;
                assert(dist@[arcs@[s].0 as int] is Some);
            }
        }
        assert forall|v: int| 0 <= v < n implies (#[trigger] dd[v] matches Some(d) ==> exists|k: nat| walk(graph, i64_weight(), source as int, v, d as int, k)) by {
            if dd[v] is Some {
                assert(walk(graph, val, source as int, v, dd[v]->0 as int, hops[v]));
            }
        }
    }
    Ok((PathResult { distances: dist, predecessors: pred }, negative_cycle))
}

/// The min-plus adjacency of the first `m` edges: each cell the semiring
/// sum (the minimum) of the weights of the edges joining its row to its
/// column, `Inf` where none does.
pub open spec fn minplus_upto<N>(g: &Graph<N, i64>, m: nat) -> Seq<MinPlus>
    decreases m,
{
    let n = g.n();
    if m == 0 {
        Seq::new(n * n, |k: int| MinPlus::Inf)
    } else {
        let prev = minplus_upto(g, (m - 1) as nat);
        let e = g.edges@[m - 1];
        let a = e.source * n + e.target;
        let once = prev.update(a, MinPlus::add_v(prev[a], MinPlus::Fin(e.weight)));
        if g.undirected() {
            let b = e.target * n + e.source;
            once.update(b, MinPlus::add_v(once[b], MinPlus::Fin(e.weight)))
        } else {
            once
        }
    }
}

/// The boolean adjacency of the first `m` edges: a cell is set when some
/// edge joins its row to its column.
pub open spec fn bool_adjacency_upto<N, W>(g: &Graph<N, W>, m: nat) -> Seq<bool>
    decreases m,
{
    let n = g.n();
    if m == 0 {
        Seq::new(n * n, |k: int| false)
    } else {
        let prev = bool_adjacency_upto(g, (m - 1) as nat);
        let e = g.edges@[m - 1];
        let once = prev.update(e.source * n + e.target, true);
        if g.undirected() {
            once.update(e.target * n + e.source, true)
        } else {
            once
        }
    }
}

proof fn lemma_cell_in_range(n: nat, r: nat, c: nat)
    requires
        r < n,
        c < n,
    ensures
        r * n + c < n * n,
{
    assert(r * n + c < n * n) by (nonlinear_arith)
        requires
            r < n,
            c < n,
    ;
}

/// All-pairs shortest paths as the Kleene closure of the min-plus adjacency
/// (parallel edges keep the cheapest). A diverging closure reports a
/// negative cycle; more than the default closure limit of nodes is refused.
pub fn all_pairs_shortest_paths<N>(graph: &Graph<N, i64>) -> (r: Result<Matrix<MinPlus>, GraphError>)
    requires
        graph.n() * graph.n() <= usize::MAX,
    ensures
        !graph.valid() ==> (r matches Err(e) && graph.reports(e)),
        graph.valid() ==> (if graph.n() > 1024 {
            r matches Err(e) && e is Unsupported
        } else {
            match closure_model::<MinPlus>(minplus_upto(graph, graph.edges@.len()), graph.n()) {
                None => r == Err::<Matrix<MinPlus>, GraphError>(GraphError::NegativeCycle),
                Some(c) => r matches Ok(m) && m.rows == graph.n() && m.cols == graph.n() && m.cells() == c,
            }
        }),
{
    graph.validate()?;
    let n = graph.node_count();
    let undirected = !graph.is_directed();
    let mut m = Matrix::filled(n, n, MinPlus::Inf);
    proof {
        assert(m.cells() =~= minplus_upto(graph, 0));
    }
    let mut i: usize = 0;
    while i < graph.edges.len()
        invariant
            graph.valid(),
            n == graph.n(),
            n * n <= usize::MAX,
            undirected == graph.undirected(),
            i <= graph.edges@.len(),
            m.rows == n,
            m.cols == n,
            m.wf(),
            m.cells() == minplus_upto(graph, i as nat),
        decreases graph.edges@.len() - i,
    {
        let e = &graph.edges[i];
        proof {
            assert(graph.edge_ok(i as int));
            lemma_cell_in_range(n as nat, e.source as nat, e.target as nat);
            lemma_cell_in_range(n as nat, e.target as nat, e.source as nat);
        }
        let a = e.source * n + e.target;
        let cur = m.data[a];
        m.data.set(a, cur.add(&MinPlus::Fin(e.weight)));
        if undirected {
            let b = e.target * n + e.source;
            let cur2 = m.data[b];
            m.data.set(b, cur2.add(&MinPlus::Fin(e.weight)));
        }
        proof {
            assert(m.cells() =~= minplus_upto(graph, (i + 1) as nat));
        }
        i += 1;
    }
    match m.closure(AlgebraLimits::default()) {
        Ok(c) => Ok(c),
        Err(e) => Err(GraphError::from_algebra(e)),
    }
}

/// Boolean pivots never diverge: every star exists.
proof fn lemma_bool_pivots_some(a: Seq<bool>, n: nat, k: nat)
    ensures
        crate::matrix::pivots_upto::<BoolRing>(a, n, k) is Some,
    decreases k,
{
    if k > 0 {
        lemma_bool_pivots_some(a, n, (k - 1) as nat);
    }
}

/// Reachability as the Kleene closure of the boolean adjacency.
pub fn reachability<N, W>(graph: &Graph<N, W>) -> (r: Result<Matrix<BoolRing>, GraphError>)
    requires
        graph.n() * graph.n() <= usize::MAX,
    ensures
        !graph.valid() ==> (r matches Err(e) && graph.reports(e)),
        graph.valid() ==> (if graph.n() > 1024 {
            r matches Err(e) && e is Unsupported
        } else {
            closure_model::<BoolRing>(bool_adjacency_upto(graph, graph.edges@.len()), graph.n()) matches Some(c) && r matches Ok(m)
                && m.rows == graph.n() && m.cols == graph.n() && m.cells() == c
        }),
{
    graph.validate()?;
    let n = graph.node_count();
    let undirected = !graph.is_directed();
    let mut m = Matrix::filled(n, n, BoolRing(false));
    proof {
        assert(m.cells() =~= bool_adjacency_upto(graph, 0));
    }
    let mut i: usize = 0;
    while i < graph.edges.len()
        invariant
            graph.valid(),
            n == graph.n(),
            n * n <= usize::MAX,
            undirected == graph.undirected(),
            i <= graph.edges@.len(),
            m.rows == n,
            m.cols == n,
            m.wf(),
            m.cells() == bool_adjacency_upto(graph, i as nat),
        decreases graph.edges@.len() - i,
    {
        let e = &graph.edges[i];
        proof {
            assert(graph.edge_ok(i as int));
            lemma_cell_in_range(n as nat, e.source as nat, e.target as nat);
            lemma_cell_in_range(n as nat, e.target as nat, e.source as nat);
        }
        let a = e.source * n + e.target;
        m.data.set(a, BoolRing(true));
        if undirected {
            let b = e.target * n + e.source;
            m.data.set(b, BoolRing(true));
        }
        proof {
            assert(m.cells() =~= bool_adjacency_upto(graph, (i + 1) as nat));
        }
        i += 1;
    }
    proof {
        lemma_bool_pivots_some(m.cells(), n as nat, n as nat);
    }
    match m.closure(AlgebraLimits::default()) {
        Ok(c) => Ok(c),
        Err(e) => Err(GraphError::from_algebra(e)),
    }
}

} // verus!
