//! Minimum spanning tree via Prim's and Kruskal's algorithms.
//!
//! Both require an undirected graph, ignore self-loops, and break ties
//! deterministically by `(weight, min endpoint, max endpoint, edge id)`. Each
//! returns a [`SpanningTree`] whose edge ids are sorted ascending, so the two
//! algorithms produce comparable witnesses.

use crate::certificate::{closed_under_light, cycle_property, joined_light, lemma_light_from_join, lemma_light_more, lemma_light_sym, lemma_light_trans, light_edge_joined, SpanningTree};
use crate::error::GraphError;
use crate::graph::Graph;
use crate::traversal::{count_true, falses, lemma_count_all_false, lemma_count_true_le, lemma_count_true_set};
use crate::connectivity::{closed, reaches, step};
use crate::unionfind::{lemma_root_count_relabel, root_count, UnionFind};
use crate::mst_optimal::{lemma_tree_lightest, lightest_spanning};
use crate::weight::MstWeight;
use vstd::prelude::*;

verus! {

/// The total weight of the edges listed in `ids`.
pub open spec fn weight_sum<N, W: MstWeight>(g: &Graph<N, W>, ids: Seq<usize>) -> int
    decreases ids.len(),
{
    if ids.len() == 0 {
        0
    } else {
        weight_sum(g, ids.drop_last()) + g.edges@[ids.last() as int].weight.wv()
    }
}

/// `ids` lists distinct edges of `g`, none a self-loop, in strictly
/// ascending order.
pub open spec fn ascending_edges<N, W>(g: &Graph<N, W>, ids: Seq<usize>) -> bool {
    &&& forall|a: int, b: int| 0 <= a < b < ids.len() ==> #[trigger] ids[a] < #[trigger] ids[b]
    &&& forall|a: int| 0 <= a < ids.len() ==> #[trigger] ids[a] < g.edges@.len()
    &&& forall|a: int| 0 <= a < ids.len() ==> g.edges@[#[trigger] ids[a] as int].source != g.edges@[ids[a] as int].target
}

/// Some running total of the weights of `ids`, in order, leaves the weight
/// type's range.
pub open spec fn running_sum_escapes<N, W: MstWeight>(g: &Graph<N, W>, ids: Seq<usize>) -> bool {
    exists|k: int|
        0 < k <= ids.len() && !(W::lo() <= #[trigger] weight_sum(g, ids.subrange(0, k)) <= W::hi())
}

/// `t` has the shape of a spanning tree of `g`: `n - 1` distinct non-loop
/// edges (none for an empty graph), ascending, with their total weight.
pub open spec fn is_tree_shape<N, W: MstWeight>(g: &Graph<N, W>, t: SpanningTree<W>) -> bool {
    &&& t.edges@.len() == if g.n() == 0 { 0 } else { g.n() - 1 }
    &&& ascending_edges(g, t.edges@)
    &&& t.total_weight.wv() == weight_sum(g, t.edges@)
}

/// The node set `s` is closed under the edges listed in `ids`, each taken
/// either way.
pub open spec fn closed_under_edges<N, W>(g: &Graph<N, W>, ids: Seq<usize>, s: Set<int>) -> bool {
    forall|a: int|
        0 <= a < ids.len() ==> (s.contains(g.edges@[#[trigger] ids[a] as int].source as int) <==> s.contains(
            g.edges@[ids[a] as int].target as int,
        ))
}

/// `u` and `v` are joined by a path of edges listed in `ids`: every node set
/// closed under those edges that holds one holds the other.
pub open spec fn joined_by<N, W>(g: &Graph<N, W>, ids: Seq<usize>, u: int, v: int) -> bool {
    forall|s: Set<int>| #[trigger] closed_under_edges(g, ids, s) ==> (s.contains(u) ==> s.contains(v))
}

/// The edges listed in `ids` join every node of `g` to node `0`.
pub open spec fn spans<N, W>(g: &Graph<N, W>, ids: Seq<usize>) -> bool {
    forall|v: int| 0 <= v < g.n() ==> #[trigger] joined_by(g, ids, 0, v)
}

/// Some two nodes of `g` do not reach each other.
pub open spec fn disconnected<N, W>(g: &Graph<N, W>) -> bool {
    exists|u: int, v: int| 0 <= u < g.n() && 0 <= v < g.n() && !#[trigger] reaches(g, false, u, v)
}

/// Joining is symmetric.
pub(crate) proof fn lemma_joined_sym<N, W>(g: &Graph<N, W>, ids: Seq<usize>, u: int, v: int)
    requires
        joined_by(g, ids, u, v),
    ensures
        joined_by(g, ids, v, u),
{
    assert forall|s: Set<int>| #[trigger] closed_under_edges(g, ids, s) implies (s.contains(v) ==> s.contains(u)) by {
        let c = s.complement();
        assert(closed_under_edges(g, ids, c));
        if s.contains(v) && !s.contains(u) {
            assert(c.contains(u));
        }
    }
}

/// Joining composes.
pub(crate) proof fn lemma_joined_trans<N, W>(g: &Graph<N, W>, ids: Seq<usize>, u: int, v: int, w: int)
    requires
        joined_by(g, ids, u, v),
        joined_by(g, ids, v, w),
    ensures
        joined_by(g, ids, u, w),
{
}

/// A listed edge joins its endpoints.
pub(crate) proof fn lemma_joined_edge<N, W>(g: &Graph<N, W>, ids: Seq<usize>, a: int)
    requires
        0 <= a < ids.len(),
    ensures
        joined_by(g, ids, g.edges@[ids[a] as int].source as int, g.edges@[ids[a] as int].target as int),
{
}

/// Listing more edges keeps every join.
pub(crate) proof fn lemma_joined_more<N, W>(g: &Graph<N, W>, ids: Seq<usize>, more: Seq<usize>, u: int, v: int)
    requires
        joined_by(g, ids, u, v),
        forall|x: usize| ids.contains(x) ==> #[trigger] more.contains(x),
    ensures
        joined_by(g, more, u, v),
{
    assert forall|s: Set<int>| #[trigger] closed_under_edges(g, more, s) implies (s.contains(u) ==> s.contains(v)) by {
        assert forall|a: int| 0 <= a < ids.len() implies (s.contains(g.edges@[#[trigger] ids[a] as int].source as int)
            <==> s.contains(g.edges@[ids[a] as int].target as int)) by {
            assert(ids.contains(ids[a]));
            assert(more.contains(ids[a]));
            let b = choose|b: int| 0 <= b < more.len() && more[b] == ids[a];
        }
        assert(closed_under_edges(g, ids, s));
    }
}

/// Two distinct roots below `m` make at least two roots.
proof fn lemma_two_roots(rep: Seq<usize>, i: int, j: int, m: nat)
    requires
        0 <= i < j < m,
        m <= rep.len(),
        rep.len() <= usize::MAX,
        rep[i] == i as usize,
        rep[j] == j as usize,
    ensures
        root_count(rep, m) >= 2,
    decreases m,
{
    if j < m - 1 {
        lemma_two_roots(rep, i, j, (m - 1) as nat);
    } else {
        lemma_one_root(rep, i, (m - 1) as nat);
    }
}

/// A root below `m` makes at least one root.
proof fn lemma_one_root(rep: Seq<usize>, i: int, m: nat)
    requires
        0 <= i < m,
        m <= rep.len(),
        rep.len() <= usize::MAX,
        rep[i] == i as usize,
    ensures
        root_count(rep, m) >= 1,
    decreases m,
{
    if i < m - 1 {
        lemma_one_root(rep, i, (m - 1) as nat);
    }
}

/// With two or more roots below `m`, two of them differ.
proof fn lemma_roots_differ(rep: Seq<usize>, m: nat) -> (r: (int, int))
    requires
        root_count(rep, m) >= 2,
        m <= rep.len(),
        rep.len() <= usize::MAX,
    ensures
        0 <= r.0 < r.1 < m,
        rep[r.0] == r.0 as usize,
        rep[r.1] == r.1 as usize,
    decreases m,
{
    if root_count(rep, (m - 1) as nat) >= 2 {
        lemma_roots_differ(rep, (m - 1) as nat)
    } else {
        assert(rep[m - 1] == (m - 1) as usize);
        let i = lemma_some_root(rep, (m - 1) as nat);
        (i, m - 1)
    }
}

/// With a root below `m`, one exists.
proof fn lemma_some_root(rep: Seq<usize>, m: nat) -> (r: int)
    requires
        root_count(rep, m) >= 1,
        m <= rep.len(),
        rep.len() <= usize::MAX,
    ensures
        0 <= r < m,
        rep[r] == r as usize,
    decreases m,
{
    if root_count(rep, (m - 1) as nat) >= 1 {
        lemma_some_root(rep, (m - 1) as nat)
    } else {
        m - 1
    }
}

/// The weight of edge `e`, as an integer.
pub open spec fn edge_wv<N, W: MstWeight>(g: &Graph<N, W>, e: int) -> int {
    g.edges@[e].weight.wv()
}

/// Edge `i` comes before edge `j` in `(weight, min endpoint, max endpoint,
/// id)` order.
pub open spec fn key_before<N, W: MstWeight>(g: &Graph<N, W>, i: int, j: int) -> bool {
    let a = g.edges@[i];
    let b = g.edges@[j];
    let amin = if a.source <= a.target { a.source } else { a.target };
    let amax = if a.source <= a.target { a.target } else { a.source };
    let bmin = if b.source <= b.target { b.source } else { b.target };
    let bmax = if b.source <= b.target { b.target } else { b.source };
    ||| a.weight.wv() < b.weight.wv()
    ||| (a.weight.wv() == b.weight.wv() && amin < bmin)
    ||| (a.weight.wv() == b.weight.wv() && amin == bmin && amax < bmax)
    ||| (a.weight.wv() == b.weight.wv() && amin == bmin && amax == bmax && a.id < b.id)
}

/// Edges of a valid graph are strictly and totally ordered by
/// `(weight, min endpoint, max endpoint, id)`.
pub(crate) proof fn lemma_key_order<N, W: MstWeight>(g: &Graph<N, W>, i: int, j: int, k: int)
    requires
        g.valid(),
        0 <= i < g.edges@.len(),
        0 <= j < g.edges@.len(),
        0 <= k < g.edges@.len(),
    ensures
        i != j ==> key_before(g, i, j) || key_before(g, j, i),
        !(key_before(g, i, j) && key_before(g, j, i)),
        !key_before(g, i, i),
        key_before(g, i, j) && key_before(g, j, k) ==> key_before(g, i, k),
{
    assert(g.edge_ok(i) && g.edge_ok(j) && g.edge_ok(k));
}

/// The node set `s` is closed under every edge that comes before edge `e`
/// in `(weight, min endpoint, max endpoint, id)` order.
pub open spec fn closed_under_key_smaller<N, W: MstWeight>(g: &Graph<N, W>, e: int, s: Set<int>) -> bool {
    forall|i: int|
        0 <= i < g.edges@.len() && #[trigger] key_before(g, i, e) ==> (s.contains(g.edges@[i].source as int)
            <==> s.contains(g.edges@[i].target as int))
}

/// `u` and `v` are joined by a path of edges that all come before edge `e`.
pub open spec fn key_joined<N, W: MstWeight>(g: &Graph<N, W>, e: int, u: int, v: int) -> bool {
    forall|s: Set<int>| #[trigger] closed_under_key_smaller(g, e, s) ==> (s.contains(u) ==> s.contains(v))
}

/// Edge `e` is a non-loop edge whose endpoints no path of earlier edges
/// joins: it belongs to the spanning tree of the ordered edges.
pub open spec fn key_necessary<N, W: MstWeight>(g: &Graph<N, W>, e: int) -> bool {
    &&& g.edges@[e].source != g.edges@[e].target
    &&& !key_joined(g, e, g.edges@[e].source as int, g.edges@[e].target as int)
}

/// A join by listed edges that all come before `e` is a join by earlier
/// edges.
proof fn lemma_key_joined_from<N, W: MstWeight>(g: &Graph<N, W>, ids: Seq<usize>, e: int, u: int, v: int)
    requires
        joined_by(g, ids, u, v),
        forall|a: int| 0 <= a < ids.len() ==> (#[trigger] ids[a] as int) < g.edges@.len() && key_before(g, ids[a] as int, e),
    ensures
        key_joined(g, e, u, v),
{
    assert forall|s: Set<int>| #[trigger] closed_under_key_smaller(g, e, s) implies (s.contains(u) ==> s.contains(v)) by {
        assert(closed_under_edges(g, ids, s));
    }
}

/// Validate and require an undirected graph.
fn require_undirected<N, W>(graph: &Graph<N, W>) -> (r: Result<(), GraphError>)
    ensures
        !graph.valid() ==> (r matches Err(e) && graph.reports(e)),
        graph.valid() && !graph.undirected() ==> (r matches Err(e) && e is WrongGraphKind),
        graph.valid() && graph.undirected() ==> r is Ok,
{
    graph.validate()?;
    if graph.is_directed() {
        return Err(GraphError::WrongGraphKind("MST requires an undirected graph".to_string()));
    }
    Ok(())
}

/// Whether edge `i` precedes edge `j` in `(weight, min, max, id)` order.
fn edge_key_before<N, W: MstWeight>(graph: &Graph<N, W>, i: usize, j: usize) -> (r: bool)
    requires
        i < graph.edges@.len(),
        j < graph.edges@.len(),
    ensures
        r == key_before(graph, i as int, j as int),
{
    let a = &graph.edges[i];
    let b = &graph.edges[j];
    let amin = if a.source <= a.target { a.source } else { a.target };
    let amax = if a.source <= a.target { a.target } else { a.source };
    let bmin = if b.source <= b.target { b.source } else { b.target };
    let bmax = if b.source <= b.target { b.target } else { b.source };
    if a.weight.lighter(&b.weight) {
        return true;
    }
    if !a.weight.same(&b.weight) {
        return false;
    }
    if amin != bmin {
        return amin < bmin;
    }
    if amax != bmax {
        return amax < bmax;
    }
    a.id < b.id
}

/// Sort distinct edge ids ascending and total their weights.
fn finish_tree<N, W: MstWeight>(graph: &Graph<N, W>, chosen: &Vec<usize>) -> (r: Result<SpanningTree<W>, GraphError>)
    requires
        forall|a: int, b: int| 0 <= a < b < chosen@.len() ==> #[trigger] chosen@[a] != #[trigger] chosen@[b],
        forall|a: int| 0 <= a < chosen@.len() ==> #[trigger] chosen@[a] < graph.edges@.len(),
        forall|a: int| 0 <= a < chosen@.len() ==> graph.edges@[#[trigger] chosen@[a] as int].source
            != graph.edges@[chosen@[a] as int].target,
    ensures
        match r {
            Ok(t) => t.edges@.len() == chosen@.len() && ascending_edges(graph, t.edges@) && t.total_weight.wv() == weight_sum(
                graph,
                t.edges@,
            ) && (forall|x: usize| #[trigger] t.edges@.contains(x) <==> chosen@.contains(x)),
            Err(e) => e is WeightOverflow && exists|ids: Seq<usize>|
                ids.len() == chosen@.len() && ascending_edges(graph, ids) && (forall|x: usize| #[trigger] ids.contains(x)
                    <==> chosen@.contains(x)) && running_sum_escapes(graph, ids),
        },
{
    let mut sorted: Vec<usize> = Vec::new();
    let mut t: usize = 0;
    while t < chosen.len()
        invariant
            t <= chosen@.len(),
            forall|a: int, b: int| 0 <= a < b < chosen@.len() ==> #[trigger] chosen@[a] != #[trigger] chosen@[b],
            sorted@.len() == t,
            forall|a: int, b: int| 0 <= a < b < sorted@.len() ==> #[trigger] sorted@[a] < #[trigger] sorted@[b],
            forall|x: usize| #[trigger] sorted@.contains(x) <==> chosen@.subrange(0, t as int).contains(x),
        decreases chosen@.len() - t,
    {
        let x = chosen[t];
        let mut pos: usize = sorted.len();
        while pos > 0 && sorted[pos - 1] > x
            invariant
                pos <= sorted@.len(),
                forall|a: int| pos <= a < sorted@.len() ==> #[trigger] sorted@[a] > x,
            decreases pos,
        {
            pos -= 1;
        }
        let ghost before = sorted@;
        proof {
            assert(!chosen@.subrange(0, t as int).contains(x)) by {
                if chosen@.subrange(0, t as int).contains(x) {
                    let k = choose|k: int| 0 <= k < t && chosen@.subrange(0, t as int)[k] == x;
                    assert(chosen@[k] == chosen@[t as int]);
                }
            }
            assert(!before.contains(x));
            if pos > 0 {
                assert(before[pos - 1] <= x);
                assert(before[pos - 1] != x);
            }
        }
        sorted.insert(pos, x);
        proof {
            assert forall|a: int, b: int| 0 <= a < b < sorted@.len() implies #[trigger] sorted@[a] < #[trigger] sorted@[b] by {
                if b < pos {
                    assert(sorted@[a] == before[a] && sorted@[b] == before[b]);
                } else if b == pos {
                    assert(sorted@[a] == before[a]);
                    if a < pos - 1 {
                        assert(before[a] < before[pos - 1]);
                    }
                } else if a < pos {
                    assert(sorted@[a] == before[a] && sorted@[b] == before[b - 1]);
                } else if a == pos {
                    assert(sorted@[b] == before[b - 1]);
                } else {
                    assert(sorted@[a] == before[a - 1] && sorted@[b] == before[b - 1]);
                }
            }
            let pre1 = chosen@.subrange(0, t + 1);
            assert forall|y: usize| #[trigger] sorted@.contains(y) <==> pre1.contains(y) by {
                if sorted@.contains(y) {
                    let k = choose|k: int| 0 <= k < sorted@.len() && sorted@[k] == y;
                    if k != pos {
                        let k0 = if k < pos { k } else { k - 1 };
                        assert(before[k0] == y);
                        assert(before.contains(y));
                        let j = choose|j: int| 0 <= j < t && chosen@.subrange(0, t as int)[j] == y;
                        assert(pre1[j] == y);
                    } else {
                        assert(pre1[t as int] == y);
                    }
                }
                if pre1.contains(y) {
                    let j = choose|j: int| 0 <= j < pre1.len() && pre1[j] == y;
                    if j < t {
                        assert(chosen@.subrange(0, t as int)[j] == y);
                        assert(before.contains(y));
                        let k = choose|k: int| 0 <= k < before.len() && before[k] == y;
                        let k1 = if k < pos { k } else { k + 1 };
                        assert(sorted@[k1] == y);
                    } else {
                        assert(sorted@[pos as int] == y);
                    }
                }
            }
        }
        t += 1;
    }
    proof {
        assert(chosen@.subrange(0, chosen@.len() as int) =~= chosen@);
        assert forall|a: int| 0 <= a < sorted@.len() implies #[trigger] sorted@[a] < graph.edges@.len()
            && graph.edges@[sorted@[a] as int].source != graph.edges@[sorted@[a] as int].target by {
            assert(sorted@.contains(sorted@[a]));
            let j = choose|j: int| 0 <= j < chosen@.len() && chosen@[j] == sorted@[a];
        }
    }
    let mut total = W::zero();
    let mut k: usize = 0;
    while k < sorted.len()
        invariant
            k <= sorted@.len(),
            forall|a: int| 0 <= a < sorted@.len() ==> #[trigger] sorted@[a] < graph.edges@.len(),
            total.wv() == weight_sum(graph, sorted@.subrange(0, k as int)),
            forall|x: usize| #[trigger] sorted@.contains(x) <==> chosen@.contains(x),
            sorted@.len() == chosen@.len(),
            ascending_edges(graph, sorted@),
        decreases sorted@.len() - k,
    {
        let w = graph.edges[sorted[k]].weight;
        total = match total.checked_plus(&w) {
            Some(s) => s,
            None => {
                proof {
                    assert(sorted@.subrange(0, k + 1).drop_last() =~= sorted@.subrange(0, k as int));
                    assert(sorted@.subrange(0, k + 1).last() == sorted@[k as int]);
                    assert(!(W::lo() <= weight_sum(graph, sorted@.subrange(0, k + 1)) <= W::hi()));
                    assert(running_sum_escapes(graph, sorted@));
                    assert(sorted@.len() == chosen@.len() && ascending_edges(graph, sorted@) && (forall|x: usize| #[trigger] sorted@.contains(x)
                        <==> chosen@.contains(x)) && running_sum_escapes(graph, sorted@));
                }
                return Err(GraphError::WeightOverflow("spanning tree total weight".to_string()));
            },
        };
        proof {
            assert(sorted@.subrange(0, k + 1).drop_last() =~= sorted@.subrange(0, k as int));
        }
        k += 1;
    }
    proof {
        assert(sorted@.subrange(0, sorted@.len() as int) =~= sorted@);
    }
    Ok(SpanningTree { edges: sorted, total_weight: total })
}

/// Kruskal's algorithm: scan the non-loop edges in `(weight, min endpoint,
/// max endpoint, id)` order and keep each edge that joins two components of
/// the edges kept so far, until `n - 1` are kept. Fewer means the graph is
/// disconnected. A total weight outside the weight type fails with
/// `WeightOverflow`.
pub fn kruskals_mst<N, W: MstWeight>(graph: &Graph<N, W>) -> (r: Result<SpanningTree<W>, GraphError>)
    ensures
        !graph.valid() ==> (r matches Err(e) && graph.reports(e)),
        graph.valid() && !graph.undirected() ==> (r matches Err(e) && e is WrongGraphKind),
        graph.valid() && graph.undirected() && graph.n() <= 1 ==> (r matches Ok(t) && t.edges@.len() == 0 && t.total_weight.wv() == 0),
        graph.valid() && graph.undirected() ==> (match r {
            Ok(t) => is_tree_shape(graph, t) && spans(graph, t.edges@) && cycle_property(graph, t.edges@)
                && lightest_spanning(graph, t.edges@) && forall|e: int|
                0 <= e < graph.edges@.len() ==> (#[trigger] t.edges@.contains(e as usize) <==> key_necessary(graph, e)),
            Err(e) => (e is Disconnected && disconnected(graph)) || (e is WeightOverflow && exists|ids: Seq<usize>|
                ids.len() == graph.n() - 1 && ascending_edges(graph, ids) && #[trigger] spans(graph, ids)
                    && running_sum_escapes(graph, ids) && forall|x: int|
                    0 <= x < graph.edges@.len() ==> (ids.contains(x as usize) <==> key_necessary(graph, x))),
        }),
{
    require_undirected(graph)?;
    let n = graph.node_count();
    if n <= 1 {
        let t = SpanningTree { edges: Vec::new(), total_weight: W::zero() };
        proof {
            assert forall|v: int| 0 <= v < graph.n() implies #[trigger] joined_by(graph, t.edges@, 0, v) by {
                assert(v == 0);
            }
            assert forall|i: int| 0 <= i < graph.edges@.len() implies graph.edges@[i].source == graph.edges@[i].target by {
                assert(graph.edge_ok(i));
            }
            lemma_tree_lightest(graph, t);
        }
        return Ok(t);
    }
    let mut cand: Vec<usize> = Vec::new();
    let mut i: usize = 0;
    while i < graph.edges.len()
        invariant
            i <= graph.edges@.len(),
            forall|a: int| 0 <= a < cand@.len() ==> #[trigger] cand@[a] < graph.edges@.len()
                && graph.edges@[cand@[a] as int].source != graph.edges@[cand@[a] as int].target,
            forall|x: int| 0 <= x < i && graph.edges@[x].source != graph.edges@[x].target ==> #[trigger] cand@.contains(
                x as usize,
            ),
            forall|a: int, b: int| 0 <= a < b < cand@.len() ==> #[trigger] cand@[a] < #[trigger] cand@[b],
            forall|a: int| 0 <= a < cand@.len() ==> #[trigger] cand@[a] < i,
        decreases graph.edges@.len() - i,
    {
        let ghost c0 = cand@;
        if !graph.edges[i].is_self_loop() {
            cand.push(i);
            proof {
                assert(cand@[cand@.len() - 1] == i);
                assert(forall|a: int| 0 <= a < c0.len() ==> cand@[a] == c0[a]);
            }
        } else {
            proof {
                assert(forall|a: int| 0 <= a < c0.len() ==> cand@[a] == c0[a]);
            }
        }
        proof {
            assert forall|x: int| 0 <= x < i + 1 && graph.edges@[x].source != graph.edges@[x].target implies #[trigger] cand@.contains(
                x as usize,
            ) by {
                if x < i {
                    assert(c0.contains(x as usize));
                    let a = choose|a: int| 0 <= a < c0.len() && c0[a] == x as usize;
                    assert(cand@[a] == x as usize);
                }
            }
        }
        i += 1;
    }
    let mut order: Vec<usize> = Vec::new();
    let mut t: usize = 0;
    while t < cand.len()
        invariant
            t <= cand@.len(),
            forall|a: int| 0 <= a < cand@.len() ==> #[trigger] cand@[a] < graph.edges@.len()
                && graph.edges@[cand@[a] as int].source != graph.edges@[cand@[a] as int].target,
            forall|a: int| 0 <= a < order@.len() ==> #[trigger] order@[a] < graph.edges@.len()
                && graph.edges@[order@[a] as int].source != graph.edges@[order@[a] as int].target,
            forall|a: int| 0 <= a < t ==> #[trigger] order@.contains(cand@[a]),
            forall|a: int, b: int| 0 <= a < b < order@.len() ==> edge_wv(graph, #[trigger] order@[a] as int) <= edge_wv(graph, #[trigger] order@[b] as int),
            graph.valid(),
            forall|a: int, b: int| 0 <= a < b < cand@.len() ==> #[trigger] cand@[a] < #[trigger] cand@[b],
            forall|a: int, c: int| 0 <= a < order@.len() && t <= c < cand@.len() ==> #[trigger] order@[a] < #[trigger] cand@[c],
            forall|a: int, b: int| 0 <= a < b < order@.len() ==> key_before(graph, #[trigger] order@[a] as int, #[trigger] order@[b] as int),
        decreases cand@.len() - t,
    {
        let x = cand[t];
        let mut pos: usize = order.len();
        while pos > 0 && edge_key_before(graph, x, order[pos - 1])
            invariant
                pos <= order@.len(),
                x < graph.edges@.len(),
                forall|a: int| 0 <= a < t ==> #[trigger] order@.contains(cand@[a]),
                forall|a: int| 0 <= a < order@.len() ==> #[trigger] order@[a] < graph.edges@.len(),
                forall|a: int| pos <= a < order@.len() ==> key_before(graph, x as int, #[trigger] order@[a] as int),
                forall|a: int, b: int| 0 <= a < b < order@.len() ==> edge_wv(graph, #[trigger] order@[a] as int) <= edge_wv(graph, #[trigger] order@[b] as int),
                graph.valid(),
                forall|a: int, b: int| 0 <= a < b < order@.len() ==> key_before(graph, #[trigger] order@[a] as int, #[trigger] order@[b] as int),
            decreases pos,
        {
            pos -= 1;
        }
        let ghost before = order@;
        order.insert(pos, x);
        proof {
            assert forall|a: int| 0 <= a < order@.len() implies #[trigger] order@[a] < graph.edges@.len()
                && graph.edges@[order@[a] as int].source != graph.edges@[order@[a] as int].target by {
                if a < pos {
                    assert(order@[a] == before[a]);
                } else if a > pos {
                    assert(order@[a] == before[a - 1]);
                }
            }
            assert forall|a: int| 0 <= a < t + 1 implies #[trigger] order@.contains(cand@[a]) by {
                if a < t {
                    assert(before.contains(cand@[a]));
                    let j = choose|j: int| 0 <= j < before.len() && before[j] == cand@[a];
                    if j < pos {
                        assert(order@[j] == cand@[a]);
                    } else {
                        assert(order@[j + 1] == cand@[a]);
                    }
                } else {
                    assert(order@[pos as int] == x);
                }
            }
            assert forall|a: int, b: int| 0 <= a < b < order@.len() implies edge_wv(graph, #[trigger] order@[a] as int) <= edge_wv(graph, #[trigger] order@[b] as int) by {
                if pos > 0 {
                    assert(!key_before(graph, x as int, before[pos - 1] as int));
                }
                if a < pos && b == pos {
                    assert(order@[a] == before[a]);
                    if a < pos - 1 {
                        assert(edge_wv(graph, before[a] as int) <= edge_wv(graph, before[pos - 1] as int));
                    }
                } else if a == pos && b > pos {
                    assert(order@[b] == before[b - 1]);
                    assert(key_before(graph, x as int, before[b - 1] as int));
                } else if a < pos && b > pos {
                    assert(order@[a] == before[a]);
                    assert(order@[b] == before[b - 1]);
                    assert(edge_wv(graph, before[a] as int) <= edge_wv(graph, before[b - 1] as int));
                } else if b < pos {
                    assert(order@[a] == before[a]);
                    assert(order@[b] == before[b]);
                    assert(edge_wv(graph, before[a] as int) <= edge_wv(graph, before[b] as int));
                } else {
                    assert(order@[a] == before[a - 1]);
                    assert(order@[b] == before[b - 1]);
                    assert(edge_wv(graph, before[a - 1] as int) <= edge_wv(graph, before[b - 1] as int));
                }
            }
            assert forall|a: int, c: int| 0 <= a < order@.len() && t + 1 <= c < cand@.len() implies #[trigger] order@[a] < #[trigger] cand@[c] by {
                assert(cand@[t as int] < cand@[c]);
                if a < pos {
                    assert(order@[a] == before[a]);
                    assert(before[a] < cand@[c]);
                } else if a > pos {
                    assert(order@[a] == before[a - 1]);
                    assert(before[a - 1] < cand@[c]);
                }
            }
            assert forall|a: int, b: int| 0 <= a < b < order@.len() implies key_before(graph, #[trigger] order@[a] as int, #[trigger] order@[b] as int) by {
                if pos > 0 {
                    assert(!key_before(graph, x as int, before[pos - 1] as int));
                    assert(before[pos - 1] < cand@[t as int]);
                    lemma_key_order(graph, x as int, before[pos - 1] as int, x as int);
                }
                if a < pos && b == pos {
                    assert(order@[a] == before[a]);
                    if a < pos - 1 {
                        assert(key_before(graph, before[a] as int, before[pos - 1] as int));
                        lemma_key_order(graph, before[a] as int, before[pos - 1] as int, x as int);
                    }
                } else if a == pos && b > pos {
                    assert(order@[b] == before[b - 1]);
                    assert(key_before(graph, x as int, before[b - 1] as int));
                } else if a < pos && b > pos {
                    assert(order@[a] == before[a]);
                    assert(order@[b] == before[b - 1]);
                    assert(key_before(graph, before[a] as int, before[b - 1] as int));
                } else if b < pos {
                    assert(order@[a] == before[a]);
                    assert(order@[b] == before[b]);
                    assert(key_before(graph, before[a] as int, before[b] as int));
                } else {
                    assert(order@[a] == before[a - 1]);
                    assert(order@[b] == before[b - 1]);
                    assert(key_before(graph, before[a - 1] as int, before[b - 1] as int));
                }
            }
        }
        t += 1;
    }
    let mut uf = UnionFind::new(n);
    let mut chosen: Vec<usize> = Vec::new();
    let mut k: usize = 0;
    while k < order.len()
        invariant_except_break
            chosen@.len() < n - 1,
        invariant
            forall|x: int| 0 <= x < graph.edges@.len() && graph.edges@[x].source != graph.edges@[x].target ==> #[trigger] cand@.contains(
                x as usize,
            ),
            forall|a: int| 0 <= a < cand@.len() ==> #[trigger] order@.contains(cand@[a]),
            graph.valid(),
            n == graph.n(),
            n >= 2,
            uf.wf(),
            uf.size() == n,
            k <= order@.len(),
            chosen@.len() <= n - 1,
            forall|a: int| 0 <= a < order@.len() ==> #[trigger] order@[a] < graph.edges@.len()
                && graph.edges@[order@[a] as int].source != graph.edges@[order@[a] as int].target,
            forall|a: int| 0 <= a < chosen@.len() ==> #[trigger] chosen@[a] < graph.edges@.len()
                && graph.edges@[chosen@[a] as int].source != graph.edges@[chosen@[a] as int].target
                && uf.rep()[graph.edges@[chosen@[a] as int].source as int] == uf.rep()[graph.edges@[chosen@[a] as int].target as int],
            forall|a: int, b: int| 0 <= a < b < chosen@.len() ==> #[trigger] chosen@[a] != #[trigger] chosen@[b],
            forall|x: int, y: int|
                0 <= x < n && 0 <= y < n && #[trigger] uf.rep()[x] == #[trigger] uf.rep()[y] ==> joined_by(graph, chosen@, x, y),
            root_count(uf.rep(), n as nat) + chosen@.len() == n,
            forall|a: int| 0 <= a < k ==> uf.rep()[graph.edges@[#[trigger] order@[a] as int].source as int]
                == uf.rep()[graph.edges@[order@[a] as int].target as int],
            forall|a: int, b: int| 0 <= a < b < order@.len() ==> edge_wv(graph, #[trigger] order@[a] as int) <= edge_wv(graph, #[trigger] order@[b] as int),
            forall|c: int, j: int| 0 <= c < chosen@.len() && k <= j < order@.len() ==> edge_wv(graph, #[trigger] chosen@[c] as int) <= edge_wv(graph, #[trigger] order@[j] as int),
            forall|a: int| 0 <= a < k ==> light_edge_joined(graph, chosen@, #[trigger] order@[a] as int),
            forall|a: int, b: int| 0 <= a < b < order@.len() ==> key_before(graph, #[trigger] order@[a] as int, #[trigger] order@[b] as int),
            forall|c: int, j: int| 0 <= c < chosen@.len() && k <= j < order@.len() ==> key_before(graph, #[trigger] chosen@[c] as int, #[trigger] order@[j] as int),
            forall|a: int| 0 <= a < k ==> (chosen@.contains(#[trigger] order@[a]) <==> key_necessary(graph, order@[a] as int)),
        ensures
            chosen@.len() == n - 1 || k >= order@.len(),
        decreases order@.len() - k,
    {
        let id = order[k];
        let e = &graph.edges[id];
        proof {
            assert(graph.edge_ok(id as int));
        }
        let ghost rep0 = uf.rep();
        let ghost ch0 = chosen@;
        proof {
            uf.lemma_rep_is_root(0);
        }
        if uf.union(e.source, e.target) {
            proof {
                assert forall|a: int| 0 <= a < chosen@.len() implies #[trigger] chosen@[a] != id by {
                    assert(rep0[graph.edges@[chosen@[a] as int].source as int] == rep0[graph.edges@[chosen@[a] as int].target as int]);
                }
            }
            chosen.push(id);
            proof {
                assert forall|a: int| 0 <= a < chosen@.len() implies #[trigger] chosen@[a] < graph.edges@.len()
                    && graph.edges@[chosen@[a] as int].source != graph.edges@[chosen@[a] as int].target
                    && uf.rep()[graph.edges@[chosen@[a] as int].source as int] == uf.rep()[graph.edges@[chosen@[a] as int].target as int] by {
                    let c = chosen@[a] as int;
                    assert(graph.edge_ok(c));
                    let s = graph.edges@[c].source as int;
                    let tt = graph.edges@[c].target as int;
                    assert(uf.rep()[s] == (if rep0[s] == rep0[e.source as int] || rep0[s] == rep0[e.target as int] { uf.rep()[e.source as int] } else { rep0[s] }));
                    assert(uf.rep()[tt] == (if rep0[tt] == rep0[e.source as int] || rep0[tt] == rep0[e.target as int] { uf.rep()[e.source as int] } else { rep0[tt] }));
                }
                assert forall|a: int, b: int| 0 <= a < b < chosen@.len() implies #[trigger] chosen@[a] != #[trigger] chosen@[b] by {}
                uf.lemma_rep_is_root(0);
                lemma_kruskal_join(graph, rep0, uf.rep(), ch0, chosen@, id, n as nat);
                assert forall|a: int| 0 <= a < k + 1 implies uf.rep()[graph.edges@[#[trigger] order@[a] as int].source as int]
                    == uf.rep()[graph.edges@[order@[a] as int].target as int] by {
                    let c = order@[a] as int;
                    assert(graph.edge_ok(c));
                    let s = graph.edges@[c].source as int;
                    let tt = graph.edges@[c].target as int;
                    assert(uf.rep()[s] == (if rep0[s] == rep0[e.source as int] || rep0[s] == rep0[e.target as int] { uf.rep()[e.source as int] } else { rep0[s] }));
                    assert(uf.rep()[tt] == (if rep0[tt] == rep0[e.source as int] || rep0[tt] == rep0[e.target as int] { uf.rep()[e.source as int] } else { rep0[tt] }));
                }
                assert forall|c: int, j: int| 0 <= c < chosen@.len() && k <= j < order@.len() implies edge_wv(graph, #[trigger] chosen@[c] as int) <= edge_wv(graph, #[trigger] order@[j] as int) by {
                    if c < ch0.len() {
                        assert(chosen@[c] == ch0[c]);
                    } else if j > k {
                        assert(edge_wv(graph, order@[k as int] as int) <= edge_wv(graph, order@[j] as int));
                    }
                }
                lemma_kruskal_light_step(graph, ch0, chosen@, order@, k as int, uf.rep());
                lemma_kruskal_key_step(graph, ch0, chosen@, order@, cand@, k as int, rep0);
                assert forall|c: int, j: int| 0 <= c < chosen@.len() && k + 1 <= j < order@.len() implies key_before(graph, #[trigger] chosen@[c] as int, #[trigger] order@[j] as int) by {
                    if c < ch0.len() {
                        assert(chosen@[c] == ch0[c]);
                    } else {
                        assert(key_before(graph, order@[k as int] as int, order@[j] as int));
                    }
                }
            }
            if chosen.len() == n - 1 {
                k += 1;
                break;
            }
        } else {
            proof {
                lemma_kruskal_light_step(graph, ch0, chosen@, order@, k as int, uf.rep());
                lemma_kruskal_key_step(graph, ch0, chosen@, order@, cand@, k as int, rep0);
            }
        }
        k += 1;
    }
    proof {
        assert forall|x: int| 0 <= x < n implies (#[trigger] uf.rep()[x] as int) < n && uf.rep()[uf.rep()[x] as int] == uf.rep()[x] by {
            uf.lemma_rep_is_root(x);
        }
        uf.lemma_rep_is_root(0);
    }
    if chosen.len() != n - 1 {
        proof {
            lemma_kruskal_disconnected(graph, uf.rep(), order@, cand@);
        }
        return Err(GraphError::Disconnected);
    }
    proof {
        lemma_kruskal_spans(graph, uf.rep(), chosen@);
        assert forall|a: int| 0 <= a < order@.len() implies light_edge_joined(graph, chosen@, #[trigger] order@[a] as int) by {
            if a >= k {
                let f = order@[a] as int;
                assert(graph.edge_ok(f));
                let s0 = graph.edges@[f].source as int;
                let t0 = graph.edges@[f].target as int;
                assert(joined_by(graph, chosen@, 0, s0));
                assert(joined_by(graph, chosen@, 0, t0));
                lemma_joined_sym(graph, chosen@, 0, s0);
                lemma_joined_trans(graph, chosen@, s0, 0, t0);
                assert forall|c: int| 0 <= c < chosen@.len() implies graph.edges@[#[trigger] chosen@[c] as int].weight.wv() <= graph.edges@[f].weight.wv() by {
                    assert(edge_wv(graph, chosen@[c] as int) <= edge_wv(graph, order@[a] as int));
                }
                lemma_light_from_join(graph, chosen@, graph.edges@[f].weight.wv(), s0, t0);
            }
        }
        assert forall|a: int| 0 <= a < order@.len() implies (chosen@.contains(#[trigger] order@[a]) <==> key_necessary(graph, order@[a] as int)) by {
            if a >= k {
                let f = order@[a] as int;
                assert(graph.edge_ok(f));
                let s0 = graph.edges@[f].source as int;
                let t0 = graph.edges@[f].target as int;
                assert(joined_by(graph, chosen@, 0, s0));
                assert(joined_by(graph, chosen@, 0, t0));
                lemma_joined_sym(graph, chosen@, 0, s0);
                lemma_joined_trans(graph, chosen@, s0, 0, t0);
                lemma_key_joined_from(graph, chosen@, f, s0, t0);
                if chosen@.contains(order@[a]) {
                    let c = choose|c: int| 0 <= c < chosen@.len() && chosen@[c] == order@[a];
                    assert(key_before(graph, chosen@[c] as int, order@[a] as int));
                    lemma_key_order(graph, f, f, f);
                }
            }
        }
    }
    let r = finish_tree(graph, &chosen);
    proof {
        if r is Err {
            let ids = choose|ids: Seq<usize>|
                ids.len() == chosen@.len() && ascending_edges(graph, ids) && (forall|x: usize| #[trigger] ids.contains(x)
                    <==> chosen@.contains(x)) && running_sum_escapes(graph, ids);
            assert forall|v: int| 0 <= v < graph.n() implies #[trigger] joined_by(graph, ids, 0, v) by {
                assert forall|x: usize| chosen@.contains(x) implies #[trigger] ids.contains(x) by {}
                lemma_joined_more(graph, chosen@, ids, 0, v);
            }
            assert(spans(graph, ids));
            assert forall|e: int| 0 <= e < graph.edges@.len() implies (ids.contains(e as usize) <==> key_necessary(graph, e)) by {
                if graph.edges@[e].source != graph.edges@[e].target {
                    assert(cand@.contains(e as usize));
                    let c = choose|c: int| 0 <= c < cand@.len() && cand@[c] == e as usize;
                    assert(order@.contains(cand@[c]));
                    let a = choose|a: int| 0 <= a < order@.len() && order@[a] == e as usize;
                    assert(chosen@.contains(order@[a]) <==> key_necessary(graph, order@[a] as int));
                } else {
                    if ids.contains(e as usize) {
                        let a = choose|a: int| 0 <= a < ids.len() && ids[a] == e as usize;
                    }
                }
            }
        }
        if r is Ok {
            let t = r->Ok_0;
            assert forall|v: int| 0 <= v < graph.n() implies #[trigger] joined_by(graph, t.edges@, 0, v) by {
                assert forall|x: usize| chosen@.contains(x) implies #[trigger] t.edges@.contains(x) by {}
                lemma_joined_more(graph, chosen@, t.edges@, 0, v);
            }
            assert forall|i: int|
                0 <= i < graph.edges@.len() && !t.edges@.contains(i as usize) && graph.edges@[i].source != graph.edges@[i].target
                    implies #[trigger] joined_light(
                    graph,
                    t.edges@,
                    graph.edges@[i].weight.wv(),
                    graph.edges@[i].source as int,
                    graph.edges@[i].target as int,
                ) by {
                assert(cand@.contains(i as usize));
                let c = choose|c: int| 0 <= c < cand@.len() && cand@[c] == i as usize;
                assert(order@.contains(cand@[c]));
                let a = choose|a: int| 0 <= a < order@.len() && order@[a] == i as usize;
                assert(light_edge_joined(graph, chosen@, order@[a] as int));
                assert forall|x: usize| chosen@.contains(x) implies #[trigger] t.edges@.contains(x) by {}
                lemma_light_more(graph, chosen@, t.edges@, graph.edges@[i].weight.wv(), graph.edges@[i].source as int, graph.edges@[i].target as int);
            }
            assert forall|e: int| 0 <= e < graph.edges@.len() implies (t.edges@.contains(e as usize) <==> key_necessary(graph, e)) by {
                if graph.edges@[e].source != graph.edges@[e].target {
                    assert(cand@.contains(e as usize));
                    let c = choose|c: int| 0 <= c < cand@.len() && cand@[c] == e as usize;
                    assert(order@.contains(cand@[c]));
                    let a = choose|a: int| 0 <= a < order@.len() && order@[a] == e as usize;
                    assert(chosen@.contains(order@[a]) <==> key_necessary(graph, order@[a] as int));
                } else {
                    if t.edges@.contains(e as usize) {
                        let a = choose|a: int| 0 <= a < t.edges@.len() && t.edges@[a] == e as usize;
                    }
                }
            }
            lemma_tree_lightest(graph, t);
        }
    }
    r
}

/// Two strictly ascending lists with the same members are equal.
proof fn lemma_ascending_same_members(a: Seq<usize>, b: Seq<usize>)
    requires
        forall|i: int, j: int| 0 <= i < j < a.len() ==> #[trigger] a[i] < #[trigger] a[j],
        forall|i: int, j: int| 0 <= i < j < b.len() ==> #[trigger] b[i] < #[trigger] b[j],
        forall|x: usize| #[trigger] a.contains(x) <==> b.contains(x),
    ensures
        a == b,
    decreases a.len(),
{
    if a.len() == 0 {
        if b.len() > 0 {
            assert(b.contains(b[0]));
            assert(!a.contains(b[0]));
        }
        assert(b.len() == 0);
    } else if b.len() == 0 {
        assert(a.contains(a[0]));
        assert(!b.contains(a[0]));
    } else {
        let la = a.last();
        let lb = b.last();
        assert(a.contains(la));
        assert(b.contains(lb));
        assert(b.contains(la));
        assert(a.contains(lb));
        let ib = choose|i: int| 0 <= i < b.len() && b[i] == la;
        let ia = choose|i: int| 0 <= i < a.len() && a[i] == lb;
        if ib < b.len() - 1 {
            assert(b[ib] < b[b.len() - 1]);
        }
        if ia < a.len() - 1 {
            assert(a[ia] < a[a.len() - 1]);
        }
        assert(la == lb);
        let a1 = a.drop_last();
        let b1 = b.drop_last();
        assert forall|x: usize| #[trigger] a1.contains(x) <==> b1.contains(x) by {
            if a1.contains(x) {
                let i = choose|i: int| 0 <= i < a1.len() && a1[i] == x;
                assert(a[i] < a[a.len() - 1]);
                assert(a.contains(x));
                let j = choose|j: int| 0 <= j < b.len() && b[j] == x;
                assert(j != b.len() - 1);
                assert(b1[j] == x);
            }
            if b1.contains(x) {
                let i = choose|i: int| 0 <= i < b1.len() && b1[i] == x;
                assert(b[i] < b[b.len() - 1]);
                assert(b.contains(x));
                assert(a.contains(x));
                assert(x != a[a.len() - 1]);
                let j = choose|j: int| 0 <= j < a.len() && a[j] == x;
                assert(j != a.len() - 1);
                assert(a1[j] == x);
            }
        }
        lemma_ascending_same_members(a1, b1);
        assert(a =~= a1.push(la));
        assert(b =~= b1.push(lb));
    }
}

/// Prim's and Kruskal's algorithms build the same spanning tree: both keep
/// exactly the edges whose endpoints no path of earlier edges in
/// `(weight, min endpoint, max endpoint, id)` order joins, so their sorted
/// edge lists and total weights agree.
pub proof fn lemma_prim_matches_kruskal<N, W: MstWeight>(g: &Graph<N, W>, tk: SpanningTree<W>, tp: SpanningTree<W>)
    requires
        g.valid(),
        is_tree_shape(g, tk),
        is_tree_shape(g, tp),
        forall|e: int| 0 <= e < g.edges@.len() ==> (#[trigger] tk.edges@.contains(e as usize) <==> key_necessary(g, e)),
        forall|a: int| 0 <= a < tp.edges@.len() ==> key_necessary(g, #[trigger] tp.edges@[a] as int),
    ensures
        tp.edges@ == tk.edges@,
        tp.total_weight.wv() == tk.total_weight.wv(),
{
    let a = tp.edges@;
    let b = tk.edges@;
    assert forall|i: int, j: int| 0 <= i < j < a.len() implies a[i] != a[j] by {
        assert(a[i] < a[j]);
    }
    assert forall|i: int, j: int| 0 <= i < j < b.len() implies b[i] != b[j] by {
        assert(b[i] < b[j]);
    }
    assert(a.no_duplicates());
    assert(b.no_duplicates());
    a.unique_seq_to_set();
    b.unique_seq_to_set();
    assert(a.to_set().subset_of(b.to_set())) by {
        assert forall|x: usize| a.to_set().contains(x) implies b.to_set().contains(x) by {
            assert(a.contains(x));
            let i = choose|i: int| 0 <= i < a.len() && a[i] == x;
            assert(key_necessary(g, a[i] as int));
            assert(b.contains((x as int) as usize));
        }
    }
    vstd::seq_lib::seq_to_set_is_finite(a);
    vstd::seq_lib::seq_to_set_is_finite(b);
    vstd::set_lib::lemma_subset_equality(a.to_set(), b.to_set());
    assert forall|x: usize| #[trigger] a.contains(x) <==> b.contains(x) by {
        assert(a.contains(x) <==> a.to_set().contains(x));
        assert(b.contains(x) <==> b.to_set().contains(x));
    }
    lemma_ascending_same_members(a, b);
}

/// Every crossing edge whose far end is not `to` is queued.
pub open spec fn crossing_queued_except<N, W>(
    g: &Graph<N, W>,
    in_tree: Seq<bool>,
    heap: Seq<(W, usize, usize, usize, usize)>,
    to: int,
) -> bool {
    forall|e: int| 0 <= e < g.edges@.len() ==> #[trigger] edge_queued_unless(g, in_tree, heap, e, to)
}

/// Edge `e`, if a non-loop edge leaving the tree towards a far end other
/// than `to`, is queued towards that end.
pub open spec fn edge_queued_unless<N, W>(
    g: &Graph<N, W>,
    in_tree: Seq<bool>,
    heap: Seq<(W, usize, usize, usize, usize)>,
    e: int,
    to: int,
) -> bool {
    let s = g.edges@[e].source as int;
    let t = g.edges@[e].target as int;
    s != t ==> {
        &&& (in_tree[s] && !in_tree[t] && t != to ==> queued(heap, e, t))
        &&& (in_tree[t] && !in_tree[s] && s != to ==> queued(heap, e, s))
    }
}

/// Removing the queue entry towards `to` keeps every other crossing edge
/// queued.
proof fn lemma_crossing_remove<N, W>(
    g: &Graph<N, W>,
    tr: Seq<bool>,
    h0: Seq<(W, usize, usize, usize, usize)>,
    bi: int,
)
    requires
        0 <= bi < h0.len(),
        crossing_queued(g, tr, h0),
    ensures
        crossing_queued_except(g, tr, h0.remove(bi), h0[bi].4 as int),
{
    let h1 = h0.remove(bi);
    let to = h0[bi].4 as int;
    assert forall|e: int, far: int| queued(h0, e, far) && far != to implies #[trigger] queued(h1, e, far) by {
        let j = choose|j: int| 0 <= j < h0.len() && h0[j].3 == e && h0[j].4 == far;
        if j < bi {
            assert(h1[j] == h0[j]);
        } else {
            assert(j != bi);
            assert(h1[j - 1] == h0[j]);
        }
    }
    assert forall|e: int| 0 <= e < g.edges@.len() implies #[trigger] edge_queued_unless(g, tr, h1, e, to) by {
        assert(edge_queued_if_crossing(g, tr, h0, e));
    }
}

/// A queue that keeps the other crossing edges, once `to` joins the tree
/// and its own edges are queued, queues every crossing edge.
proof fn lemma_crossing_add<N, W: MstWeight>(
    g: &Graph<N, W>,
    tr: Seq<bool>,
    h1: Seq<(W, usize, usize, usize, usize)>,
    h2: Seq<(W, usize, usize, usize, usize)>,
    row: Seq<(W, usize, usize)>,
    to: int,
)
    requires
        g.valid(),
        0 <= to < tr.len(),
        tr.len() == g.n(),
        crossing_queued_except(g, tr, h1, to),
        h2.len() >= h1.len(),
        forall|j: int| 0 <= j < h1.len() ==> #[trigger] h2[j] == h1[j],
        forall|k: int| 0 <= k < row.len() ==> prim_adj_ok(g, to, #[trigger] row[k]),
        forall|e: int|
            0 <= e < g.edges@.len() && g.edges@[e].source != g.edges@[e].target && (g.edges@[e].source == to
                || g.edges@[e].target == to) ==> #[trigger] row_has(row, e),
        forall|k: int| 0 <= k < row.len() && !tr.update(to, true)[row[k].1 as int] ==> #[trigger] queued(
            h2,
            row[k].2 as int,
            row[k].1 as int,
        ),
    ensures
        crossing_queued(g, tr.update(to, true), h2),
{
    let tr2 = tr.update(to, true);
    assert forall|e: int, far: int| queued(h1, e, far) implies #[trigger] queued(h2, e, far) by {
        let j = choose|j: int| 0 <= j < h1.len() && h1[j].3 == e && h1[j].4 == far;
        assert(h2[j] == h1[j]);
    }
    assert forall|e: int| 0 <= e < g.edges@.len() implies #[trigger] edge_queued_if_crossing(g, tr2, h2, e) by {
        let s = g.edges@[e].source as int;
        let t = g.edges@[e].target as int;
        assert(g.edge_ok(e));
        if s != t {
            if s == to || t == to {
                assert(row_has(row, e));
                let k = choose|k: int| 0 <= k < row.len() && row[k].2 == e;
                assert(prim_adj_ok(g, to, row[k]));
                if tr2[s] && !tr2[t] {
                    assert(row[k].1 as int == t);
                    assert(queued(h2, row[k].2 as int, row[k].1 as int));
                }
                if tr2[t] && !tr2[s] {
                    assert(row[k].1 as int == s);
                    assert(queued(h2, row[k].2 as int, row[k].1 as int));
                }
            } else {
                assert(edge_queued_unless(g, tr, h1, e, to));
                if tr2[s] && !tr2[t] {
                    assert(queued(h1, e, t));
                }
                if tr2[t] && !tr2[s] {
                    assert(queued(h1, e, s));
                }
            }
        }
    }
}

/// All `m` counted entries true means every entry is true.
proof fn lemma_count_true_full(v: Seq<bool>, m: nat)
    requires
        m <= v.len(),
        count_true(v, m) == m,
    ensures
        forall|x: int| 0 <= x < m ==> #[trigger] v[x],
    decreases m,
{
    if m > 0 {
        lemma_count_true_le(v, (m - 1) as nat);
        lemma_count_true_full(v, (m - 1) as nat);
    }
}

/// Fewer than `m` counted entries means some entry is false.
proof fn lemma_count_true_short(v: Seq<bool>, m: nat) -> (x: int)
    requires
        m <= v.len(),
        count_true(v, m) < m,
    ensures
        0 <= x < m,
        !v[x],
    decreases m,
{
    if v[m - 1] {
        lemma_count_true_short(v, (m - 1) as nat)
    } else {
        m - 1
    }
}

/// Joining the sets of an edge's endpoints and listing the edge keeps every
/// pair of a set joined by the listed edges.
pub(crate) proof fn lemma_kruskal_join<N, W>(
    g: &Graph<N, W>,
    rep0: Seq<usize>,
    rep1: Seq<usize>,
    ch0: Seq<usize>,
    ch1: Seq<usize>,
    id: usize,
    n: nat,
)
    requires
        g.valid(),
        n == g.n(),
        (id as int) < g.edges@.len(),
        ch1 == ch0.push(id),
        rep0.len() == n,
        rep1.len() == n,
        rep1[g.edges@[id as int].source as int] == rep0[g.edges@[id as int].source as int]
            || rep1[g.edges@[id as int].source as int] == rep0[g.edges@[id as int].target as int],
        forall|i: int|
            0 <= i < n ==> #[trigger] rep1[i] == if rep0[i] == rep0[g.edges@[id as int].source as int] || rep0[i]
                == rep0[g.edges@[id as int].target as int] {
                rep1[g.edges@[id as int].source as int]
            } else {
                rep0[i]
            },
        forall|x: int, y: int|
            0 <= x < n && 0 <= y < n && #[trigger] rep0[x] == #[trigger] rep0[y] ==> joined_by(g, ch0, x, y),
    ensures
        forall|x: int, y: int|
            0 <= x < n && 0 <= y < n && #[trigger] rep1[x] == #[trigger] rep1[y] ==> joined_by(g, ch1, x, y),
{
    assert(g.edge_ok(id as int));
    let s = g.edges@[id as int].source as int;
    let t = g.edges@[id as int].target as int;
    let ra = rep0[s];
    let rb = rep0[t];
    assert forall|x: usize| ch0.contains(x) implies #[trigger] ch1.contains(x) by {
        let a = choose|a: int| 0 <= a < ch0.len() && ch0[a] == x;
        assert(ch1[a] == x);
    }
    assert(ch1[ch1.len() - 1] == id);
    lemma_joined_edge(g, ch1, ch1.len() - 1);
    lemma_joined_sym(g, ch1, s, t);
    assert forall|x: int, y: int|
        0 <= x < n && 0 <= y < n && #[trigger] rep1[x] == #[trigger] rep1[y] implies joined_by(g, ch1, x, y) by {
        let inx = rep0[x] == ra || rep0[x] == rb;
        let iny = rep0[y] == ra || rep0[y] == rb;
        if rep0[x] == rep0[y] {
            lemma_joined_more(g, ch0, ch1, x, y);
        } else if inx && iny {
            if rep0[x] == ra {
                lemma_joined_more(g, ch0, ch1, x, s);
                lemma_joined_more(g, ch0, ch1, t, y);
                lemma_joined_trans(g, ch1, x, s, t);
                lemma_joined_trans(g, ch1, x, t, y);
            } else {
                lemma_joined_more(g, ch0, ch1, x, t);
                lemma_joined_more(g, ch0, ch1, s, y);
                lemma_joined_trans(g, ch1, x, t, s);
                lemma_joined_trans(g, ch1, x, s, y);
            }
        } else {
            assert(rep1[s] == ra || rep1[s] == rb);
            if inx {
                assert(rep1[y] == rep0[y]);
            } else {
                assert(rep1[x] == rep0[x]);
            }
        }
    }
}

/// One step of Kruskal's scan keeps every scanned edge lightly joined: the
/// edge just scanned has its endpoints in one set, and every kept edge is no
/// heavier than it.
proof fn lemma_kruskal_light_step<N, W: MstWeight>(
    g: &Graph<N, W>,
    ch0: Seq<usize>,
    ch1: Seq<usize>,
    order: Seq<usize>,
    k: int,
    rep: Seq<usize>,
)
    requires
        0 <= k < order.len(),
        (order[k] as int) < g.edges@.len(),
        rep.len() == g.n(),
        g.valid(),
        ch1 == ch0 || ch1 == ch0.push(order[k]),
        rep[g.edges@[order[k] as int].source as int] == rep[g.edges@[order[k] as int].target as int],
        forall|x: int, y: int|
            0 <= x < g.n() && 0 <= y < g.n() && #[trigger] rep[x] == #[trigger] rep[y] ==> joined_by(g, ch1, x, y),
        forall|c: int, j: int| 0 <= c < ch0.len() && k <= j < order.len() ==> edge_wv(g, #[trigger] ch0[c] as int) <= edge_wv(g, #[trigger] order[j] as int),
        forall|a: int| 0 <= a < k ==> light_edge_joined(g, ch0, #[trigger] order[a] as int),
    ensures
        forall|a: int| 0 <= a <= k ==> light_edge_joined(g, ch1, #[trigger] order[a] as int),
{
    assert forall|x: usize| ch0.contains(x) implies #[trigger] ch1.contains(x) by {
        let a = choose|a: int| 0 <= a < ch0.len() && ch0[a] == x;
        assert(ch1[a] == x);
    }
    let e = order[k] as int;
    assert(g.edge_ok(e));
    assert forall|c: int| 0 <= c < ch1.len() implies g.edges@[#[trigger] ch1[c] as int].weight.wv() <= g.edges@[e].weight.wv() by {
        if c < ch0.len() {
            assert(ch1[c] == ch0[c]);
            assert(edge_wv(g, ch0[c] as int) <= edge_wv(g, order[k] as int));
        }
    }
    lemma_light_from_join(g, ch1, g.edges@[e].weight.wv(), g.edges@[e].source as int, g.edges@[e].target as int);
    assert forall|a: int| 0 <= a <= k implies light_edge_joined(g, ch1, #[trigger] order[a] as int) by {
        if a < k {
            let f = order[a] as int;
            lemma_light_more(g, ch0, ch1, g.edges@[f].weight.wv(), g.edges@[f].source as int, g.edges@[f].target as int);
        }
    }
}

/// One step of Kruskal's scan keeps exactly the key-necessary edges among
/// those scanned: the edge just scanned is kept exactly when its endpoints
/// lay in different sets, that is, when no earlier edges join them.
proof fn lemma_kruskal_key_step<N, W: MstWeight>(
    g: &Graph<N, W>,
    ch0: Seq<usize>,
    ch1: Seq<usize>,
    order: Seq<usize>,
    cand: Seq<usize>,
    k: int,
    rep0: Seq<usize>,
)
    requires
        g.valid(),
        rep0.len() == g.n(),
        0 <= k < order.len(),
        forall|a: int| 0 <= a < order.len() ==> #[trigger] order[a] < g.edges@.len(),
        forall|a: int, b: int| 0 <= a < b < order.len() ==> key_before(g, #[trigger] order[a] as int, #[trigger] order[b] as int),
        forall|x: int| 0 <= x < g.edges@.len() && g.edges@[x].source != g.edges@[x].target ==> #[trigger] cand.contains(
            x as usize,
        ),
        forall|a: int| 0 <= a < cand.len() ==> #[trigger] order.contains(cand[a]),
        forall|a: int| 0 <= a < k ==> rep0[g.edges@[#[trigger] order[a] as int].source as int]
            == rep0[g.edges@[order[a] as int].target as int],
        forall|x: int, y: int|
            0 <= x < g.n() && 0 <= y < g.n() && #[trigger] rep0[x] == #[trigger] rep0[y] ==> joined_by(g, ch0, x, y),
        forall|c: int| 0 <= c < ch0.len() ==> (#[trigger] ch0[c] as int) < g.edges@.len() && key_before(g, ch0[c] as int, order[k] as int),
        g.edges@[order[k] as int].source != g.edges@[order[k] as int].target,
        rep0[g.edges@[order[k] as int].source as int] != rep0[g.edges@[order[k] as int].target as int] ==> ch1 == ch0.push(order[k]),
        rep0[g.edges@[order[k] as int].source as int] == rep0[g.edges@[order[k] as int].target as int] ==> ch1 == ch0,
        forall|a: int| 0 <= a < k ==> (ch0.contains(#[trigger] order[a]) <==> key_necessary(g, order[a] as int)),
    ensures
        forall|a: int| 0 <= a <= k ==> (ch1.contains(#[trigger] order[a]) <==> key_necessary(g, order[a] as int)),
{
    let e = order[k] as int;
    let s0 = g.edges@[e].source as int;
    let t0 = g.edges@[e].target as int;
    assert(g.edge_ok(e));
    assert(!ch0.contains(order[k])) by {
        if ch0.contains(order[k]) {
            let c = choose|c: int| 0 <= c < ch0.len() && ch0[c] == order[k];
            lemma_key_order(g, e, e, e);
        }
    }
    if rep0[s0] != rep0[t0] {
        let st = Set::new(|x: int| 0 <= x < g.n() && rep0[x] == rep0[s0]);
        assert forall|i: int| 0 <= i < g.edges@.len() && #[trigger] key_before(g, i, e) implies (st.contains(
            g.edges@[i].source as int,
        ) <==> st.contains(g.edges@[i].target as int)) by {
            assert(g.edge_ok(i));
            if g.edges@[i].source != g.edges@[i].target {
                assert(cand.contains(i as usize));
                let c = choose|c: int| 0 <= c < cand.len() && cand[c] == i as usize;
                assert(order.contains(cand[c]));
                let a = choose|a: int| 0 <= a < order.len() && order[a] == i as usize;
                if a >= k {
                    if a > k {
                        assert(key_before(g, order[k] as int, order[a] as int));
                    }
                    lemma_key_order(g, i, e, i);
                }
                assert(rep0[g.edges@[order[a] as int].source as int] == rep0[g.edges@[order[a] as int].target as int]);
            }
        }
        assert(closed_under_key_smaller(g, e, st));
        assert(st.contains(s0) && !st.contains(t0));
        assert(key_necessary(g, e));
        assert(ch1[ch1.len() - 1] == order[k]);
    } else {
        assert(joined_by(g, ch0, s0, t0));
        lemma_key_joined_from(g, ch0, e, s0, t0);
    }
    assert forall|a: int| 0 <= a <= k implies (ch1.contains(#[trigger] order[a]) <==> key_necessary(g, order[a] as int)) by {
        if a < k {
            assert(order[a] != order[k]) by {
                lemma_key_order(g, order[a] as int, order[a] as int, order[a] as int);
            }
            if ch1.contains(order[a]) && ch1 != ch0 {
                let c = choose|c: int| 0 <= c < ch1.len() && ch1[c] == order[a];
                assert(c < ch0.len());
                assert(ch0[c] == order[a]);
            }
            if ch0.contains(order[a]) {
                let c = choose|c: int| 0 <= c < ch0.len() && ch0[c] == order[a];
                assert(ch1[c] == order[a]);
            }
        }
    }
}

/// A partition into sets named by their roots, merged further along the
/// listed edges: each edge merges at most two sets, so at most one root is
/// lost per edge, and every listed edge ends inside one set.
pub(crate) proof fn lemma_coarsen<N, W>(g: &Graph<N, W>, rep: Seq<usize>, rest: Seq<usize>) -> (f: Seq<usize>)
    requires
        g.valid(),
        g.n() <= usize::MAX,
        rep.len() == g.n(),
        forall|x: int| 0 <= x < g.n() ==> (#[trigger] rep[x] as int) < g.n() && rep[rep[x] as int] == rep[x],
        forall|a: int| 0 <= a < rest.len() ==> (#[trigger] rest[a] as int) < g.edges@.len(),
    ensures
        f.len() == g.n(),
        forall|x: int| 0 <= x < g.n() ==> (#[trigger] f[x] as int) < g.n() && f[f[x] as int] == f[x],
        root_count(f, g.n()) + rest.len() >= root_count(rep, g.n()),
        forall|x: int, y: int| 0 <= x < g.n() && 0 <= y < g.n() && #[trigger] rep[x] == #[trigger] rep[y] ==> f[x] == f[y],
        forall|a: int| 0 <= a < rest.len() ==> f[g.edges@[#[trigger] rest[a] as int].source as int]
            == f[g.edges@[rest[a] as int].target as int],
    decreases rest.len(),
{
    let n = g.n();
    if rest.len() == 0 {
        rep
    } else {
        let e = rest[0] as int;
        assert(g.edge_ok(e));
        let s = g.edges@[e].source as int;
        let t = g.edges@[e].target as int;
        let w = rep[s];
        let l = rep[t];
        let r1 = if w == l {
            rep
        } else {
            Seq::new(rep.len(), |i: int| if rep[i] == l { w } else { rep[i] })
        };
        if w != l {
            lemma_root_count_relabel(rep, r1, w, l, n);
            assert forall|x: int| 0 <= x < n implies (#[trigger] r1[x] as int) < n && r1[r1[x] as int] == r1[x] by {
                if rep[x] == l {
                    assert(rep[w as int] == w);
                } else {
                    assert(rep[rep[x] as int] == rep[x]);
                }
            }
        }
        assert(r1[s] == r1[t]);
        let rest1 = rest.drop_first();
        let f = lemma_coarsen(g, r1, rest1);
        assert forall|x: int, y: int| 0 <= x < n && 0 <= y < n && #[trigger] rep[x] == #[trigger] rep[y] implies f[x] == f[y] by {
            assert(r1[x] == r1[y]);
        }
        assert forall|a: int| 0 <= a < rest.len() implies f[g.edges@[#[trigger] rest[a] as int].source as int]
            == f[g.edges@[rest[a] as int].target as int] by {
            if a > 0 {
                assert(rest1[a - 1] == rest[a]);
            }
        }
        f
    }
}

/// Listed edges that keep two roots of a partition into closed sets apart
/// do not join every node to node `0`.
pub(crate) proof fn lemma_two_sets_not_spanning<N, W>(g: &Graph<N, W>, ids: Seq<usize>, f: Seq<usize>)
    requires
        g.n() <= usize::MAX,
        f.len() == g.n(),
        root_count(f, g.n()) >= 2,
        forall|a: int| 0 <= a < ids.len() ==> f[g.edges@[#[trigger] ids[a] as int].source as int]
            == f[g.edges@[ids[a] as int].target as int],
        forall|a: int| 0 <= a < ids.len() ==> g.edges@[#[trigger] ids[a] as int].source < g.n()
            && g.edges@[ids[a] as int].target < g.n(),
    ensures
        !spans(g, ids),
{
    let (r1, r2) = lemma_roots_differ(f, g.n());
    let st = Set::new(|x: int| 0 <= x < g.n() && f[x] == r1 as usize);
    assert(closed_under_edges(g, ids, st));
    assert(!joined_by(g, ids, r1, r2));
    if spans(g, ids) {
        assert(joined_by(g, ids, 0, r1));
        assert(joined_by(g, ids, 0, r2));
        lemma_joined_sym(g, ids, 0, r1);
        lemma_joined_trans(g, ids, r1, 0, r2);
    }
}

/// When the scan ends with two or more sets, the set of one root is closed
/// under the graph's arcs and misses the other root: the graph is
/// disconnected.
proof fn lemma_kruskal_disconnected<N, W>(g: &Graph<N, W>, rep: Seq<usize>, order: Seq<usize>, cand: Seq<usize>)
    requires
        g.valid(),
        g.n() <= usize::MAX,
        rep.len() == g.n(),
        root_count(rep, g.n()) >= 2,
        forall|x: int| 0 <= x < g.edges@.len() && g.edges@[x].source != g.edges@[x].target ==> #[trigger] cand.contains(
            x as usize,
        ),
        forall|a: int| 0 <= a < cand.len() ==> #[trigger] order.contains(cand[a]),
        forall|a: int| 0 <= a < order.len() ==> rep[g.edges@[#[trigger] order[a] as int].source as int]
            == rep[g.edges@[order[a] as int].target as int],
    ensures
        disconnected(g),
{
    let n = g.n();
    let (r1, r2) = lemma_roots_differ(rep, n);
    let s = Set::new(|v: int| 0 <= v < n && rep[v] == r1 as usize);
    assert forall|u: int, v: int| s.contains(u) && 0 <= v < n && #[trigger] step(g, false, u, v) implies s.contains(v) by {
        let e = choose|e: int| 0 <= e < g.edges@.len() && #[trigger] g.edge_joins(e, u, v);
        assert(g.edge_ok(e));
        if g.edges@[e].source != g.edges@[e].target {
            assert(cand.contains(e as usize));
            let c = choose|c: int| 0 <= c < cand.len() && cand[c] == e as usize;
            assert(order.contains(cand[c]));
            let a = choose|a: int| 0 <= a < order.len() && order[a] == e as usize;
            assert(rep[g.edges@[order[a] as int].source as int] == rep[g.edges@[order[a] as int].target as int]);
        }
    }
    assert(closed(g, false, s));
    assert(!s.contains(r2));
    assert(!reaches(g, false, r1, r2));
}

/// With one set left, every node shares node `0`'s set and so is joined to
/// it.
proof fn lemma_kruskal_spans<N, W>(g: &Graph<N, W>, rep: Seq<usize>, chosen: Seq<usize>)
    requires
        g.n() >= 2,
        g.n() <= usize::MAX,
        rep.len() == g.n(),
        root_count(rep, g.n()) + chosen.len() == g.n(),
        chosen.len() == g.n() - 1,
        forall|x: int| 0 <= x < g.n() ==> (#[trigger] rep[x] as int) < g.n() && rep[rep[x] as int] == rep[x],
        forall|x: int, y: int|
            0 <= x < g.n() && 0 <= y < g.n() && #[trigger] rep[x] == #[trigger] rep[y] ==> joined_by(g, chosen, x, y),
    ensures
        spans(g, chosen),
{
    let n = g.n();
    assert forall|v: int| 0 <= v < n implies #[trigger] joined_by(g, chosen, 0, v) by {
        let a = rep[0] as int;
        let b = rep[v] as int;
        assert(rep[a] == a as usize);
        assert(rep[b] == b as usize);
        if a < b {
            lemma_two_roots(rep, a, b, n);
        } else if b < a {
            lemma_two_roots(rep, b, a, n);
        }
        assert(rep[0] == rep[v]);
    }
}

/// The node set `s` is closed under every non-loop edge of `g` of weight at
/// most `m`, taken either way.
pub open spec fn closed_under_graph_light<N, W: MstWeight>(g: &Graph<N, W>, m: int, s: Set<int>) -> bool {
    forall|e: int|
        0 <= e < g.edges@.len() && #[trigger] g.edges@[e].weight.wv() <= m ==> (s.contains(g.edges@[e].source as int)
            <==> s.contains(g.edges@[e].target as int))
}

/// `u` and `v` are joined by a path of edges of `g`, each of weight at most
/// `m`.
pub open spec fn graph_joined_light<N, W: MstWeight>(g: &Graph<N, W>, m: int, u: int, v: int) -> bool {
    forall|s: Set<int>| #[trigger] closed_under_graph_light(g, m, s) ==> (s.contains(u) ==> s.contains(v))
}

/// Among the nodes marked in `in_tree`, any two joined in `g` by edges of
/// weight at most `m` are joined by listed edges of weight at most `m`.
pub open spec fn minimax_tree<N, W: MstWeight>(g: &Graph<N, W>, in_tree: Seq<bool>, ids: Seq<usize>) -> bool {
    forall|x: int, z: int, m: int|
        0 <= x < g.n() && 0 <= z < g.n() && in_tree[x] && in_tree[z] && #[trigger] graph_joined_light(g, m, x, z)
            ==> joined_light(g, ids, m, x, z)
}

/// Graph light joins are symmetric.
proof fn lemma_graph_light_sym<N, W: MstWeight>(g: &Graph<N, W>, m: int, u: int, v: int)
    requires
        graph_joined_light(g, m, u, v),
    ensures
        graph_joined_light(g, m, v, u),
{
    assert forall|s: Set<int>| #[trigger] closed_under_graph_light(g, m, s) implies (s.contains(v) ==> s.contains(u)) by {
        let c = s.complement();
        assert(closed_under_graph_light(g, m, c));
        if s.contains(v) && !s.contains(u) {
            assert(c.contains(u));
        }
    }
}

/// One Prim step keeps the minimax property: the node `to` joins the tree
/// by edge `id` from `other`, no heavier than any edge leaving the tree.
proof fn lemma_prim_minimax_step<N, W: MstWeight>(
    g: &Graph<N, W>,
    t0: Seq<bool>,
    ch0: Seq<usize>,
    ch1: Seq<usize>,
    id: usize,
    to: int,
    other: int,
)
    requires
        g.valid(),
        t0.len() == g.n(),
        0 <= to < g.n(),
        0 <= other < g.n(),
        !t0[to],
        t0[other],
        (id as int) < g.edges@.len(),
        (g.edges@[id as int].source == to && g.edges@[id as int].target == other) || (g.edges@[id as int].target == to
            && g.edges@[id as int].source == other),
        ch1 == ch0.push(id),
        forall|e: int|
            0 <= e < g.edges@.len() && g.edges@[e].source != g.edges@[e].target && t0[g.edges@[e].source as int]
                != t0[g.edges@[e].target as int] ==> g.edges@[id as int].weight.wv() <= #[trigger] g.edges@[e].weight.wv(),
        minimax_tree(g, t0, ch0),
    ensures
        minimax_tree(g, t0.update(to, true), ch1),
{
    let t1 = t0.update(to, true);
    let wid = g.edges@[id as int].weight.wv();
    assert forall|x: usize| ch0.contains(x) implies #[trigger] ch1.contains(x) by {
        let a = choose|a: int| 0 <= a < ch0.len() && ch0[a] == x;
        assert(ch1[a] == x);
    }
    assert(ch1[ch1.len() - 1] == id);
    // Any node of the old tree joined lightly to `to` is joined lightly to it
    // through `other` and the new edge.
    assert forall|x: int, m: int|
        0 <= x < g.n() && t0[x] && #[trigger] graph_joined_light(g, m, x, to) implies joined_light(g, ch1, m, x, to) by {
        if wid > m {
            let s = Set::new(|y: int| 0 <= y < g.n() && t0[y]);
            assert forall|e: int|
                0 <= e < g.edges@.len() && #[trigger] g.edges@[e].weight.wv() <= m implies (s.contains(
                    g.edges@[e].source as int,
                ) <==> s.contains(g.edges@[e].target as int)) by {
                assert(g.edge_ok(e));
            }
            assert(closed_under_graph_light(g, m, s));
            assert(s.contains(x));
            assert(s.contains(to));
        }
        assert(wid <= m);
        assert forall|s: Set<int>| #[trigger] closed_under_graph_light(g, m, s) implies (s.contains(x) ==> s.contains(other)) by {
            assert(g.edges@[id as int].weight.wv() <= m);
        }
        assert(graph_joined_light(g, m, x, other));
        assert(joined_light(g, ch0, m, x, other));
        lemma_light_more(g, ch0, ch1, m, x, other);
        assert forall|s: Set<int>| #[trigger] closed_under_light(g, ch1, m, s) implies (s.contains(other) ==> s.contains(to)) by {
            assert(ch1[ch1.len() - 1] == id);
            assert(g.edges@[ch1[ch1.len() - 1] as int].weight.wv() <= m);
        }
        lemma_light_trans(g, ch1, m, x, other, to);
    }
    assert forall|x: int, z: int, m: int|
        0 <= x < g.n() && 0 <= z < g.n() && t1[x] && t1[z] && #[trigger] graph_joined_light(g, m, x, z) implies joined_light(
        g,
        ch1,
        m,
        x,
        z,
    ) by {
        if x != to && z != to {
            assert(t0[x] && t0[z]);
            lemma_light_more(g, ch0, ch1, m, x, z);
        } else if x != to && z == to {
            assert(t0[x]);
        } else if x == to && z != to {
            assert(t0[z]);
            lemma_graph_light_sym(g, m, x, z);
            assert(joined_light(g, ch1, m, z, x));
            lemma_light_sym(g, ch1, m, z, x);
        }
    }
}

/// A Prim queue entry `(weight, min end, max end, edge id, far end)`: a
/// non-loop edge with the far end as one endpoint and the other endpoint
/// already in the tree.
pub open spec fn prim_entry_ok<N, W: MstWeight>(g: &Graph<N, W>, in_tree: Seq<bool>, e: (W, usize, usize, usize, usize)) -> bool {
    let id = e.3 as int;
    &&& e.3 < g.edges@.len()
    &&& e.4 < g.n()
    &&& g.edges@[id].source != g.edges@[id].target
    &&& ((g.edges@[id].source == e.4 && in_tree[g.edges@[id].target as int]) || (g.edges@[id].target == e.4
        && in_tree[g.edges@[id].source as int]))
    &&& e.0.wv() == g.edges@[id].weight.wv()
    &&& e.1 == (if g.edges@[id].source <= g.edges@[id].target { g.edges@[id].source } else { g.edges@[id].target })
    &&& e.2 == (if g.edges@[id].source <= g.edges@[id].target { g.edges@[id].target } else { g.edges@[id].source })
}

/// An adjacency entry `(weight, other end, edge id)` of node `x`: a non-loop
/// edge joining `x` and the other end.
pub open spec fn prim_adj_ok<N, W: MstWeight>(g: &Graph<N, W>, x: int, a: (W, usize, usize)) -> bool {
    let id = a.2 as int;
    &&& a.2 < g.edges@.len()
    &&& a.1 < g.n()
    &&& g.edges@[id].source != g.edges@[id].target
    &&& ((g.edges@[id].source == x && g.edges@[id].target == a.1) || (g.edges@[id].target == x && g.edges@[id].source
        == a.1))
    &&& a.0.wv() == g.edges@[id].weight.wv()
}

/// Queue entry `a` comes before `b`: lexicographic on `(weight, min end,
/// max end, id, far end)`.
pub open spec fn entry_lt<W: MstWeight>(a: (W, usize, usize, usize, usize), b: (W, usize, usize, usize, usize)) -> bool {
    ||| a.0.wv() < b.0.wv()
    ||| (a.0.wv() == b.0.wv() && a.1 < b.1)
    ||| (a.0.wv() == b.0.wv() && a.1 == b.1 && a.2 < b.2)
    ||| (a.0.wv() == b.0.wv() && a.1 == b.1 && a.2 == b.2 && a.3 < b.3)
    ||| (a.0.wv() == b.0.wv() && a.1 == b.1 && a.2 == b.2 && a.3 == b.3 && a.4 < b.4)
}

/// The edge Prim's loop takes, the first queued entry leaving the tree, is
/// key-necessary: the tree's node set is closed under every earlier edge,
/// and it holds one end of the taken edge but not the other.
proof fn lemma_prim_key_step<N, W: MstWeight>(
    g: &Graph<N, W>,
    t0: Seq<bool>,
    h0: Seq<(W, usize, usize, usize, usize)>,
    bi: int,
)
    requires
        g.valid(),
        t0.len() == g.n(),
        0 <= bi < h0.len(),
        !t0[h0[bi].4 as int],
        forall|j: int| 0 <= j < h0.len() ==> prim_entry_ok(g, t0, #[trigger] h0[j]),
        forall|j: int| 0 <= j < h0.len() ==> !entry_lt(#[trigger] h0[j], h0[bi]),
        crossing_queued(g, t0, h0),
    ensures
        key_necessary(g, h0[bi].3 as int),
{
    let e = h0[bi].3 as int;
    let to = h0[bi].4 as int;
    assert(prim_entry_ok(g, t0, h0[bi]));
    assert(g.edge_ok(e));
    let src = g.edges@[e].source as int;
    let tgt = g.edges@[e].target as int;
    let st = Set::new(|x: int| 0 <= x < g.n() && t0[x]);
    assert forall|i: int| 0 <= i < g.edges@.len() && #[trigger] key_before(g, i, e) implies (st.contains(
        g.edges@[i].source as int,
    ) <==> st.contains(g.edges@[i].target as int)) by {
        assert(g.edge_ok(i));
        let si = g.edges@[i].source as int;
        let ti = g.edges@[i].target as int;
        if si != ti && t0[si] != t0[ti] {
            assert(edge_queued_if_crossing(g, t0, h0, i));
            let far = if t0[si] { ti } else { si };
            assert(queued(h0, i, far));
            let j = choose|j: int| 0 <= j < h0.len() && h0[j].3 == i && h0[j].4 == far;
            assert(prim_entry_ok(g, t0, h0[j]));
            assert(entry_lt(h0[j], h0[bi]));
        }
    }
    assert(closed_under_key_smaller(g, e, st));
    if src == to {
        let c = st.complement();
        assert(closed_under_key_smaller(g, e, c));
        assert(c.contains(src) && !c.contains(tgt));
    } else {
        assert(st.contains(src) && !st.contains(tgt));
    }
}

/// Whether queue entry `a` pops before `b`: lexicographic on
/// `(weight, min end, max end, id, far end)`.
fn entry_before<W: MstWeight>(a: &(W, usize, usize, usize, usize), b: &(W, usize, usize, usize, usize)) -> (r: bool)
    ensures
        r == entry_lt(*a, *b),
        r ==> a.0.wv() <= b.0.wv(),
        !r ==> b.0.wv() <= a.0.wv(),
{
    if a.0.lighter(&b.0) {
        return true;
    }
    if !a.0.same(&b.0) {
        return false;
    }
    if a.1 != b.1 {
        return a.1 < b.1;
    }
    if a.2 != b.2 {
        return a.2 < b.2;
    }
    if a.3 != b.3 {
        return a.3 < b.3;
    }
    a.4 < b.4
}

/// The non-loop edges at `x`, as `(weight, other end, edge id)` in edge order.
fn incident_row<N, W: MstWeight>(graph: &Graph<N, W>, x: usize) -> (r: Vec<(W, usize, usize)>)
    requires
        graph.valid(),
    ensures
        forall|k: int| 0 <= k < r@.len() ==> prim_adj_ok(graph, x as int, #[trigger] r@[k]),
        forall|e: int|
            0 <= e < graph.edges@.len() && graph.edges@[e].source != graph.edges@[e].target && (graph.edges@[e].source
                == x || graph.edges@[e].target == x) ==> #[trigger] row_has(r@, e),
{
    let mut row: Vec<(W, usize, usize)> = Vec::new();
    let mut i: usize = 0;
    while i < graph.edges.len()
        invariant
            graph.valid(),
            i <= graph.edges@.len(),
            forall|k: int| 0 <= k < row@.len() ==> prim_adj_ok(graph, x as int, #[trigger] row@[k]),
            forall|e: int|
                0 <= e < i && graph.edges@[e].source != graph.edges@[e].target && (graph.edges@[e].source == x
                    || graph.edges@[e].target == x) ==> #[trigger] row_has(row@, e),
        decreases graph.edges@.len() - i,
    {
        let e = &graph.edges[i];
        proof {
            assert(graph.edge_ok(i as int));
        }
        let ghost r0 = row@;
        if !e.is_self_loop() {
            if e.source == x {
                row.push((e.weight, e.target, e.id));
            } else if e.target == x {
                row.push((e.weight, e.source, e.id));
            }
        }
        proof {
            assert forall|f: int|
                0 <= f < i + 1 && graph.edges@[f].source != graph.edges@[f].target && (graph.edges@[f].source == x
                    || graph.edges@[f].target == x) implies #[trigger] row_has(row@, f) by {
                if f < i {
                    assert(row_has(r0, f));
                    let k = choose|k: int| 0 <= k < r0.len() && r0[k].2 == f;
                    assert(row@[k] == r0[k]);
                } else {
                    assert(row@[row@.len() - 1].2 == f);
                }
            }
        }
        i += 1;
    }
    row
}

/// Some entry of an adjacency row is edge `e`.
pub open spec fn row_has<W>(row: Seq<(W, usize, usize)>, e: int) -> bool {
    exists|k: int| 0 <= k < row.len() && row[k].2 == e
}

/// Some Prim queue entry is edge `e` towards `far`.
pub open spec fn queued<W>(heap: Seq<(W, usize, usize, usize, usize)>, e: int, far: int) -> bool {
    exists|j: int| 0 <= j < heap.len() && heap[j].3 == e && heap[j].4 == far
}

/// Every non-loop edge leaving the tree is queued towards its far end.
pub open spec fn crossing_queued<N, W>(g: &Graph<N, W>, in_tree: Seq<bool>, heap: Seq<(W, usize, usize, usize, usize)>) -> bool {
    forall|e: int| 0 <= e < g.edges@.len() ==> #[trigger] edge_queued_if_crossing(g, in_tree, heap, e)
}

/// Edge `e`, if a non-loop edge leaving the tree, is queued towards its far
/// end.
pub open spec fn edge_queued_if_crossing<N, W>(
    g: &Graph<N, W>,
    in_tree: Seq<bool>,
    heap: Seq<(W, usize, usize, usize, usize)>,
    e: int,
) -> bool {
    let s = g.edges@[e].source as int;
    let t = g.edges@[e].target as int;
    s != t ==> {
        &&& (in_tree[s] && !in_tree[t] ==> queued(heap, e, t))
        &&& (in_tree[t] && !in_tree[s] ==> queued(heap, e, s))
    }
}

/// Queue every edge from `x` to a node outside the tree.
fn push_incident<N, W: MstWeight>(
    graph: &Graph<N, W>,
    heap: &mut Vec<(W, usize, usize, usize, usize)>,
    in_tree: &Vec<bool>,
    row: &Vec<(W, usize, usize)>,
    x: usize,
)
    requires
        x < graph.n(),
        in_tree@.len() == graph.n(),
        in_tree@[x as int],
        forall|k: int| 0 <= k < row@.len() ==> prim_adj_ok(graph, x as int, #[trigger] row@[k]),
        forall|j: int| 0 <= j < old(heap)@.len() ==> prim_entry_ok(graph, in_tree@, #[trigger] old(heap)@[j]),
    ensures
        forall|j: int| 0 <= j < final(heap)@.len() ==> prim_entry_ok(graph, in_tree@, #[trigger] final(heap)@[j]),
        final(heap)@.len() >= old(heap)@.len(),
        forall|j: int| 0 <= j < old(heap)@.len() ==> #[trigger] final(heap)@[j] == old(heap)@[j],
        forall|k: int| 0 <= k < row@.len() && !in_tree@[row@[k].1 as int] ==> #[trigger] queued(
            final(heap)@,
            row@[k].2 as int,
            row@[k].1 as int,
        ),
{
    let ghost start = heap@;
    let mut k: usize = 0;
    while k < row.len()
        invariant
            x < graph.n(),
            in_tree@.len() == graph.n(),
            in_tree@[x as int],
            k <= row@.len(),
            forall|k: int| 0 <= k < row@.len() ==> prim_adj_ok(graph, x as int, #[trigger] row@[k]),
            forall|j: int| 0 <= j < heap@.len() ==> prim_entry_ok(graph, in_tree@, #[trigger] heap@[j]),
            heap@.len() >= start.len(),
            forall|j: int| 0 <= j < start.len() ==> #[trigger] heap@[j] == start[j],
            forall|m: int| 0 <= m < k && !in_tree@[row@[m].1 as int] ==> #[trigger] queued(heap@, row@[m].2 as int, row@[m].1 as int),
        decreases row@.len() - k,
    {
        let ghost h1 = heap@;
        let (w, other, id) = row[k];
        proof {
            assert(prim_adj_ok(graph, x as int, row@[k as int]));
        }
        if !in_tree[other] {
            let lo = if x <= other { x } else { other };
            let hi = if x <= other { other } else { x };
            let ghost h0 = heap@;
            heap.push((w, lo, hi, id, other));
            proof {
                assert forall|j: int| 0 <= j < heap@.len() implies prim_entry_ok(graph, in_tree@, #[trigger] heap@[j]) by {
                    if j < h0.len() {
                        assert(heap@[j] == h0[j]);
                    }
                }
                assert(heap@[heap@.len() - 1] == (w, lo, hi, id, other));
            }
        }
        proof {
            assert forall|j: int| 0 <= j < start.len() implies #[trigger] heap@[j] == start[j] by {
                assert(heap@[j] == h1[j]);
            }
            assert forall|m: int| 0 <= m < k + 1 && !in_tree@[row@[m].1 as int] implies #[trigger] queued(heap@, row@[m].2 as int, row@[m].1 as int) by {
                if m < k {
                    assert(queued(h1, row@[m].2 as int, row@[m].1 as int));
                    let j = choose|j: int| 0 <= j < h1.len() && h1[j].3 == row@[m].2 as int && h1[j].4 == row@[m].1 as int;
                    assert(heap@[j] == h1[j]);
                } else {
                    assert(heap@[heap@.len() - 1].3 == row@[m].2);
                }
            }
        }
        k += 1;
    }
}

/// Prim's algorithm from node 0: repeatedly take the queued edge first in
/// `(weight, min end, max end, id, far end)` order whose far end is outside
/// the tree. Running out of edges before every node joins means the graph is
/// disconnected. A total weight outside the weight type fails with
/// `WeightOverflow`.
pub fn prims_mst<N, W: MstWeight>(graph: &Graph<N, W>) -> (r: Result<SpanningTree<W>, GraphError>)
    ensures
        !graph.valid() ==> (r matches Err(e) && graph.reports(e)),
        graph.valid() && !graph.undirected() ==> (r matches Err(e) && e is WrongGraphKind),
        graph.valid() && graph.undirected() && graph.n() <= 1 ==> (r matches Ok(t) && t.edges@.len() == 0 && t.total_weight.wv() == 0),
        graph.valid() && graph.undirected() ==> (match r {
            Ok(t) => is_tree_shape(graph, t) && spans(graph, t.edges@) && cycle_property(graph, t.edges@)
                && lightest_spanning(graph, t.edges@) && forall|a: int|
                0 <= a < t.edges@.len() ==> key_necessary(graph, #[trigger] t.edges@[a] as int),
            Err(e) => (e is Disconnected && disconnected(graph)) || (e is WeightOverflow && exists|ids: Seq<usize>|
                ids.len() == graph.n() - 1 && ascending_edges(graph, ids) && #[trigger] spans(graph, ids)
                    && running_sum_escapes(graph, ids) && forall|a: int|
                    0 <= a < ids.len() ==> key_necessary(graph, #[trigger] ids[a] as int)),
        }),
{
    require_undirected(graph)?;
    let n = graph.node_count();
    if n <= 1 {
        let t = SpanningTree { edges: Vec::new(), total_weight: W::zero() };
        proof {
            assert forall|v: int| 0 <= v < graph.n() implies #[trigger] joined_by(graph, t.edges@, 0, v) by {
                assert(v == 0);
            }
            assert forall|i: int| 0 <= i < graph.edges@.len() implies graph.edges@[i].source == graph.edges@[i].target by {
                assert(graph.edge_ok(i));
            }
            lemma_tree_lightest(graph, t);
        }
        return Ok(t);
    }
    let mut adj: Vec<Vec<(W, usize, usize)>> = Vec::new();
    let mut x: usize = 0;
    while x < n
        invariant
            graph.valid(),
            n == graph.n(),
            x <= n,
            adj@.len() == x,
            forall|y: int, k: int| 0 <= y < x && 0 <= k < adj@[y]@.len() ==> prim_adj_ok(graph, y, #[trigger] adj@[y]@[k]),
            forall|y: int, e: int|
                0 <= y < x && 0 <= e < graph.edges@.len() && graph.edges@[e].source != graph.edges@[e].target && (
                graph.edges@[e].source == y || graph.edges@[e].target == y) ==> #[trigger] row_has(adj@[y]@, e),
        decreases n - x,
    {
        let row = incident_row(graph, x);
        let ghost a0 = adj@;
        adj.push(row);
        proof {
            assert forall|y: int, k: int| 0 <= y < x + 1 && 0 <= k < adj@[y]@.len() implies prim_adj_ok(graph, y, #[trigger] adj@[y]@[k]) by {
                if y == x {
                    assert(adj@[y] == row);
                }
            }
            assert forall|y: int, e: int|
                0 <= y < x + 1 && 0 <= e < graph.edges@.len() && graph.edges@[e].source != graph.edges@[e].target && (
                graph.edges@[e].source == y || graph.edges@[e].target == y) implies #[trigger] row_has(adj@[y]@, e) by {
                if y == x {
                    assert(adj@[y] == row);
                } else {
                    assert(adj@[y] == a0[y]);
                }
            }
        }
        x += 1;
    }
    let mut in_tree = falses(n);
    let ghost n0 = n as nat;
    proof {
        lemma_count_all_false(n0);
        lemma_count_true_set(in_tree@, 0, n0);
    }
    let ghost f0 = in_tree@;
    in_tree.set(0, true);
    let mut heap: Vec<(W, usize, usize, usize, usize)> = Vec::new();
    proof {
        assert forall|e: int| 0 <= e < graph.edges@.len() implies #[trigger] edge_queued_unless(graph, f0, heap@, e, 0) by {
            assert(graph.edge_ok(e));
            assert(!f0[graph.edges@[e].source as int]);
            assert(!f0[graph.edges@[e].target as int]);
        }
        assert(in_tree@ == f0.update(0, true));
    }
    let ghost h_empty = heap@;
    push_incident(graph, &mut heap, &in_tree, &adj[0], 0);
    proof {
        lemma_crossing_add(graph, f0, h_empty, heap@, adj@[0]@, 0);
    }
    let mut chosen: Vec<usize> = Vec::new();
    proof {
        assert forall|v: int| 0 <= v < n && #[trigger] in_tree@[v] implies joined_by(graph, chosen@, 0, v) by {
            if v != 0 {
                assert(f0[v] == false);
            }
        }
    }
    proof {
        assert forall|x: int, z: int, m: int|
            0 <= x < graph.n() && 0 <= z < graph.n() && in_tree@[x] && in_tree@[z] && #[trigger] graph_joined_light(graph, m, x, z)
                implies joined_light(graph, chosen@, m, x, z) by {
            if x != 0 {
                assert(f0[x] == false);
            }
            if z != 0 {
                assert(f0[z] == false);
            }
        }
    }
    let mut count: usize = 1;
    while count < n
        invariant
            graph.valid(),
            n == graph.n(),
            n0 == n,
            n >= 2,
            1 <= count <= n,
            adj@.len() == n,
            forall|y: int, k: int| 0 <= y < n && 0 <= k < adj@[y]@.len() ==> prim_adj_ok(graph, y, #[trigger] adj@[y]@[k]),
            in_tree@.len() == n,
            count == count_true(in_tree@, n0),
            chosen@.len() == count - 1,
            forall|j: int| 0 <= j < heap@.len() ==> prim_entry_ok(graph, in_tree@, #[trigger] heap@[j]),
            forall|a: int| 0 <= a < chosen@.len() ==> #[trigger] chosen@[a] < graph.edges@.len()
                && graph.edges@[chosen@[a] as int].source != graph.edges@[chosen@[a] as int].target
                && in_tree@[graph.edges@[chosen@[a] as int].source as int] && in_tree@[graph.edges@[chosen@[a] as int].target as int],
            forall|a: int, b: int| 0 <= a < b < chosen@.len() ==> #[trigger] chosen@[a] != #[trigger] chosen@[b],
            forall|y: int, e: int|
                0 <= y < n && 0 <= e < graph.edges@.len() && graph.edges@[e].source != graph.edges@[e].target && (
                graph.edges@[e].source == y || graph.edges@[e].target == y) ==> #[trigger] row_has(adj@[y]@, e),
            crossing_queued(graph, in_tree@, heap@),
            in_tree@[0],
            forall|v: int| 0 <= v < n && #[trigger] in_tree@[v] ==> joined_by(graph, chosen@, 0, v),
            minimax_tree(graph, in_tree@, chosen@),
            forall|a: int| 0 <= a < chosen@.len() ==> key_necessary(graph, #[trigger] chosen@[a] as int),
        ensures
            count == n || heap@.len() == 0,
        decreases n0 - count, heap@.len(),
    {
        if heap.len() == 0 {
            break;
        }
        let mut bi: usize = 0;
        let mut k: usize = 1;
        while k < heap.len()
            invariant
                bi < heap@.len(),
                1 <= k <= heap@.len(),
                forall|j: int| 0 <= j < k ==> heap@[bi as int].0.wv() <= #[trigger] heap@[j].0.wv(),
                forall|j: int| 0 <= j < k ==> !entry_lt(#[trigger] heap@[j], heap@[bi as int]),
            decreases heap@.len() - k,
        {
            if entry_before(&heap[k], &heap[bi]) {
                bi = k;
            }
            k += 1;
        }
        let ghost h0 = heap@;
        let (w, lo, hi, id, to) = heap.remove(bi);
        proof {
            lemma_crossing_remove(graph, in_tree@, h0, bi as int);
            assert(prim_entry_ok(graph, in_tree@, h0[bi as int]));
            assert(forall|j: int| 0 <= j < heap@.len() ==> #[trigger] heap@[j] == h0[if j < bi { j } else { j + 1 }]);
            assert forall|j: int| 0 <= j < heap@.len() implies prim_entry_ok(graph, in_tree@, #[trigger] heap@[j]) by {
                let a = if j < bi { j } else { j + 1 };
                assert(prim_entry_ok(graph, in_tree@, h0[a]));
            }
        }
        if in_tree[to] {
            proof {
                assert forall|e: int| 0 <= e < graph.edges@.len() implies #[trigger] edge_queued_if_crossing(graph, in_tree@, heap@, e) by {
                    assert(edge_queued_unless(graph, in_tree@, heap@, e, to as int));
                }
            }
            continue;
        }
        let ghost t0 = in_tree@;
        let ghost ch0 = chosen@;
        let ghost hr = heap@;
        proof {
            lemma_prim_key_step(graph, t0, h0, bi as int);
            assert forall|a: int| 0 <= a < chosen@.len() implies #[trigger] chosen@[a] != id by {
                let c = chosen@[a] as int;
                if c == id {
                    assert(t0[graph.edges@[c].source as int] && t0[graph.edges@[c].target as int]);
                }
            }
            lemma_count_true_set(in_tree@, to as int, n0);
        }
        in_tree.set(to, true);
        chosen.push(id);
        count += 1;
        proof {
            lemma_count_true_le(in_tree@, n0);
            assert forall|j: int| 0 <= j < heap@.len() implies prim_entry_ok(graph, in_tree@, #[trigger] heap@[j]) by {
                assert(prim_entry_ok(graph, t0, heap@[j]));
                assert(graph.edge_ok(heap@[j].3 as int));
            }
            assert forall|a: int| 0 <= a < chosen@.len() implies #[trigger] chosen@[a] < graph.edges@.len()
                && graph.edges@[chosen@[a] as int].source != graph.edges@[chosen@[a] as int].target
                && in_tree@[graph.edges@[chosen@[a] as int].source as int] && in_tree@[graph.edges@[chosen@[a] as int].target as int] by {
                let c = chosen@[a] as int;
                assert(graph.edge_ok(c));
            }
            assert forall|a: int, b: int| 0 <= a < b < chosen@.len() implies #[trigger] chosen@[a] != #[trigger] chosen@[b] by {}
            assert forall|a: int| 0 <= a < chosen@.len() implies key_necessary(graph, #[trigger] chosen@[a] as int) by {
                if a < ch0.len() {
                    assert(chosen@[a] == ch0[a]);
                }
            }
        }
        proof {
            assert(in_tree@ == t0.update(to as int, true));
            assert(prim_entry_ok(graph, t0, h0[bi as int]));
            let other = if graph.edges@[id as int].source == to { graph.edges@[id as int].target } else {
                graph.edges@[id as int].source
            };
            assert(graph.edge_ok(id as int));
            assert(t0[other as int]);
            assert(joined_by(graph, ch0, 0, other as int));
            assert forall|x: usize| ch0.contains(x) implies #[trigger] chosen@.contains(x) by {
                let a = choose|a: int| 0 <= a < ch0.len() && ch0[a] == x;
                assert(chosen@[a] == x);
            }
            assert(chosen@[chosen@.len() - 1] == id);
            lemma_joined_edge(graph, chosen@, chosen@.len() - 1);
            lemma_joined_sym(graph, chosen@, graph.edges@[id as int].source as int, graph.edges@[id as int].target as int);
            assert forall|v: int| 0 <= v < n && #[trigger] in_tree@[v] implies joined_by(graph, chosen@, 0, v) by {
                if v == to as int {
                    lemma_joined_more(graph, ch0, chosen@, 0, other as int);
                    lemma_joined_trans(graph, chosen@, 0, other as int, v);
                } else {
                    assert(t0[v]);
                    lemma_joined_more(graph, ch0, chosen@, 0, v);
                }
            }
            assert forall|e: int|
                0 <= e < graph.edges@.len() && graph.edges@[e].source != graph.edges@[e].target && t0[graph.edges@[e].source as int]
                    != t0[graph.edges@[e].target as int] implies graph.edges@[id as int].weight.wv() <= #[trigger] graph.edges@[e].weight.wv() by {
                assert(edge_queued_if_crossing(graph, t0, h0, e));
                let far = if t0[graph.edges@[e].source as int] { graph.edges@[e].target as int } else { graph.edges@[e].source as int };
                assert(queued(h0, e, far));
                let j = choose|j: int| 0 <= j < h0.len() && h0[j].3 == e && h0[j].4 == far;
                assert(prim_entry_ok(graph, t0, h0[j]));
                assert(h0[bi as int].0.wv() <= h0[j].0.wv());
            }
            lemma_prim_minimax_step(graph, t0, ch0, chosen@, id, to as int, other as int);
        }
        push_incident(graph, &mut heap, &in_tree, &adj[to], to);
        proof {
            lemma_crossing_add(graph, t0, hr, heap@, adj@[to as int]@, to as int);
        }
    }
    if count != n {
        proof {
            let v = lemma_count_true_short(in_tree@, n0);
            let s = Set::new(|x: int| 0 <= x < n && in_tree@[x]);
            assert forall|u: int, x: int| s.contains(u) && 0 <= x < n && #[trigger] step(graph, false, u, x) implies s.contains(x) by {
                let e = choose|e: int| 0 <= e < graph.edges@.len() && #[trigger] graph.edge_joins(e, u, x);
                assert(graph.edge_ok(e));
                assert(edge_queued_if_crossing(graph, in_tree@, heap@, e));
            }
            assert(closed(graph, false, s));
            assert(!reaches(graph, false, 0, v));
        }
        return Err(GraphError::Disconnected);
    }
    proof {
        lemma_count_true_full(in_tree@, n0);
    }
    let r = finish_tree(graph, &chosen);
    proof {
        if r is Err {
            let ids = choose|ids: Seq<usize>|
                ids.len() == chosen@.len() && ascending_edges(graph, ids) && (forall|x: usize| #[trigger] ids.contains(x)
                    <==> chosen@.contains(x)) && running_sum_escapes(graph, ids);
            assert forall|v: int| 0 <= v < graph.n() implies #[trigger] joined_by(graph, ids, 0, v) by {
                assert(in_tree@[v]);
                assert forall|x: usize| chosen@.contains(x) implies #[trigger] ids.contains(x) by {}
                lemma_joined_more(graph, chosen@, ids, 0, v);
            }
            assert(spans(graph, ids));
            assert forall|a: int| 0 <= a < ids.len() implies key_necessary(graph, #[trigger] ids[a] as int) by {
                assert(ids.contains(ids[a]));
                assert(chosen@.contains(ids[a]));
                let c = choose|c: int| 0 <= c < chosen@.len() && chosen@[c] == ids[a];
            }
        }
        if r is Ok {
            let t = r->Ok_0;
            assert forall|v: int| 0 <= v < graph.n() implies #[trigger] joined_by(graph, t.edges@, 0, v) by {
                assert(in_tree@[v]);
                assert forall|x: usize| chosen@.contains(x) implies #[trigger] t.edges@.contains(x) by {}
                lemma_joined_more(graph, chosen@, t.edges@, 0, v);
            }
            assert forall|i: int|
                0 <= i < graph.edges@.len() && !t.edges@.contains(i as usize) && graph.edges@[i].source != graph.edges@[i].target
                    implies #[trigger] joined_light(
                    graph,
                    t.edges@,
                    graph.edges@[i].weight.wv(),
                    graph.edges@[i].source as int,
                    graph.edges@[i].target as int,
                ) by {
                let wi = graph.edges@[i].weight.wv();
                let si = graph.edges@[i].source as int;
                let ti = graph.edges@[i].target as int;
                assert(graph.edge_ok(i));
                assert forall|s: Set<int>| #[trigger] closed_under_graph_light(graph, wi, s) implies (s.contains(si) ==> s.contains(ti)) by {
                    assert(graph.edges@[i].weight.wv() <= wi);
                }
                assert(in_tree@[si] && in_tree@[ti]);
                assert(graph_joined_light(graph, wi, si, ti));
                assert(minimax_tree(graph, in_tree@, chosen@));
                assert(joined_light(graph, chosen@, wi, si, ti));
                assert forall|x: usize| chosen@.contains(x) implies #[trigger] t.edges@.contains(x) by {}
                lemma_light_more(graph, chosen@, t.edges@, wi, si, ti);
            }
            assert forall|a: int| 0 <= a < t.edges@.len() implies key_necessary(graph, #[trigger] t.edges@[a] as int) by {
                assert(t.edges@.contains(t.edges@[a]));
                assert(chosen@.contains(t.edges@[a]));
                let c = choose|c: int| 0 <= c < chosen@.len() && chosen@[c] == t.edges@[a];
            }
            lemma_tree_lightest(graph, t);
        }
    }
    r
}

} // verus!
