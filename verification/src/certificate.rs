//! Verifiable certificates for MST and shortest-path results.
//!
//! Every certificate-producing algorithm ships a verifier that re-checks the
//! result from scratch and never trusts the producer. `verify_mst` checks edge
//! count, acyclicity, spanning connectivity, the recorded total weight, and
//! optimality (the cycle property). `verify_shortest_paths` checks predecessor
//! consistency and edge relaxation.

use crate::error::GraphError;
use crate::graph::Graph;
use crate::path::{i64_weight, walk};
use crate::mst_optimal::{lemma_edges_lightest, lightest_spanning};
use crate::mst::{running_sum_escapes, closed_under_edges, joined_by, lemma_coarsen, lemma_joined_sym, lemma_kruskal_join, lemma_two_sets_not_spanning, spans, weight_sum};
use crate::traversal::{count_true, lemma_count_true_le, lemma_count_true_set};
use crate::unionfind::{root_count, UnionFind};
use crate::weight::{int_decimal, MstWeight};
use vstd::prelude::*;

verus! {

/// A spanning tree: its edge ids (ascending) and total weight.
#[derive(Debug, Clone, PartialEq, Eq)]
pub struct SpanningTree<W> {
    /// Edge ids of the tree.
    pub edges: Vec<usize>,
    /// Sum of the tree's edge weights.
    pub total_weight: W,
}

/// A serializable MST certificate: edge ids plus the decimal total weight.
#[derive(Debug, Clone, PartialEq, Eq)]
pub struct MstCertificate {
    /// Edge ids claimed to form a minimum spanning tree.
    pub edge_ids: Vec<usize>,
    /// The claimed total weight, in decimal.
    pub total_weight_repr: String,
}

/// A copy of an id list.
fn copy_ids(v: &Vec<usize>) -> (r: Vec<usize>)
    ensures
        r@ == v@,
{
    let mut out: Vec<usize> = Vec::new();
    let mut i: usize = 0;
    while i < v.len()
        invariant
            i <= v@.len(),
            out@ == v@.subrange(0, i as int),
        decreases v@.len() - i,
    {
        out.push(v[i]);
        i += 1;
        assert(out@ =~= v@.subrange(0, i as int));
    }
    assert(out@ =~= v@);
    out
}

impl<W: MstWeight> SpanningTree<W> {
    /// The certificate of this tree: its edge ids and its total weight in
    /// decimal.
    pub fn certificate(&self) -> (r: MstCertificate)
        ensures
            r.edge_ids@ == self.edges@,
            r.total_weight_repr@ == int_decimal(self.total_weight.wv()),
    {
        MstCertificate { edge_ids: copy_ids(&self.edges), total_weight_repr: self.total_weight.decimal() }
    }
}

/// A certificate error with the given message.
fn invalid(msg: &str) -> (r: GraphError)
    ensures
        r is CertificateInvalid,
{
    GraphError::CertificateInvalid(msg.to_string())
}

/// Edge `id` links `x` and `y`, in either direction.
pub open spec fn edge_links<N, W>(g: &Graph<N, W>, id: usize, x: int, y: int) -> bool {
    let e = g.edges@[id as int];
    (e.source == x && e.target == y) || (e.target == x && e.source == y)
}

/// The node set `s` is closed under the listed edges of weight at most `m`,
/// each taken either way.
pub open spec fn closed_under_light<N, W: MstWeight>(g: &Graph<N, W>, ids: Seq<usize>, m: int, s: Set<int>) -> bool {
    forall|a: int|
        0 <= a < ids.len() && g.edges@[#[trigger] ids[a] as int].weight.wv() <= m ==> (s.contains(
            g.edges@[ids[a] as int].source as int,
        ) <==> s.contains(g.edges@[ids[a] as int].target as int))
}

/// `u` and `v` are joined by a path of listed edges, each of weight at most
/// `m`.
pub open spec fn joined_light<N, W: MstWeight>(g: &Graph<N, W>, ids: Seq<usize>, m: int, u: int, v: int) -> bool {
    forall|s: Set<int>| #[trigger] closed_under_light(g, ids, m, s) ==> (s.contains(u) ==> s.contains(v))
}

/// The cycle property of the tree `ids`: the endpoints of every non-tree,
/// non-loop edge are joined by tree edges no heavier than it.
pub open spec fn cycle_property<N, W: MstWeight>(g: &Graph<N, W>, ids: Seq<usize>) -> bool {
    forall|i: int|
        0 <= i < g.edges@.len() && !ids.contains(i as usize) && g.edges@[i].source != g.edges@[i].target
            ==> #[trigger] joined_light(
            g,
            ids,
            g.edges@[i].weight.wv(),
            g.edges@[i].source as int,
            g.edges@[i].target as int,
        )
}

/// Light joins are symmetric.
pub(crate) proof fn lemma_light_sym<N, W: MstWeight>(g: &Graph<N, W>, ids: Seq<usize>, m: int, u: int, v: int)
    requires
        joined_light(g, ids, m, u, v),
    ensures
        joined_light(g, ids, m, v, u),
{
    assert forall|s: Set<int>| #[trigger] closed_under_light(g, ids, m, s) implies (s.contains(v) ==> s.contains(u)) by {
        let c = s.complement();
        assert(closed_under_light(g, ids, m, c));
        if s.contains(v) && !s.contains(u) {
            assert(c.contains(u));
        }
    }
}

/// Light joins compose.
pub(crate) proof fn lemma_light_trans<N, W: MstWeight>(g: &Graph<N, W>, ids: Seq<usize>, m: int, u: int, v: int, w: int)
    requires
        joined_light(g, ids, m, u, v),
        joined_light(g, ids, m, v, w),
    ensures
        joined_light(g, ids, m, u, w),
{
}

/// Edge `e` of `g` has its endpoints joined by listed edges no heavier
/// than it.
pub open spec fn light_edge_joined<N, W: MstWeight>(g: &Graph<N, W>, ids: Seq<usize>, e: int) -> bool {
    joined_light(g, ids, g.edges@[e].weight.wv(), g.edges@[e].source as int, g.edges@[e].target as int)
}

/// A join by listed edges that are all no heavier than `m` is a light join.
pub(crate) proof fn lemma_light_from_join<N, W: MstWeight>(g: &Graph<N, W>, ids: Seq<usize>, m: int, u: int, v: int)
    requires
        joined_by(g, ids, u, v),
        forall|a: int| 0 <= a < ids.len() ==> g.edges@[#[trigger] ids[a] as int].weight.wv() <= m,
    ensures
        joined_light(g, ids, m, u, v),
{
    assert forall|s: Set<int>| #[trigger] closed_under_light(g, ids, m, s) implies (s.contains(u) ==> s.contains(v)) by {
        assert(closed_under_edges(g, ids, s));
    }
}

/// Listing more edges keeps every light join.
pub(crate) proof fn lemma_light_more<N, W: MstWeight>(
    g: &Graph<N, W>,
    ids: Seq<usize>,
    more: Seq<usize>,
    m: int,
    u: int,
    v: int,
)
    requires
        joined_light(g, ids, m, u, v),
        forall|x: usize| ids.contains(x) ==> #[trigger] more.contains(x),
    ensures
        joined_light(g, more, m, u, v),
{
    assert forall|s: Set<int>| #[trigger] closed_under_light(g, more, m, s) implies (s.contains(u) ==> s.contains(v)) by {
        assert forall|a: int|
            0 <= a < ids.len() && g.edges@[#[trigger] ids[a] as int].weight.wv() <= m implies (s.contains(
                g.edges@[ids[a] as int].source as int,
            ) <==> s.contains(g.edges@[ids[a] as int].target as int)) by {
            assert(ids.contains(ids[a]));
            assert(more.contains(ids[a]));
            let b = choose|b: int| 0 <= b < more.len() && more[b] == ids[a];
        }
        assert(closed_under_light(g, ids, m, s));
    }
}

/// Tree adjacency entry `(y, w)` of `x` comes from a tree edge linking `x`
/// and `y` with weight `w`.
pub open spec fn adj_entry_ok<N, W>(g: &Graph<N, W>, ids: Seq<usize>, x: int, en: (usize, W)) -> bool {
    exists|a: int| 0 <= a < ids.len() && edge_links(g, ids[a], x, en.0 as int) && g.edges@[ids[a] as int].weight == en.1
}

/// The row of `x` lists, for each of the first `k` tree edges at `x`, the
/// other end and the weight.
pub open spec fn row_covers<N, W>(g: &Graph<N, W>, ids: Seq<usize>, x: int, row: Seq<(usize, W)>, k: int) -> bool {
    forall|a: int|
        0 <= a < k ==> {
            let e = g.edges@[#[trigger] ids[a] as int];
            &&& (e.source == x ==> row.contains((e.target, e.weight)))
            &&& (e.target == x ==> row.contains((e.source, e.weight)))
        }
}
/// Whether `v` is reached from `u` by a breadth-first walk over `tree_adj`
/// that follows only entries no heavier than `bound`.
fn light_reach<N, W: MstWeight>(
    graph: &Graph<N, W>,
    ids: &Vec<usize>,
    n: usize,
    tree_adj: &Vec<Vec<(usize, W)>>,
    u: usize,
    v: usize,
    bound: W,
) -> (r: bool)
    requires
        graph.valid(),
        n == graph.n(),
        tree_adj@.len() == n,
        u < n,
        v < n,
        forall|a: int| 0 <= a < ids@.len() ==> #[trigger] ids@[a] < graph.edges@.len(),
        forall|x: int, k: int| 0 <= x < n && 0 <= k < tree_adj@[x]@.len() ==> (#[trigger] tree_adj@[x]@[k]).0 < n,
        forall|x: int, k: int|
            0 <= x < n && 0 <= k < tree_adj@[x]@.len() ==> adj_entry_ok(graph, ids@, x, #[trigger] tree_adj@[x]@[k]),
        forall|x: int| 0 <= x < n ==> #[trigger] row_covers(graph, ids@, x, tree_adj@[x]@, ids@.len() as int),
    ensures
        r == joined_light(graph, ids@, bound.wv(), u as int, v as int),
{
    let ghost bw = bound.wv();
    let mut visited: Vec<bool> = Vec::new();
    let mut z: usize = 0;
    while z < n
        invariant
            z <= n,
            visited@.len() == z,
            forall|x: int| 0 <= x < z ==> !#[trigger] visited@[x],
        decreases n - z,
    {
        visited.push(false);
        z += 1;
    }
    let ghost n0 = n as nat;
    proof {
        crate::traversal::lemma_count_all_false(n0);
        assert(visited@ =~= Seq::new(n0, |i: int| false));
        lemma_count_true_set(visited@, u as int, n0);
    }
    let mut queue: Vec<usize> = Vec::new();
    visited.set(u, true);
    queue.push(u);
    let mut head: usize = 0;
    proof {
        assert forall|y: int| 0 <= y < n implies (#[trigger] visited@[y] <==> queue@.contains(y as usize)) by {
            if queue@.contains(y as usize) {
                assert(queue@[0] == u);
            }
            if y == u {
                assert(queue@[0] == u);
            }
        }
        assert forall|s: Set<int>| #[trigger] closed_under_light(graph, ids@, bw, s) implies (s.contains(u as int) ==> s.contains(u as int)) by {}
    }
    while head < queue.len()
        invariant
            graph.valid(),
            n == graph.n(),
            u < n,
            v < n,
            bw == bound.wv(),
            tree_adj@.len() == n,
            n0 == n,
            forall|a: int| 0 <= a < ids@.len() ==> #[trigger] ids@[a] < graph.edges@.len(),
            forall|x: int, k: int| 0 <= x < n && 0 <= k < tree_adj@[x]@.len() ==> (#[trigger] tree_adj@[x]@[k]).0 < n,
            forall|x: int, k: int|
                0 <= x < n && 0 <= k < tree_adj@[x]@.len() ==> adj_entry_ok(graph, ids@, x, #[trigger] tree_adj@[x]@[k]),
            forall|x: int| 0 <= x < n ==> #[trigger] row_covers(graph, ids@, x, tree_adj@[x]@, ids@.len() as int),
            visited@.len() == n,
            head <= queue@.len(),
            queue@.len() == count_true(visited@, n0),
            queue@.len() >= 1,
            queue@[0] == u,
            forall|j: int| 0 <= j < queue@.len() ==> #[trigger] queue@[j] < n,
            forall|y: int| 0 <= y < n ==> (#[trigger] visited@[y] <==> queue@.contains(y as usize)),
            forall|y: int| 0 <= y < n && #[trigger] visited@[y] ==> joined_light(graph, ids@, bw, u as int, y),
            forall|j: int| 0 <= j < head ==> #[trigger] queue@[j] != v,
            forall|j: int, k: int|
                0 <= j < head && 0 <= k < tree_adj@[queue@[j] as int]@.len() && (#[trigger] tree_adj@[queue@[j] as int]@[k]).1.wv()
                    <= bw ==> visited@[tree_adj@[queue@[j] as int]@[k].0 as int],
        decreases n0 - head,
    {
        proof {
            lemma_count_true_le(visited@, n0);
        }
        let x = queue[head];
        if x == v {
            proof {
                assert(queue@[head as int] == x);
                assert(queue@.contains(x));
                assert(visited@[x as int]);
            }
            return true;
        }
        let row = &tree_adj[x];
        let ghost head0 = head;
        let mut k: usize = 0;
        while k < row.len()
            invariant
                graph.valid(),
                n == graph.n(),
                u < n,
                bw == bound.wv(),
                tree_adj@.len() == n,
                n0 == n,
                x < n,
                x != v,
                head0 < queue@.len(),
                queue@[head0 as int] == x,
                row == tree_adj@[x as int],
                forall|a: int| 0 <= a < ids@.len() ==> #[trigger] ids@[a] < graph.edges@.len(),
                forall|x: int, k: int| 0 <= x < n && 0 <= k < tree_adj@[x]@.len() ==> (#[trigger] tree_adj@[x]@[k]).0 < n,
                forall|x: int, k: int|
                    0 <= x < n && 0 <= k < tree_adj@[x]@.len() ==> adj_entry_ok(graph, ids@, x, #[trigger] tree_adj@[x]@[k]),
                k <= row@.len(),
                visited@.len() == n,
                queue@.len() == count_true(visited@, n0),
                queue@[0] == u,
                visited@[x as int],
                forall|j: int| 0 <= j < queue@.len() ==> #[trigger] queue@[j] < n,
                forall|y: int| 0 <= y < n ==> (#[trigger] visited@[y] <==> queue@.contains(y as usize)),
                forall|y: int| 0 <= y < n && #[trigger] visited@[y] ==> joined_light(graph, ids@, bw, u as int, y),
                forall|j: int| 0 <= j < head0 ==> #[trigger] queue@[j] != v,
                forall|j: int, k: int|
                    0 <= j < head0 && 0 <= k < tree_adj@[queue@[j] as int]@.len() && (#[trigger] tree_adj@[queue@[j] as int]@[k]).1.wv()
                        <= bw ==> visited@[tree_adj@[queue@[j] as int]@[k].0 as int],
                forall|m: int| 0 <= m < k && (#[trigger] row@[m]).1.wv() <= bw ==> visited@[row@[m].0 as int],
            decreases row@.len() - k,
        {
            let (y, w) = row[k];
            proof {
                assert(tree_adj@[x as int]@[k as int].0 < n);
            }
            if !bound.lighter(&w) && !visited[y] {
                let ghost q0 = queue@;
                let ghost vis0 = visited@;
                proof {
                    lemma_count_true_set(visited@, y as int, n0);
                }
                visited.set(y, true);
                queue.push(y);
                proof {
                    assert(adj_entry_ok(graph, ids@, x as int, row@[k as int]));
                    let a = choose|a: int| 0 <= a < ids@.len() && edge_links(graph, ids@[a], x as int, y as int) && graph.edges@[ids@[a] as int].weight == w;
                    assert(vis0[x as int]);
                    assert(joined_light(graph, ids@, bw, u as int, x as int));
                    assert forall|s: Set<int>| #[trigger] closed_under_light(graph, ids@, bw, s) implies (s.contains(x as int) ==> s.contains(y as int)) by {
                        assert(graph.edges@[ids@[a] as int].weight.wv() <= bw);
                    }
                    lemma_light_trans(graph, ids@, bw, u as int, x as int, y as int);
                    assert(queue@[queue@.len() - 1] == y);
                    assert forall|z: int| 0 <= z < n implies (#[trigger] visited@[z] <==> queue@.contains(z as usize)) by {
                        if z != y {
                            if queue@.contains(z as usize) {
                                let j = choose|j: int| 0 <= j < queue@.len() && queue@[j] == z as usize;
                                assert(j < q0.len());
                                assert(q0[j] == z as usize);
                            }
                            if q0.contains(z as usize) {
                                let j = choose|j: int| 0 <= j < q0.len() && q0[j] == z as usize;
                                assert(queue@[j] == z as usize);
                            }
                        }
                    }
                    assert forall|z: int| 0 <= z < n && #[trigger] visited@[z] implies joined_light(graph, ids@, bw, u as int, z) by {
                        if z != y {
                            assert(vis0[z]);
                        }
                    }
                    assert forall|j: int| 0 <= j < head0 implies #[trigger] queue@[j] != v by {
                        assert(queue@[j] == q0[j]);
                    }
                    assert forall|j: int, kk: int|
                        0 <= j < head0 && 0 <= kk < tree_adj@[queue@[j] as int]@.len() && (#[trigger] tree_adj@[queue@[j] as int]@[kk]).1.wv()
                            <= bw implies visited@[tree_adj@[queue@[j] as int]@[kk].0 as int] by {
                        assert(queue@[j] == q0[j]);
                        assert(vis0[tree_adj@[q0[j] as int]@[kk].0 as int]);
                    }
                    assert(queue@[head0 as int] == x);
                }
            }
            proof {
                assert forall|mm: int| 0 <= mm < k + 1 && (#[trigger] row@[mm]).1.wv() <= bw implies visited@[row@[mm].0 as int] by {}
            }
            k += 1;
        }
        proof {
            assert forall|j: int, kk: int|
                0 <= j < head0 + 1 && 0 <= kk < tree_adj@[queue@[j] as int]@.len() && (#[trigger] tree_adj@[queue@[j] as int]@[kk]).1.wv()
                    <= bw implies visited@[tree_adj@[queue@[j] as int]@[kk].0 as int] by {
                if j == head0 {
                    assert(tree_adj@[queue@[j] as int]@[kk] == row@[kk]);
                }
            }
        }
        head += 1;
    }
    proof {
        let s = Set::new(|y: int| 0 <= y < n && visited@[y]);
        assert(closed_under_light(graph, ids@, bw, s)) by {
            assert forall|a: int|
                0 <= a < ids@.len() && graph.edges@[#[trigger] ids@[a] as int].weight.wv() <= bw implies (s.contains(
                    graph.edges@[ids@[a] as int].source as int,
                ) <==> s.contains(graph.edges@[ids@[a] as int].target as int)) by {
                let e = graph.edges@[ids@[a] as int];
                assert(graph.edge_ok(ids@[a] as int));
                assert(row_covers(graph, ids@, e.source as int, tree_adj@[e.source as int]@, ids@.len() as int));
                assert(row_covers(graph, ids@, e.target as int, tree_adj@[e.target as int]@, ids@.len() as int));
                if s.contains(e.source as int) {
                    assert(queue@.contains(e.source));
                    let j = choose|j: int| 0 <= j < queue@.len() && queue@[j] == e.source;
                    assert(tree_adj@[e.source as int]@.contains((e.target, e.weight)));
                    let kk = choose|kk: int| 0 <= kk < tree_adj@[e.source as int]@.len() && tree_adj@[e.source as int]@[kk] == (e.target, e.weight);
                    assert(visited@[tree_adj@[queue@[j] as int]@[kk].0 as int]);
                }
                if s.contains(e.target as int) {
                    assert(queue@.contains(e.target));
                    let j = choose|j: int| 0 <= j < queue@.len() && queue@[j] == e.target;
                    assert(tree_adj@[e.target as int]@.contains((e.source, e.weight)));
                    let kk = choose|kk: int| 0 <= kk < tree_adj@[e.target as int]@.len() && tree_adj@[e.target as int]@[kk] == (e.source, e.weight);
                    assert(visited@[tree_adj@[queue@[j] as int]@[kk].0 as int]);
                }
            }
        }
        assert(s.contains(u as int));
        if s.contains(v as int) {
            assert(queue@.contains(v));
            let j = choose|j: int| 0 <= j < queue@.len() && queue@[j] == v;
            assert(queue@[j] != v);
        }
    }
    false
}

/// `ids` lists distinct non-loop edges of `g`, `n - 1` of them (none for an
/// empty graph).
pub open spec fn tree_edge_list<N, W>(g: &Graph<N, W>, ids: Seq<usize>) -> bool {
    &&& ids.len() == (if g.n() == 0 { 0 } else { g.n() - 1 })
    &&& forall|a: int| 0 <= a < ids.len() ==> #[trigger] ids[a] < g.edges@.len() && g.edges@[ids[a] as int].source
        != g.edges@[ids[a] as int].target
    &&& forall|a: int, b: int| 0 <= a < b < ids.len() ==> #[trigger] ids[a] != #[trigger] ids[b]
}

/// Check the claimed tree edges: known, non-loop, `n - 1` of them, no cycle,
/// spanning.
fn check_tree_edges<N, W>(graph: &Graph<N, W>, ids: &Vec<usize>) -> (r: Result<(), GraphError>)
    requires
        graph.valid(),
    ensures
        r is Ok <==> tree_edge_list(graph, ids@) && spans(graph, ids@),
        r matches Err(e) ==> e is CertificateInvalid,
        r is Ok ==> graph.n() <= usize::MAX,
{
    let n = graph.node_count();
    let m = graph.edge_count();
    let mut k: usize = 0;
    while k < ids.len()
        invariant
            graph.valid(),
            m == graph.edges@.len(),
            k <= ids@.len(),
            forall|a: int| 0 <= a < k ==> #[trigger] ids@[a] < m && graph.edges@[ids@[a] as int].source
                != graph.edges@[ids@[a] as int].target,
        decreases ids@.len() - k,
    {
        let id = ids[k];
        if id >= m {
            proof {
                assert(!tree_edge_list(graph, ids@));
            }
            return Err(invalid("unknown edge id"));
        }
        if graph.edges[id].is_self_loop() {
            proof {
                assert(!tree_edge_list(graph, ids@));
            }
            return Err(invalid("self-loop in tree"));
        }
        k += 1;
    }
    let expected = if n > 0 {
        n - 1
    } else {
        0
    };
    if ids.len() != expected {
        return Err(invalid("wrong edge count for a spanning tree"));
    }
    if n == 0 {
        proof {
            assert(tree_edge_list(graph, ids@));
        }
        return Ok(());
    }
    let mut uf = UnionFind::new(n);
    let mut k: usize = 0;
    while k < ids.len()
        invariant
            graph.valid(),
            n == graph.n(),
            m == graph.edges@.len(),
            uf.wf(),
            uf.size() == n,
            k <= ids@.len(),
            forall|a: int| 0 <= a < ids@.len() ==> #[trigger] ids@[a] < m && graph.edges@[ids@[a] as int].source
                != graph.edges@[ids@[a] as int].target,
            forall|a: int| 0 <= a < k ==> uf.rep()[graph.edges@[#[trigger] ids@[a] as int].source as int] == uf.rep()[graph.edges@[ids@[a] as int].target as int],
            forall|a: int, b: int| 0 <= a < b < k ==> #[trigger] ids@[a] != #[trigger] ids@[b],
            root_count(uf.rep(), n as nat) + k == n,
            ids@.len() + 1 == n,
            forall|x: int, y: int|
                0 <= x < n && 0 <= y < n && #[trigger] uf.rep()[x] == #[trigger] uf.rep()[y] ==> joined_by(
                    graph,
                    ids@.subrange(0, k as int),
                    x,
                    y,
                ),
        decreases ids@.len() - k,
    {
        let e = &graph.edges[ids[k]];
        proof {
            assert(graph.edge_ok(ids@[k as int] as int));
            if n > 0 {
                uf.lemma_rep_is_root(0);
            }
        }
        let ghost rep0 = uf.rep();
        if !uf.union(e.source, e.target) {
            proof {
                assert forall|x: int| 0 <= x < graph.n() implies (#[trigger] rep0[x] as int) < graph.n() && rep0[rep0[x] as int] == rep0[x] by {
                    uf.lemma_rep_is_root(x);
                }
                let rest = ids@.subrange(k + 1, ids@.len() as int);
                let f = lemma_coarsen(graph, rep0, rest);
                assert forall|a: int| 0 <= a < ids@.len() implies f[graph.edges@[#[trigger] ids@[a] as int].source as int]
                    == f[graph.edges@[ids@[a] as int].target as int] by {
                    let c = ids@[a] as int;
                    assert(graph.edge_ok(c));
                    if a <= k {
                        assert(rep0[graph.edges@[c].source as int] == rep0[graph.edges@[c].target as int]);
                    } else {
                        assert(rest[a - k - 1] == ids@[a]);
                    }
                }
                assert forall|a: int| 0 <= a < ids@.len() implies graph.edges@[#[trigger] ids@[a] as int].source < graph.n()
                    && graph.edges@[ids@[a] as int].target < graph.n() by {
                    assert(graph.edge_ok(ids@[a] as int));
                }
                lemma_two_sets_not_spanning(graph, ids@, f);
            }
            return Err(invalid("tree contains a cycle"));
        }
        proof {
            assert forall|a: int| 0 <= a < k + 1 implies uf.rep()[graph.edges@[#[trigger] ids@[a] as int].source as int] == uf.rep()[graph.edges@[ids@[a] as int].target as int] by {
                let c = ids@[a] as int;
                assert(graph.edge_ok(c));
                let s = graph.edges@[c].source as int;
                let t = graph.edges@[c].target as int;
                assert(uf.rep()[s] == (if rep0[s] == rep0[e.source as int] || rep0[s] == rep0[e.target as int] { uf.rep()[e.source as int] } else { rep0[s] }));
                assert(uf.rep()[t] == (if rep0[t] == rep0[e.source as int] || rep0[t] == rep0[e.target as int] { uf.rep()[e.source as int] } else { rep0[t] }));
            }
            assert forall|a: int, b: int| 0 <= a < b < k + 1 implies #[trigger] ids@[a] != #[trigger] ids@[b] by {
                if b == k && ids@[a] == ids@[b] {
                    assert(rep0[graph.edges@[ids@[a] as int].source as int] == rep0[graph.edges@[ids@[a] as int].target as int]);
                }
            }
            assert(ids@.subrange(0, k + 1) == ids@.subrange(0, k as int).push(ids@[k as int]));
            uf.lemma_rep_is_root(0);
            lemma_kruskal_join(graph, rep0, uf.rep(), ids@.subrange(0, k as int), ids@.subrange(0, k + 1), ids@[k as int], n as nat);
        }
        k += 1;
    }
    proof {
        assert(ids@.subrange(0, ids@.len() as int) =~= ids@);
    }
    let ghost rep_end = uf.rep();
    proof {
        uf.lemma_rep_is_root(0);
    }
    if n > 0 {
        let root = uf.find(0);
        let mut i: usize = 1;
        while i < n
            invariant
                uf.wf(),
                uf.size() == n,
                1 <= i <= n,
                uf.rep() == rep_end,
                root == rep_end[0],
                forall|j: int| 0 <= j < i ==> #[trigger] rep_end[j] == root,
                n == graph.n(),
                graph.valid(),
                rep_end.len() == n,
                forall|a: int| 0 <= a < ids@.len() ==> #[trigger] ids@[a] < graph.edges@.len(),
                forall|a: int| 0 <= a < ids@.len() ==> rep_end[graph.edges@[#[trigger] ids@[a] as int].source as int]
                    == rep_end[graph.edges@[ids@[a] as int].target as int],
            decreases n - i,
        {
            if uf.find(i) != root {
                proof {
                    let st = Set::new(|x: int| 0 <= x < n && rep_end[x] == root);
                    assert forall|a: int| 0 <= a < ids@.len() implies (st.contains(graph.edges@[#[trigger] ids@[a] as int].source as int)
                        <==> st.contains(graph.edges@[ids@[a] as int].target as int)) by {
                        assert(graph.edge_ok(ids@[a] as int));
                    }
                    assert(closed_under_edges(graph, ids@, st));
                    assert(!joined_by(graph, ids@, 0, i as int));
                }
                return Err(invalid("tree does not span the graph"));
            }
            i += 1;
        }
        proof {
            assert forall|v: int| 0 <= v < graph.n() implies #[trigger] joined_by(graph, ids@, 0, v) by {
                assert(rep_end[v] == rep_end[0]);
            }
        }
    }
    Ok(())
}

/// The total weight of the listed edges, or `WeightOverflow`.
fn total_of<N, W: MstWeight>(graph: &Graph<N, W>, ids: &Vec<usize>) -> (r: Result<W, GraphError>)
    requires
        forall|a: int| 0 <= a < ids@.len() ==> #[trigger] ids@[a] < graph.edges@.len(),
    ensures
        match r {
            Ok(t) => t.wv() == weight_sum(graph, ids@) && !running_sum_escapes(graph, ids@),
            Err(e) => e is WeightOverflow && running_sum_escapes(graph, ids@),
        },
{
    let mut total = W::zero();
    let mut k: usize = 0;
    while k < ids.len()
        invariant
            k <= ids@.len(),
            forall|a: int| 0 <= a < ids@.len() ==> #[trigger] ids@[a] < graph.edges@.len(),
            total.wv() == weight_sum(graph, ids@.subrange(0, k as int)),
            forall|j: int| 0 < j <= k ==> W::lo() <= #[trigger] weight_sum(graph, ids@.subrange(0, j)) <= W::hi(),
        decreases ids@.len() - k,
    {
        let w = graph.edges[ids[k]].weight;
        proof {
            assert(ids@.subrange(0, k + 1).drop_last() =~= ids@.subrange(0, k as int));
        }
        total = match total.checked_plus(&w) {
            Some(s) => s,
            None => {
                proof {
                    assert(!(W::lo() <= weight_sum(graph, ids@.subrange(0, k + 1)) <= W::hi()));
                }
                return Err(GraphError::WeightOverflow("certificate total weight".to_string()));
            },
        };
        proof {
            total.lemma_range();
        }
        k += 1;
    }
    proof {
        assert(ids@.subrange(0, ids@.len() as int) =~= ids@);
    }
    Ok(total)
}

/// Check the cycle property: the endpoints of each non-tree, non-loop edge
/// are joined by tree edges no heavier than it (on a tree: no such edge is
/// lighter than the heaviest tree edge on the path between its endpoints).
fn check_cycle_property<N, W: MstWeight>(graph: &Graph<N, W>, ids: &Vec<usize>) -> (r: Result<(), GraphError>)
    requires
        graph.valid(),
        forall|a: int| 0 <= a < ids@.len() ==> #[trigger] ids@[a] < graph.edges@.len(),
        spans(graph, ids@),
    ensures
        r is Ok <==> cycle_property(graph, ids@),
        r matches Err(e) ==> e is CertificateInvalid,
{
    let n = graph.node_count();
    let m = graph.edge_count();
    let mut in_tree: Vec<bool> = Vec::new();
    let mut z: usize = 0;
    while z < m
        invariant
            z <= m,
            in_tree@.len() == z,
            forall|y: int| 0 <= y < z ==> !#[trigger] in_tree@[y],
        decreases m - z,
    {
        in_tree.push(false);
        z += 1;
    }
    let mut k: usize = 0;
    while k < ids.len()
        invariant
            m == graph.edges@.len(),
            in_tree@.len() == m,
            k <= ids@.len(),
            forall|a: int| 0 <= a < ids@.len() ==> #[trigger] ids@[a] < m,
            forall|y: int| 0 <= y < m ==> (#[trigger] in_tree@[y] <==> ids@.subrange(0, k as int).contains(y as usize)),
        decreases ids@.len() - k,
    {
        let ghost t0 = in_tree@;
        in_tree.set(ids[k], true);
        proof {
            assert forall|y: int| 0 <= y < m implies (#[trigger] in_tree@[y] <==> ids@.subrange(0, k + 1).contains(y as usize)) by {
                if ids@.subrange(0, k + 1).contains(y as usize) {
                    let j = choose|j: int| 0 <= j < k + 1 && #[trigger] ids@.subrange(0, k + 1)[j] == y as usize;
                    if j < k {
                        assert(ids@.subrange(0, k as int)[j] == y as usize);
                    }
                }
                if y != ids@[k as int] && t0[y] {
                    let j = choose|j: int| 0 <= j < k && #[trigger] ids@.subrange(0, k as int)[j] == y as usize;
                    assert(ids@.subrange(0, k + 1)[j] == y as usize);
                }
                if y == ids@[k as int] {
                    assert(ids@.subrange(0, k + 1)[k as int] == y as usize);
                }
            }
        }
        k += 1;
    }
    proof {
        assert(ids@.subrange(0, ids@.len() as int) =~= ids@);
    }
    let mut tree_adj: Vec<Vec<(usize, W)>> = Vec::new();
    let mut x: usize = 0;
    while x < n
        invariant
            graph.valid(),
            n == graph.n(),
            m == graph.edges@.len(),
            forall|a: int| 0 <= a < ids@.len() ==> #[trigger] ids@[a] < m,
            x <= n,
            tree_adj@.len() == x,
            forall|y: int, j: int| 0 <= y < x && 0 <= j < tree_adj@[y]@.len() ==> (#[trigger] tree_adj@[y]@[j]).0 < n,
            forall|y: int, j: int|
                0 <= y < x && 0 <= j < tree_adj@[y]@.len() ==> adj_entry_ok(graph, ids@, y, #[trigger] tree_adj@[y]@[j]),
            forall|y: int| 0 <= y < x ==> #[trigger] row_covers(graph, ids@, y, tree_adj@[y]@, ids@.len() as int),
        decreases n - x,
    {
        let mut row: Vec<(usize, W)> = Vec::new();
        let mut k: usize = 0;
        while k < ids.len()
            invariant
                graph.valid(),
                n == graph.n(),
                m == graph.edges@.len(),
                x < n,
                forall|a: int| 0 <= a < ids@.len() ==> #[trigger] ids@[a] < m,
                k <= ids@.len(),
                forall|j: int| 0 <= j < row@.len() ==> (#[trigger] row@[j]).0 < n,
                forall|j: int| 0 <= j < row@.len() ==> adj_entry_ok(graph, ids@, x as int, #[trigger] row@[j]),
                row_covers(graph, ids@, x as int, row@, k as int),
            decreases ids@.len() - k,
        {
            let e = &graph.edges[ids[k]];
            proof {
                assert(graph.edge_ok(ids@[k as int] as int));
            }
            let ghost r0 = row@;
            if e.source == x {
                row.push((e.target, e.weight));
            }
            let ghost r1 = row@;
            if e.target == x {
                row.push((e.source, e.weight));
            }
            proof {
                assert forall|j: int| 0 <= j < row@.len() implies adj_entry_ok(graph, ids@, x as int, #[trigger] row@[j]) by {
                    if j < r0.len() {
                        assert(row@[j] == r0[j]);
                    } else {
                        assert(edge_links(graph, ids@[k as int], x as int, row@[j].0 as int));
                    }
                }
                assert forall|a: int| 0 <= a < k + 1 implies {
                    let ee = graph.edges@[#[trigger] ids@[a] as int];
                    &&& (ee.source == x ==> row@.contains((ee.target, ee.weight)))
                    &&& (ee.target == x ==> row@.contains((ee.source, ee.weight)))
                } by {
                    let ee = graph.edges@[ids@[a] as int];
                    if a < k {
                        if ee.source == x {
                            let j = choose|j: int| 0 <= j < r0.len() && r0[j] == (ee.target, ee.weight);
                            assert(row@[j] == r0[j]);
                        }
                        if ee.target == x {
                            let j = choose|j: int| 0 <= j < r0.len() && r0[j] == (ee.source, ee.weight);
                            assert(row@[j] == r0[j]);
                        }
                    } else {
                        if ee.source == x {
                            assert(r1[r0.len() as int] == (ee.target, ee.weight));
                            assert(row@[r0.len() as int] == r1[r0.len() as int]);
                        }
                        if ee.target == x {
                            assert(row@[row@.len() - 1] == (ee.source, ee.weight));
                        }
                    }
                }
            }
            k += 1;
        }
        let ghost a0 = tree_adj@;
        tree_adj.push(row);
        proof {
            assert forall|y: int, j: int| 0 <= y < x + 1 && 0 <= j < tree_adj@[y]@.len() implies (#[trigger] tree_adj@[y]@[j]).0 < n by {
                if y == x {
                    assert(tree_adj@[y] == row);
                }
            }
            assert forall|y: int, j: int|
                0 <= y < x + 1 && 0 <= j < tree_adj@[y]@.len() implies adj_entry_ok(graph, ids@, y, #[trigger] tree_adj@[y]@[j]) by {
                if y == x {
                    assert(tree_adj@[y] == row);
                } else {
                    assert(tree_adj@[y] == a0[y]);
                }
            }
            assert forall|y: int| 0 <= y < x + 1 implies #[trigger] row_covers(graph, ids@, y, tree_adj@[y]@, ids@.len() as int) by {
                if y == x {
                    assert(tree_adj@[y] == row);
                } else {
                    assert(tree_adj@[y] == a0[y]);
                }
            }
        }
        x += 1;
    }
    let mut i: usize = 0;
    while i < m
        invariant
            graph.valid(),
            n == graph.n(),
            m == graph.edges@.len(),
            in_tree@.len() == m,
            forall|y: int| 0 <= y < m ==> (#[trigger] in_tree@[y] <==> ids@.contains(y as usize)),
            forall|a: int| 0 <= a < ids@.len() ==> #[trigger] ids@[a] < m,
            spans(graph, ids@),
            tree_adj@.len() == n,
            forall|y: int, j: int| 0 <= y < n && 0 <= j < tree_adj@[y]@.len() ==> (#[trigger] tree_adj@[y]@[j]).0 < n,
            forall|y: int, j: int|
                0 <= y < n && 0 <= j < tree_adj@[y]@.len() ==> adj_entry_ok(graph, ids@, y, #[trigger] tree_adj@[y]@[j]),
            forall|y: int| 0 <= y < n ==> #[trigger] row_covers(graph, ids@, y, tree_adj@[y]@, ids@.len() as int),
            i <= m,
            forall|j: int|
                0 <= j < i && !ids@.contains(j as usize) && graph.edges@[j].source != graph.edges@[j].target
                    ==> #[trigger] joined_light(
                    graph,
                    ids@,
                    graph.edges@[j].weight.wv(),
                    graph.edges@[j].source as int,
                    graph.edges@[j].target as int,
                ),
        decreases m - i,
    {
        let e = &graph.edges[i];
        proof {
            assert(graph.edge_ok(i as int));
        }
        if !in_tree[e.id] && !e.is_self_loop() {
            proof {
                let s = e.source as int;
                let t = e.target as int;
                assert(joined_by(graph, ids@, 0, s));
                assert(joined_by(graph, ids@, 0, t));
                lemma_joined_sym(graph, ids@, 0, s);
                assert(joined_by(graph, ids@, s, t));
            }
            if !light_reach(graph, ids, n, &tree_adj, e.source, e.target, e.weight) {
                proof {
                    assert(!ids@.contains(i as usize));
                    assert(!cycle_property(graph, ids@));
                }
                return Err(invalid("not minimal: a cheaper spanning tree exists"));
            }
        }
        i += 1;
    }
    Ok(())
}

/// Recheck an MST certificate from scratch: every id names a non-loop edge,
/// there are `n - 1` of them, they form no cycle and span the graph, the
/// recorded total matches their weights, and no non-tree edge is lighter
/// than the heaviest tree edge on the path between its endpoints. A valid
/// certificate is accepted unless its running total leaves the weight type.
pub fn verify_mst<N, W: MstWeight>(graph: &Graph<N, W>, cert: &MstCertificate) -> (r: Result<(), GraphError>)
    ensures
        !graph.valid() ==> (r matches Err(e) && graph.reports(e)),
        graph.valid() ==> (r matches Err(e) ==> (e is CertificateInvalid || e is WeightOverflow)),
        graph.valid() ==> (r is Ok <==> tree_edge_list(graph, cert.edge_ids@) && spans(graph, cert.edge_ids@)
            && !running_sum_escapes(graph, cert.edge_ids@) && cert.total_weight_repr@ == int_decimal(
            weight_sum(graph, cert.edge_ids@),
        ) && cycle_property(graph, cert.edge_ids@)),
        graph.valid() ==> ((r matches Err(e) && e is WeightOverflow) <==> tree_edge_list(graph, cert.edge_ids@) && spans(
            graph,
            cert.edge_ids@,
        ) && running_sum_escapes(graph, cert.edge_ids@)),
        r is Ok ==> graph.valid() && lightest_spanning(graph, cert.edge_ids@),
{
    graph.validate()?;
    check_tree_edges(graph, &cert.edge_ids)?;
    let total = total_of(graph, &cert.edge_ids)?;
    let repr = total.decimal();
    if !(repr == cert.total_weight_repr) {
        return Err(invalid("total weight mismatch"));
    }
    check_cycle_property(graph, &cert.edge_ids)?;
    proof {
        lemma_edges_lightest(graph, cert.edge_ids@);
    }
    Ok(())
}

/// A shortest-path certificate: the source and a predecessor per node.
#[derive(Debug, Clone, PartialEq, Eq)]
pub struct ShortestPathCertificate {
    /// The source node.
    pub source: usize,
    /// The claimed predecessor of each node on its shortest path.
    pub predecessors: Vec<Option<usize>>,
}

/// The lightest weight among the first `m` edges leading from `u` to `v`.
pub open spec fn min_weight_upto<N>(g: &Graph<N, i64>, u: int, v: int, m: nat) -> Option<i64>
    decreases m,
{
    if m == 0 {
        None
    } else {
        let p = min_weight_upto(g, u, v, (m - 1) as nat);
        let w = g.edges@[m - 1].weight;
        if g.edge_joins(m - 1, u, v) {
            match p {
                None => Some(w),
                Some(x) => Some(if x <= w { x } else { w }),
            }
        } else {
            p
        }
    }
}

/// The lightest weight of an edge leading from `u` to `v`, if any.
pub open spec fn min_weight<N>(g: &Graph<N, i64>, u: int, v: int) -> Option<i64> {
    min_weight_upto(g, u, v, g.edges@.len())
}

/// The lightest edge from `from` to `to` (either way when undirected).
fn edge_weight<N>(graph: &Graph<N, i64>, from: usize, to: usize) -> (r: Option<i64>)
    ensures
        r == min_weight(graph, from as int, to as int),
{
    let undirected = !graph.is_directed();
    let mut best: Option<i64> = None;
    let mut i: usize = 0;
    while i < graph.edges.len()
        invariant
            undirected == graph.undirected(),
            i <= graph.edges@.len(),
            best == min_weight_upto(graph, from as int, to as int, i as nat),
        decreases graph.edges@.len() - i,
    {
        let e = &graph.edges[i];
        if (e.source == from && e.target == to) || (undirected && e.source == to && e.target == from) {
            best = match best {
                None => Some(e.weight),
                Some(x) => Some(if x <= e.weight { x } else { e.weight }),
            };
        }
        i += 1;
    }
    best
}

/// The memo is consistent with the certificate: a cached reached node sits
/// one lightest arc beyond its predecessor, itself the source or cached
/// reached at a smaller depth in `dep`; a cached unreached node has no
/// predecessor.
#[verifier::opaque]
pub open spec fn memo_ok<N>(
    g: &Graph<N, i64>,
    cert: ShortestPathCertificate,
    memo: Seq<Option<Option<i64>>>,
    dep: Seq<nat>,
) -> bool {
    let n = g.n();
    &&& memo.len() == n
    &&& dep.len() == n
    &&& forall|x: int|
        0 <= x < n && (#[trigger] memo[x] matches Some(Some(_))) && cert.predecessors@[x]->0 != cert.source
            ==> dep[cert.predecessors@[x]->0 as int] < dep[x]
    &&& forall|x: int| 0 <= x < n && #[trigger] memo[x] is Some ==> x != cert.source && match memo[x]->0 {
        None => cert.predecessors@[x] is None,
        Some(dx) => cert.predecessors@[x] is Some && cert.predecessors@[x]->0 < n && min_weight(
            g,
            cert.predecessors@[x]->0 as int,
            x,
        ) is Some && (if cert.predecessors@[x]->0 == cert.source {
            dx == min_weight(g, cert.source as int, x)->0
        } else {
            memo[cert.predecessors@[x]->0 as int] matches Some(Some(du)) && dx == du + min_weight(
                g,
                cert.predecessors@[x]->0 as int,
                x,
            )->0
        }),
    }
}

/// The distance of `v` along at most `k` steps of the certificate's
/// predecessor chain, each step the lightest arc from the predecessor, summed
/// as an integer; `None` when the chain does not reach the source within `k`
/// steps or a step has no arc.
pub open spec fn chain_dist<N>(g: &Graph<N, i64>, cert: ShortestPathCertificate, v: int, k: nat) -> Option<int>
    decreases k,
{
    if v == cert.source {
        Some(0)
    } else if k == 0 {
        None
    } else {
        match cert.predecessors@[v] {
            None => None,
            Some(u) => match (chain_dist(g, cert, u as int, (k - 1) as nat), min_weight(g, u as int, v)) {
                (Some(d), Some(w)) => Some(d + w),
                _ => None,
            },
        }
    }
}

/// Some predecessor chain reaching the source sums to a distance outside
/// `i64`.
pub open spec fn chain_escapes<N>(g: &Graph<N, i64>, cert: ShortestPathCertificate) -> bool {
    exists|v: int, k: nat| #[trigger] chain_dist(g, cert, v, k) matches Some(d) && !(i64::MIN <= d <= i64::MAX)
}

/// A cached reached node's distance is its chain distance, for any number
/// of steps past its depth.
proof fn lemma_memo_chain<N>(
    g: &Graph<N, i64>,
    cert: ShortestPathCertificate,
    memo: Seq<Option<Option<i64>>>,
    dep: Seq<nat>,
    x: int,
    k: nat,
)
    requires
        memo_ok(g, cert, memo, dep),
        cert.predecessors@.len() == g.n(),
        0 <= x < g.n(),
        memo[x] matches Some(Some(_)),
        k > dep[x],
    ensures
        chain_dist(g, cert, x, k) == Some(memo[x]->0->0 as int),
    decreases dep[x],
{
    reveal(memo_ok);
    let u = cert.predecessors@[x]->0 as int;
    assert(memo[x] is Some);
    assert(x != cert.source);
    let w = min_weight(g, u, x)->0;
    if u != cert.source {
        assert(dep[u] < dep[x]);
        lemma_memo_chain(g, cert, memo, dep, u, (k - 1) as nat);
        assert(memo[u] matches Some(Some(du)) && memo[x]->0->0 == du + w);
    } else {
        assert(chain_dist(g, cert, u, (k - 1) as nat) == Some(0int));
    }
    assert(chain_dist(g, cert, x, k) == match (chain_dist(g, cert, u, (k - 1) as nat), min_weight(g, u, x)) {
        (Some(d), Some(w)) => Some(d + w),
        _ => None,
    });
}

/// A shortest-path tree gives one distance per node, the source's 0.
proof fn lemma_sp_tree_source<N>(g: &Graph<N, i64>, cert: ShortestPathCertificate, sol: (Seq<Option<i64>>, Seq<nat>))
    requires
        sp_tree(g, cert, sol.0, sol.1),
    ensures
        sol.0.len() == g.n(),
        sol.0[cert.source as int] == Some(0i64),
{
    reveal(sp_tree);
}

/// What a shortest-path tree says about one node other than the source.
proof fn lemma_sp_tree_at<N>(g: &Graph<N, i64>, cert: ShortestPathCertificate, sol: (Seq<Option<i64>>, Seq<nat>), v: int)
    requires
        sp_tree(g, cert, sol.0, sol.1),
        0 <= v < g.n(),
        v != cert.source,
    ensures
        sol.0[v] is None <==> cert.predecessors@[v] is None,
        cert.predecessors@[v] matches Some(u) ==> u < g.n() && sol.0[u as int] is Some && min_weight(g, u as int, v) is Some
            && sol.0[v]->0 == sol.0[u as int]->0 + min_weight(g, u as int, v)->0 && (u != cert.source ==> sol.1[u as int]
            < sol.1[v]),
{
    reveal(sp_tree);
    if sol.0[v] is Some {
        assert(cert.predecessors@[v] is Some);
    }
}

/// Caching the value of `v` keeps the memo consistent.
proof fn lemma_memo_set<N>(
    g: &Graph<N, i64>,
    cert: ShortestPathCertificate,
    m0: Seq<Option<Option<i64>>>,
    d0: Seq<nat>,
    v: int,
    result: Option<i64>,
    dv: nat,
)
    requires
        memo_ok(g, cert, m0, d0),
        0 <= v < g.n(),
        v != cert.source,
        m0[v] is None,
        cert.predecessors@.len() == g.n(),
        result is None ==> cert.predecessors@[v] is None,
        result matches Some(d) ==> cert.predecessors@[v] matches Some(u) && u < g.n() && min_weight(g, u as int, v) is Some
            && (if u == cert.source {
            d == min_weight(g, cert.source as int, v)->0
        } else {
            m0[u as int] matches Some(Some(du)) && d == du + min_weight(g, u as int, v)->0 && d0[u as int] < dv
        }),
    ensures
        memo_ok(g, cert, m0.update(v, Some(result)), d0.update(v, dv)),
{
    reveal(memo_ok);
    let m1 = m0.update(v, Some(result));
    let d1 = d0.update(v, dv);
    assert forall|x: int|
        0 <= x < g.n() && (#[trigger] m1[x] matches Some(Some(_))) && cert.predecessors@[x]->0 != cert.source implies d1[
        cert.predecessors@[x]->0 as int] < d1[x] by {
        if x != v {
            let p = cert.predecessors@[x]->0 as int;
            assert(m0[p] is Some);
        }
    }
    assert forall|x: int| 0 <= x < g.n() && #[trigger] m1[x] is Some implies x != cert.source && match m1[x]->0 {
        None => cert.predecessors@[x] is None,
        Some(dx) => cert.predecessors@[x] is Some && cert.predecessors@[x]->0 < g.n() && min_weight(
            g,
            cert.predecessors@[x]->0 as int,
            x,
        ) is Some && (if cert.predecessors@[x]->0 == cert.source {
            dx == min_weight(g, cert.source as int, x)->0
        } else {
            m1[cert.predecessors@[x]->0 as int] matches Some(Some(du)) && dx == du + min_weight(
                g,
                cert.predecessors@[x]->0 as int,
                x,
            )->0
        }),
    } by {
        if x != v {
            assert(m0[x] is Some);
            if m0[x]->0 is Some && cert.predecessors@[x]->0 != cert.source {
                let p = cert.predecessors@[x]->0 as int;
                assert(m0[p] is Some);
            }
        }
    }
}

/// The distance of `v` along the certificate's predecessor chain, cached in
/// `memo`; fails on a predecessor cycle, a chain leaving the tree, a
/// missing edge, or a sum outside `i64`.
#[verifier::spinoff_prover]
#[verifier::rlimit(100)]
fn tree_dist<N>(
    graph: &Graph<N, i64>,
    cert: &ShortestPathCertificate,
    v: usize,
    memo: &mut Vec<Option<Option<i64>>>,
    visiting: &mut Vec<bool>,
    Ghost(dep0): Ghost<Seq<nat>>,
    Ghost(sol): Ghost<(Seq<Option<i64>>, Seq<nat>)>,
) -> (res: (Result<Option<i64>, GraphError>, Ghost<Seq<nat>>))
    requires
        v < graph.n(),
        cert.source < graph.n(),
        cert.predecessors@.len() == graph.n(),
        old(visiting)@.len() == graph.n(),
        forall|x: int| 0 <= x < graph.n() && #[trigger] old(visiting)@[x] ==> cert.predecessors@[x] is Some,
        memo_ok(graph, *cert, old(memo)@, dep0),
        old(memo)@.len() == graph.n(),
        dep0.len() == graph.n(),
    ensures
        memo_ok(graph, *cert, final(memo)@, res.1@),
        final(memo)@.len() == graph.n(),
        res.1@.len() == graph.n(),
        forall|x: int| 0 <= x < graph.n() && #[trigger] old(memo)@[x] is Some ==> res.1@[x] == dep0[x],
        final(visiting)@ == old(visiting)@,
        forall|x: int| 0 <= x < graph.n() && #[trigger] old(visiting)@[x] ==> final(memo)@[x] == old(memo)@[x],
        forall|x: int| 0 <= x < graph.n() && #[trigger] old(memo)@[x] is Some ==> final(memo)@[x] == old(memo)@[x],
        res.0 matches Ok(d) ==> (if v == cert.source { d == Some(0i64) } else { final(memo)@[v as int] == Some(d) }),
        res.0 matches Err(e) ==> (e is CertificateInvalid || e is WeightOverflow),
        res.0 matches Err(e) && e is WeightOverflow ==> chain_escapes(graph, *cert),
        v == cert.source ==> res.0 == Ok::<Option<i64>, GraphError>(Some(0i64)) && final(memo)@ == old(memo)@
            && res.1@ == dep0,
        sp_tree(graph, *cert, sol.0, sol.1) && memo_agrees(*cert, old(memo)@, sol.0) && (forall|x: int|
            0 <= x < graph.n() && #[trigger] old(visiting)@[x] ==> sol.1[x] > sol.1[v as int]) ==> res.0
            == Ok::<Option<i64>, GraphError>(sol.0[v as int]) && memo_agrees(*cert, final(memo)@, sol.0),
    decreases graph.n() - count_true(old(visiting)@, graph.n()),
{
    proof {
        if sp_tree(graph, *cert, sol.0, sol.1) {
            lemma_sp_tree_source(graph, *cert, sol);
        }
    }
    if v == cert.source {
        return (Ok(Some(0)), Ghost(dep0));
    }
    if let Some(d) = memo[v] {
        return (Ok(d), Ghost(dep0));
    }
    let ghost good = sp_tree(graph, *cert, sol.0, sol.1) && memo_agrees(*cert, memo@, sol.0) && (forall|x: int|
        0 <= x < graph.n() && #[trigger] visiting@[x] ==> sol.1[x] > sol.1[v as int]);
    proof {
        if sp_tree(graph, *cert, sol.0, sol.1) {
            lemma_sp_tree_at(graph, *cert, sol, v as int);
        }
    }
    let ghost mut dep1 = dep0;
    let ghost mut dv: nat = 0;
    let result = match cert.predecessors[v] {
        None => None,
        Some(u) => {
            if visiting[v] {
                return (Err(invalid("predecessor cycle")), Ghost(dep0));
            }
            if u >= graph.node_count() {
                return (Err(invalid("predecessor points outside the tree")), Ghost(dep0));
            }
            proof {
                lemma_count_true_set(visiting@, v as int, graph.n());
                lemma_count_true_le(visiting@.update(v as int, true), graph.n());
            }
            let ghost mm = memo@;
            let ghost vis0 = visiting@;
            visiting.set(v, true);
            proof {
                assert(visiting@[v as int]);
                if good && u != cert.source {
                    assert forall|x: int| 0 <= x < graph.n() && #[trigger] visiting@[x] implies sol.1[x] > sol.1[u as int] by {
                        if x != v {
                            assert(vis0[x]);
                        }
                    }
                }
            }
            let (du, Ghost(dd)) = tree_dist(graph, cert, u, memo, visiting, Ghost(dep0), Ghost(sol));
            proof {
                assert(memo@[v as int] == mm[v as int]);
                dep1 = dd;
                assert(mm == old(memo)@);
            }
            visiting.set(v, false);
            proof {
                assert(visiting@ =~= vis0);
            }
            let du = match du {
                Ok(d) => d,
                Err(e) => {
                    return (Err(e), Ghost(dep1));
                },
            };
            match du {
                None => {
                    return (Err(invalid("predecessor points outside the tree")), Ghost(dep1));
                },
                Some(d_u) => {
                    let w = match edge_weight(graph, u, v) {
                        Some(w) => w,
                        None => {
                            return (Err(invalid("predecessor edge missing")), Ghost(dep1));
                        },
                    };
                    proof {
                        if good {
                            assert(d_u == sol.0[u as int]->0);
                        }
                    }
                    match d_u.checked_add(w) {
                        Some(s) => {
                            proof {
                                if u != cert.source {
                                    dv = dep1[u as int] + 1;
                                }
                            }
                            Some(s)
                        },
                        None => {
                            proof {
                                let ku: nat = if u == cert.source { 0 } else { dep1[u as int] + 1 };
                                if u != cert.source {
                                    lemma_memo_chain(graph, *cert, memo@, dep1, u as int, ku);
                                }
                                assert(chain_dist(graph, *cert, v as int, ku + 1) == Some(d_u + w));
                            }
                            return (Err(GraphError::WeightOverflow("certificate distance".to_string())), Ghost(dep1));
                        },
                    }
                },
            }
        },
    };
    let ghost m0 = memo@;
    proof {
        assert(m0[v as int] is None);
        lemma_memo_set(graph, *cert, m0, dep1, v as int, result, dv);
    }
    memo.set(v, Some(result));
    proof {
        assert(visiting@ =~= old(visiting)@);
        assert forall|x: int| 0 <= x < graph.n() && #[trigger] old(memo)@[x] is Some implies dep1.update(v as int, dv)[x] == dep0[x] by {
            assert(x != v);
        }
        if good {
            assert forall|x: int| 0 <= x < memo@.len() && x != cert.source && #[trigger] memo@[x] is Some implies memo@[x] == Some(sol.0[x]) by {
                if x != v {
                    assert(m0[x] is Some);
                }
            }
        }
    }
    (Ok(result), Ghost(dep1.update(v as int, dv)))
}

/// The certificate is sound: the predecessor tree induces distances with
/// the source at 0, each reached node one lightest arc beyond its
/// predecessor, and no arc from a reached node leading to an unreached or
/// farther node.
pub open spec fn sp_sound<N>(g: &Graph<N, i64>, cert: ShortestPathCertificate, dist: Seq<Option<i64>>) -> bool {
    let n = g.n();
    &&& dist.len() == n
    &&& dist[cert.source as int] == Some(0i64)
    &&& forall|x: int| 0 <= x < n && x != cert.source && #[trigger] dist[x] is Some ==> cert.predecessors@[x] is Some
        && cert.predecessors@[x]->0 < n && dist[cert.predecessors@[x]->0 as int] is Some && min_weight(
        g,
        cert.predecessors@[x]->0 as int,
        x,
    ) is Some && dist[x]->0 == dist[cert.predecessors@[x]->0 as int]->0 + min_weight(g, cert.predecessors@[x]->0 as int, x)->0
    &&& forall|x: int| 0 <= x < n && x != cert.source && #[trigger] dist[x] is None ==> cert.predecessors@[x] is None
    &&& forall|i: int, a: int, b: int|
        0 <= i < g.edges@.len() && 0 <= a < n && #[trigger] g.edge_joins(i, a, b) && dist[a] is Some ==> dist[b] is Some
            && dist[b]->0 <= dist[a]->0 + g.edges@[i].weight
}

/// The certificate describes a shortest-path tree: distances `dist` satisfy
/// it, and every predecessor chain reaches the source, as depths `dep`
/// strictly falling along the chain witness.
#[verifier::opaque]
pub open spec fn sp_tree<N>(g: &Graph<N, i64>, cert: ShortestPathCertificate, dist: Seq<Option<i64>>, dep: Seq<nat>) -> bool {
    &&& sp_sound(g, cert, dist)
    &&& dep.len() == g.n()
    &&& forall|x: int|
        0 <= x < g.n() && x != cert.source && #[trigger] dist[x] is Some && cert.predecessors@[x]->0 != cert.source
            ==> dep[cert.predecessors@[x]->0 as int] < dep[x]
}

/// The memo agrees with the distances `dist`.
pub open spec fn memo_agrees(cert: ShortestPathCertificate, memo: Seq<Option<Option<i64>>>, dist: Seq<Option<i64>>) -> bool {
    forall|x: int| 0 <= x < memo.len() && x != cert.source && #[trigger] memo[x] is Some ==> memo[x] == Some(dist[x])
}

/// Distances that satisfy a shortest-path certificate are least: whenever a
/// walk of at most `k` arcs leads from the source to `v` with total weight
/// `d`, `v` is reached at distance at most `d`.
pub proof fn lemma_sp_sound_is_least<N>(
    g: &Graph<N, i64>,
    cert: ShortestPathCertificate,
    dist: Seq<Option<i64>>,
    v: int,
    d: int,
    k: nat,
)
    requires
        g.endpoints_in_range(),
        cert.source < g.n(),
        sp_sound(g, cert, dist),
        walk(g, i64_weight(), cert.source as int, v, d, k),
    ensures
        dist[v] matches Some(dv) && dv <= d,
    decreases k,
{
    if k == 0 {
    } else if walk(g, i64_weight(), cert.source as int, v, d, (k - 1) as nat) {
        lemma_sp_sound_is_least(g, cert, dist, v, d, (k - 1) as nat);
    } else {
        let (u, i) = choose|u: int, i: int|
            0 <= i < g.edges@.len() && #[trigger] g.edge_joins(i, u, v) && walk(
                g,
                i64_weight(),
                cert.source as int,
                u,
                d - (i64_weight())(g.edges@[i].weight),
                (k - 1) as nat,
            );
        let w = g.edges@[i].weight;
        lemma_sp_sound_is_least(g, cert, dist, u, d - w, (k - 1) as nat);
        assert(0 <= u < g.n()) by {
            assert(g.edges@[i].source < g.n() && g.edges@[i].target < g.n());
        }
    }
}

/// Recheck a shortest-path certificate from scratch: the source has no
/// predecessor, every predecessor chain reaches the source without a cycle
/// along existing edges, and every arc out of a reached node respects the
/// induced distances. A certificate describing a shortest-path tree is
/// accepted.
pub fn verify_shortest_paths<N>(graph: &Graph<N, i64>, cert: &ShortestPathCertificate) -> (r: Result<(), GraphError>)
    ensures
        !graph.valid() ==> (r matches Err(e) && graph.reports(e)),
        graph.valid() ==> (r matches Err(e) ==> (e is CertificateInvalid || e is WeightOverflow)),
        r matches Err(e) && e is WeightOverflow ==> chain_escapes(graph, *cert),
        graph.valid() && (cert.source >= graph.n() || cert.predecessors@.len() != graph.n()) ==> (r matches Err(e) && e is CertificateInvalid),
        r is Ok ==> graph.valid() && cert.source < graph.n() && cert.predecessors@.len() == graph.n()
            && cert.predecessors@[cert.source as int] is None && exists|dist: Seq<Option<i64>>| sp_sound(graph, *cert, dist),
        graph.valid() && cert.source < graph.n() && cert.predecessors@.len() == graph.n() ==> (r is Ok <==> (
        cert.predecessors@[cert.source as int] is None && exists|dist: Seq<Option<i64>>, dep: Seq<nat>|
            #[trigger] sp_tree(graph, *cert, dist, dep))),
{
    graph.validate()?;
    let n = graph.node_count();
    if cert.source >= n {
        return Err(invalid("source out of range"));
    }
    if cert.predecessors.len() != n {
        return Err(invalid("predecessor length mismatch"));
    }
    if cert.predecessors[cert.source].is_some() {
        return Err(invalid("source must have no predecessor"));
    }
    let ghost sol = choose|sol: (Seq<Option<i64>>, Seq<nat>)| #[trigger] sp_tree(graph, *cert, sol.0, sol.1);
    let ghost has = sp_tree(graph, *cert, sol.0, sol.1);
    proof {
        if exists|dist: Seq<Option<i64>>, dep: Seq<nat>| #[trigger] sp_tree(graph, *cert, dist, dep) {
            let (d0, p0) = choose|dist: Seq<Option<i64>>, dep: Seq<nat>| #[trigger] sp_tree(graph, *cert, dist, dep);
            assert(sp_tree(graph, *cert, (d0, p0).0, (d0, p0).1));
            assert(has);
        }
    }
    let mut memo: Vec<Option<Option<i64>>> = Vec::new();
    let mut visiting: Vec<bool> = Vec::new();
    let mut z: usize = 0;
    while z < n
        invariant
            z <= n,
            memo@ == Seq::new(z as nat, |i: int| None::<Option<i64>>),
            visiting@.len() == z,
            forall|x: int| 0 <= x < z ==> !#[trigger] visiting@[x],
        decreases n - z,
    {
        memo.push(None);
        visiting.push(false);
        z += 1;
        assert(forall|x: int| 0 <= x < z ==> !#[trigger] visiting@[x]);
        assert(memo@ =~= Seq::new(z as nat, |i: int| None::<Option<i64>>));
    }
    let mut dist: Vec<Option<i64>> = Vec::new();
    let ghost mut dep: Seq<nat> = Seq::new(n as nat, |i: int| 0nat);
    proof {
        reveal(memo_ok);
    }
    let mut v: usize = 0;
    while v < n
        invariant
            graph.valid(),
            n == graph.n(),
            cert.source < n,
            cert.predecessors@.len() == n,
            cert.predecessors@[cert.source as int] is None,
            visiting@.len() == n,
            forall|x: int| 0 <= x < n ==> !#[trigger] visiting@[x],
            memo_ok(graph, *cert, memo@, dep),
            memo@.len() == n,
            dep.len() == n,
            v <= n,
            dist@.len() == v,
            forall|x: int| 0 <= x < v ==> #[trigger] dist@[x] == (if x == cert.source { Some(0i64) } else { memo@[x]->0 }),
            forall|x: int| 0 <= x < v && x != cert.source ==> #[trigger] memo@[x] is Some,
            has == sp_tree(graph, *cert, sol.0, sol.1),
            has ==> memo_agrees(*cert, memo@, sol.0),
            has ==> forall|x: int| 0 <= x < v ==> #[trigger] dist@[x] == sol.0[x],
            (exists|dist: Seq<Option<i64>>, dep: Seq<nat>| #[trigger] sp_tree(graph, *cert, dist, dep)) ==> has,
        decreases n - v,
    {
        let ghost m0 = memo@;
        let (dr, Ghost(dep2)) = tree_dist(graph, cert, v, &mut memo, &mut visiting, Ghost(dep), Ghost(sol));
        proof {
            dep = dep2;
        }
        let d = match dr {
            Ok(d) => d,
            Err(e) => {
                proof {
                    assert(!has);
                }
                return Err(e);
            },
        };
        let ghost dist0 = dist@;
        dist.push(d);
        proof {
            assert forall|x: int| 0 <= x < v + 1 implies #[trigger] dist@[x] == (if x == cert.source { Some(0i64) } else { memo@[x]->0 }) by {
                if x < v && x != cert.source {
                    assert(m0[x] is Some);
                }
            }
            assert forall|x: int| 0 <= x < v + 1 && x != cert.source implies #[trigger] memo@[x] is Some by {
                if x < v {
                    assert(m0[x] is Some);
                }
            }
            if has {
                assert forall|x: int| 0 <= x < v + 1 implies #[trigger] dist@[x] == sol.0[x] by {
                    if x < v {
                        assert(dist@[x] == dist0[x]);
                    }
                }
            }
        }
        v += 1;
    }
    proof {
        reveal(sp_tree);
        if has {
            assert(dist@ =~= sol.0);
        }
    }
    let undirected = !graph.is_directed();
    let mut i: usize = 0;
    while i < graph.edges.len()
        invariant
            graph.valid(),
            n == graph.n(),
            undirected == graph.undirected(),
            dist@.len() == n,
            i <= graph.edges@.len(),
            forall|j: int, a: int, b: int|
                0 <= j < i && 0 <= a < n && #[trigger] graph.edge_joins(j, a, b) && dist@[a] is Some ==> dist@[b] is Some
                    && dist@[b]->0 <= dist@[a]->0 + graph.edges@[j].weight,
            has == sp_tree(graph, *cert, sol.0, sol.1),
            has ==> dist@ == sol.0,
            (exists|dist: Seq<Option<i64>>, dep: Seq<nat>| #[trigger] sp_tree(graph, *cert, dist, dep)) ==> has,
        decreases graph.edges@.len() - i,
    {
        let e = &graph.edges[i];
        proof {
            assert(graph.edge_ok(i as int));
        }
        let mut pass: usize = 0;
        while pass < 2
            invariant
                graph.valid(),
                n == graph.n(),
                undirected == graph.undirected(),
                dist@.len() == n,
                i < graph.edges@.len(),
                *e == graph.edges@[i as int],
                e.source < n && e.target < n,
                pass <= 2,
                forall|a: int, b: int|
                    0 <= a < n && (pass >= 1 && a == e.source && b == e.target || pass >= 2 && undirected && a == e.target && b == e.source)
                        && dist@[a] is Some ==> dist@[b] is Some && dist@[b]->0 <= dist@[a]->0 + e.weight,
            has == sp_tree(graph, *cert, sol.0, sol.1),
            has ==> dist@ == sol.0,
            (exists|dist: Seq<Option<i64>>, dep: Seq<nat>| #[trigger] sp_tree(graph, *cert, dist, dep)) ==> has,
            (i as int) == e.id,
        decreases 2 - pass,
        {
            if pass == 0 || undirected {
                let (a, b) = if pass == 0 {
                    (e.source, e.target)
                } else {
                    (e.target, e.source)
                };
                if let Some(da) = dist[a] {
                    match dist[b] {
                        None => {
                            proof {
                                reveal(sp_tree);
                                if has {
                                    assert(graph.edge_joins(i as int, a as int, b as int));
                                }
                            }
                            return Err(invalid("reachable node missing from tree"));
                        },
                        Some(db) => {
                            if (db as i128) > (da as i128) + (e.weight as i128) {
                                proof {
                                    reveal(sp_tree);
                                    if has {
                                        assert(graph.edge_joins(i as int, a as int, b as int));
                                    }
                                }
                                return Err(invalid("edge violates shortest-path relaxation"));
                            }
                        },
                    }
                }
            }
            pass += 1;
        }
        proof {
            assert forall|j: int, a: int, b: int|
                0 <= j < i + 1 && 0 <= a < n && #[trigger] graph.edge_joins(j, a, b) && dist@[a] is Some implies dist@[b] is Some
                    && dist@[b]->0 <= dist@[a]->0 + graph.edges@[j].weight by {
                if j == i {
                    assert(graph.edge_joins(i as int, a, b));
                }
            }
        }
        i += 1;
    }
    proof {
        reveal(memo_ok);
        reveal(sp_tree);
        let dd = dist@;
        assert forall|x: int| 0 <= x < n && x != cert.source && #[trigger] dd[x] is Some implies cert.predecessors@[x] is Some
            && cert.predecessors@[x]->0 < n && dd[cert.predecessors@[x]->0 as int] is Some && min_weight(
            graph,
            cert.predecessors@[x]->0 as int,
            x,
        ) is Some && dd[x]->0 == dd[cert.predecessors@[x]->0 as int]->0 + min_weight(graph, cert.predecessors@[x]->0 as int, x)->0 by {
            assert(memo@[x] is Some);
            let p = cert.predecessors@[x]->0 as int;
            if p != cert.source {
                assert(memo@[p] is Some);
            }
        }
        assert forall|x: int| 0 <= x < n && x != cert.source && #[trigger] dd[x] is None implies cert.predecessors@[x] is None by {
            assert(memo@[x] is Some);
        }
        assert(sp_sound(graph, *cert, dd));
        assert forall|x: int|
            0 <= x < graph.n() && x != cert.source && #[trigger] dd[x] is Some && cert.predecessors@[x]->0 != cert.source
                implies dep[cert.predecessors@[x]->0 as int] < dep[x] by {
            assert(memo@[x] is Some);
        }
        assert(sp_tree(graph, *cert, dd, dep));
    }
    Ok(())
}

} // verus!
