//! Deterministic breadth-first and depth-first traversal.
//!
//! Both walk the adjacency that [`Graph::neighbors`] reports (ordered by
//! neighbor node, then edge id) and record the visiting order and the search
//! tree as predecessor links.

use crate::error::GraphError;
use crate::closure_reach::{lemma_arc_reaches, lemma_reaches_trans};
use crate::connectivity::reaches;
use crate::graph::{Graph, Neighbor};
use vstd::prelude::*;

verus! {

/// The result of a traversal.
#[derive(Debug, Clone, PartialEq, Eq)]
pub struct Traversal {
    /// Nodes in visiting order.
    pub order: Vec<usize>,
    /// The search-tree parent of each node; `None` for the start and for nodes
    /// never reached.
    pub predecessor: Vec<Option<usize>>,
}

/// The number of `true` entries among the first `m` of `s`.
pub open spec fn count_true(s: Seq<bool>, m: nat) -> nat
    decreases m,
{
    if m == 0 {
        0
    } else {
        count_true(s, (m - 1) as nat) + if s[m - 1] { 1nat } else { 0nat }
    }
}

pub(crate) proof fn lemma_count_true_le(s: Seq<bool>, m: nat)
    ensures
        count_true(s, m) <= m,
    decreases m,
{
    if m > 0 {
        lemma_count_true_le(s, (m - 1) as nat);
    }
}

pub(crate) proof fn lemma_count_true_set(s: Seq<bool>, v: int, m: nat)
    requires
        0 <= v < s.len(),
        m <= s.len(),
        !s[v],
    ensures
        count_true(s.update(v, true), m) == count_true(s, m) + if v < m { 1nat } else { 0nat },
    decreases m,
{
    if m > 0 {
        lemma_count_true_set(s, v, (m - 1) as nat);
    }
}

/// `u` comes before `v` in `order`.
pub open spec fn precedes(order: Seq<usize>, u: usize, v: usize) -> bool {
    exists|i: int, j: int| 0 <= i < j < order.len() && order[i] == u && order[j] == v
}

/// `t` is a complete search from `start`: its order lists, once each and
/// starting with `start`, exactly the nodes reachable from `start` (the
/// listed set is closed under arcs, and each listed node other than `start`
/// hangs off an earlier listed node by an arc); unlisted nodes have no parent.
pub open spec fn is_search<N, W>(g: &Graph<N, W>, start: usize, t: Traversal) -> bool {
    let order = t.order@;
    let pred = t.predecessor@;
    let n = g.n();
    &&& pred.len() == n
    &&& order.len() >= 1 && order[0] == start
    &&& forall|i: int| 0 <= i < order.len() ==> #[trigger] order[i] < n
    &&& forall|i: int, j: int| 0 <= i < j < order.len() ==> #[trigger] order[i] != #[trigger] order[j]
    &&& forall|i: int, v: int|
        0 <= i < order.len() && 0 <= v < n && #[trigger] g.arc(order[i] as int, v) ==> order.contains(v as usize)
    &&& pred[start as int] is None
    &&& forall|v: int|
        0 <= v < n && v != start && order.contains(v as usize) ==> (#[trigger] pred[v] matches Some(u) && precedes(
            order,
            u,
            v as usize,
        ) && g.arc(u as int, v))
    &&& forall|v: int| 0 <= v < n && !order.contains(v as usize) ==> #[trigger] pred[v] is None
}

/// Position `p` of `order` holds the first listed node with an arc to `v`.
pub open spec fn first_parent<N, W>(g: &Graph<N, W>, order: Seq<usize>, v: int, p: int) -> bool {
    &&& 0 <= p < order.len()
    &&& g.arc(order[p] as int, v)
    &&& forall|q: int| 0 <= q < p ==> !#[trigger] g.arc(order[q] as int, v)
}

/// The node at position `j` hangs off its first parent.
pub open spec fn has_first_parent<N, W>(g: &Graph<N, W>, order: Seq<usize>, pred: Seq<Option<usize>>, j: int) -> bool {
    exists|p: int|
        #![trigger first_parent(g, order, order[j] as int, p)]
        p < j && first_parent(g, order, order[j] as int, p) && pred[order[j] as int] == Some(order[p])
}

/// `t` lists its nodes in breadth-first order: each node after the first
/// hangs off the earliest listed node with an arc to it, and nodes are listed
/// by the position of that parent, ties broken by ascending node.
pub open spec fn is_bfs_order<N, W>(g: &Graph<N, W>, t: Traversal) -> bool {
    let order = t.order@;
    let pred = t.predecessor@;
    &&& forall|j: int|
        1 <= j < order.len() ==> #[trigger] has_first_parent(g, order, pred, j)
    &&& forall|j1: int, j2: int, p1: int, p2: int|
        1 <= j1 < j2 < order.len() && #[trigger] first_parent(g, order, order[j1] as int, p1)
            && #[trigger] first_parent(g, order, order[j2] as int, p2) ==> p1 < p2 || (p1 == p2
            && order[j1] < order[j2])
}

/// The first parent of a node is unique.
proof fn lemma_first_parent_unique<N, W>(g: &Graph<N, W>, order: Seq<usize>, v: int, p: int, q: int)
    requires
        first_parent(g, order, v, p),
        first_parent(g, order, v, q),
    ensures
        p == q,
{
    if p < q {
        assert(g.arc(order[p] as int, v));
    } else if q < p {
        assert(g.arc(order[q] as int, v));
    }
}

/// Appending to the order keeps every first parent.
proof fn lemma_first_parent_push<N, W>(g: &Graph<N, W>, order: Seq<usize>, x: usize, v: int, p: int)
    ensures
        first_parent(g, order, v, p) ==> first_parent(g, order.push(x), v, p),
        p < order.len() && first_parent(g, order.push(x), v, p) ==> first_parent(g, order, v, p),
{
    assert forall|q: int| 0 <= q < order.len() implies order.push(x)[q] == order[q] by {}
    if p < order.len() && first_parent(g, order.push(x), v, p) {
        assert forall|q: int| 0 <= q < p implies !#[trigger] g.arc(order[q] as int, v) by {
            assert(order.push(x)[q] == order[q]);
        }
    }
    if first_parent(g, order, v, p) {
        assert forall|q: int| 0 <= q < p implies !#[trigger] g.arc(order.push(x)[q] as int, v) by {
            assert(order.push(x)[q] == order[q]);
        }
    }
}

/// Appending the newly found neighbor `v` of `q[head]` keeps the
/// breadth-first bookkeeping: `v` hangs off its first parent `q[head]`, and
/// it sorts after every node listed before it.
proof fn lemma_bfs_push<N, W>(
    g: &Graph<N, W>,
    q: Seq<usize>,
    pr: Seq<Option<usize>>,
    vis: Seq<bool>,
    nb: Seq<Neighbor<W>>,
    src: Seq<int>,
    head: int,
    mark: nat,
    t: int,
    v: usize,
)
    requires
        0 <= head < mark <= q.len(),
        0 <= t < nb.len(),
        nb[t].node == v,
        g.arc(q[head] as int, v as int),
        v < vis.len(),
        pr.len() == vis.len(),
        !vis[v as int],
        forall|x: int| 0 <= x < vis.len() ==> (#[trigger] vis[x] <==> q.contains(x as usize)),
        forall|i: int, x: int| 0 <= i < head && 0 <= x < vis.len() && #[trigger] g.arc(q[i] as int, x) ==> vis[x],
        forall|i: int| 0 <= i < q.len() ==> #[trigger] q[i] < vis.len(),
        forall|i: int, j: int| 0 <= i < j < nb.len() ==> crate::graph::neighbor_le(#[trigger] nb[i], #[trigger] nb[j]),
        forall|j: int| 1 <= j < q.len() ==> #[trigger] has_first_parent(g, q, pr, j),
        forall|j: int, p: int| 1 <= j < mark && #[trigger] first_parent(g, q, q[j] as int, p) ==> p < head,
        src.len() + mark == q.len(),
        forall|j: int| mark <= j < q.len() ==> #[trigger] first_parent(g, q, q[j] as int, head),
        forall|x: int| 0 <= x < src.len() ==> 0 <= #[trigger] src[x] < t && nb[src[x]].node == q[mark + x],
        forall|j1: int, j2: int, p1: int, p2: int|
            1 <= j1 < j2 < q.len() && #[trigger] first_parent(g, q, q[j1] as int, p1)
                && #[trigger] first_parent(g, q, q[j2] as int, p2) ==> p1 < p2 || (p1 == p2 && q[j1] < q[j2]),
    ensures
        forall|j: int|
            1 <= j < q.push(v).len() ==> #[trigger] has_first_parent(
                g,
                q.push(v),
                pr.update(v as int, Some(q[head])),
                j,
            ),
        forall|j: int, p: int| 1 <= j < mark && #[trigger] first_parent(g, q.push(v), q.push(v)[j] as int, p) ==> p < head,
        forall|j: int| mark <= j < q.push(v).len() ==> #[trigger] first_parent(g, q.push(v), q.push(v)[j] as int, head),
        forall|x: int|
            0 <= x < src.push(t).len() ==> 0 <= #[trigger] src.push(t)[x] < t + 1 && nb[src.push(t)[x]].node == q.push(v)[mark + x],
        forall|j1: int, j2: int, p1: int, p2: int|
            1 <= j1 < j2 < q.push(v).len() && #[trigger] first_parent(g, q.push(v), q.push(v)[j1] as int, p1)
                && #[trigger] first_parent(g, q.push(v), q.push(v)[j2] as int, p2) ==> p1 < p2 || (p1 == p2
                && q.push(v)[j1] < q.push(v)[j2]),
{
    let q2 = q.push(v);
    let pr2 = pr.update(v as int, Some(q[head]));
    let last = q.len() as int;
    assert(!q.contains(v));
    assert forall|j: int| 0 <= j < q.len() implies q2[j] == q[j] && q[j] != v by {
        assert(q.contains(q[j]));
    }
    assert(first_parent(g, q2, v as int, head)) by {
        assert forall|x: int| 0 <= x < head implies !#[trigger] g.arc(q2[x] as int, v as int) by {
            assert(q2[x] == q[x]);
            if g.arc(q[x] as int, v as int) {
                assert(vis[v as int]);
            }
        }
    }
    assert forall|j: int| 1 <= j < q2.len() implies #[trigger] has_first_parent(g, q2, pr2, j) by {
        if j == last {
            assert(q2[j] == v);
            assert(head < j && first_parent(g, q2, q2[j] as int, head) && pr2[q2[j] as int] == Some(q2[head]));
        } else {
            assert(has_first_parent(g, q, pr, j));
            let p = choose|p: int| p < j && first_parent(g, q, q[j] as int, p) && pr[q[j] as int] == Some(q[p]);
            lemma_first_parent_push(g, q, v, q[j] as int, p);
            assert(q2[j] == q[j] && q2[p] == q[p]);
            assert(pr2[q2[j] as int] == pr[q[j] as int]);
            assert(p < j && first_parent(g, q2, q2[j] as int, p) && pr2[q2[j] as int] == Some(q2[p]));
        }
    }
    assert forall|j: int, p: int| 1 <= j < mark && #[trigger] first_parent(g, q2, q2[j] as int, p) implies p < head by {
        assert(q2[j] == q[j]);
        if p >= q.len() {
            assert(p == last);
            assert(has_first_parent(g, q, pr, j));
            let pj = choose|pp: int| pp < j && first_parent(g, q, q[j] as int, pp) && pr[q[j] as int] == Some(q[pp]);
            lemma_first_parent_push(g, q, v, q[j] as int, pj);
            lemma_first_parent_unique(g, q2, q2[j] as int, p, pj);
        } else {
            lemma_first_parent_push(g, q, v, q[j] as int, p);
        }
    }
    assert forall|j: int| mark <= j < q2.len() implies #[trigger] first_parent(g, q2, q2[j] as int, head) by {
        if j < last {
            assert(q2[j] == q[j]);
            lemma_first_parent_push(g, q, v, q[j] as int, head);
        }
    }
    assert forall|x: int| 0 <= x < src.push(t).len() implies 0 <= #[trigger] src.push(t)[x] < t + 1 && nb[src.push(t)[x]].node == q2[mark + x] by {
        if x < src.len() {
            assert(src.push(t)[x] == src[x]);
            assert(q2[mark + x] == q[mark + x]);
        }
    }
    assert forall|j1: int, j2: int, p1: int, p2: int|
        1 <= j1 < j2 < q2.len() && #[trigger] first_parent(g, q2, q2[j1] as int, p1)
            && #[trigger] first_parent(g, q2, q2[j2] as int, p2) implies p1 < p2 || (p1 == p2 && q2[j1] < q2[j2]) by {
        assert(q2[j1] == q[j1]);
        assert(has_first_parent(g, q, pr, j1));
            let pj1 = choose|pp: int| pp < j1 && first_parent(g, q, q[j1] as int, pp) && pr[q[j1] as int] == Some(q[pp]);
        lemma_first_parent_push(g, q, v, q[j1] as int, pj1);
        lemma_first_parent_unique(g, q2, q2[j1] as int, p1, pj1);
        lemma_first_parent_push(g, q, v, q[j1] as int, p1);
        if j2 == last {
            lemma_first_parent_unique(g, q2, v as int, p2, head);
            if j1 >= mark {
                lemma_first_parent_push(g, q, v, q[j1] as int, head);
                lemma_first_parent_unique(g, q, q[j1] as int, p1, head);
                let s = src[j1 - mark];
                assert(nb[s].node == q[j1]);
                assert(crate::graph::neighbor_le(nb[s], nb[t]));
            }
        } else {
            assert(q2[j2] == q[j2]);
            assert(has_first_parent(g, q, pr, j2));
            let pj2 = choose|pp: int| pp < j2 && first_parent(g, q, q[j2] as int, pp) && pr[q[j2] as int] == Some(q[pp]);
            lemma_first_parent_push(g, q, v, q[j2] as int, pj2);
            lemma_first_parent_unique(g, q2, q2[j2] as int, p2, pj2);
            lemma_first_parent_push(g, q, v, q[j2] as int, p2);
        }
    }
}

/// Reject a start node outside the graph.
fn check_start<N, W>(graph: &Graph<N, W>, start: usize) -> (r: Result<(), GraphError>)
    ensures
        r is Ok <==> start < graph.n(),
        r matches Err(e) ==> e == (GraphError::NodeOutOfRange { node: start, count: graph.n() as usize }),
{
    if start >= graph.node_count() {
        return Err(GraphError::NodeOutOfRange { node: start, count: graph.node_count() });
    }
    Ok(())
}

/// `n` copies of `false`.
pub(crate) fn falses(n: usize) -> (r: Vec<bool>)
    ensures
        r@ == Seq::new(n as nat, |i: int| false),
{
    let mut v: Vec<bool> = Vec::new();
    let mut i: usize = 0;
    while i < n
        invariant
            i <= n,
            v@ == Seq::new(i as nat, |j: int| false),
        decreases n - i,
    {
        v.push(false);
        i += 1;
        assert(v@ =~= Seq::new(i as nat, |j: int| false));
    }
    v
}

/// `n` copies of `None`.
pub(crate) fn nones(n: usize) -> (r: Vec<Option<usize>>)
    ensures
        r@ == Seq::new(n as nat, |i: int| None::<usize>),
{
    let mut v: Vec<Option<usize>> = Vec::new();
    let mut i: usize = 0;
    while i < n
        invariant
            i <= n,
            v@ == Seq::new(i as nat, |j: int| None::<usize>),
        decreases n - i,
    {
        v.push(None);
        i += 1;
        assert(v@ =~= Seq::new(i as nat, |j: int| None::<usize>));
    }
    v
}

/// Every arc out of a node reachable from `start` ends at a node.
pub open spec fn arcs_in_range_from<N, W>(g: &Graph<N, W>, start: usize) -> bool {
    forall|u: int, v: int| reaches(g, false, start as int, u) && #[trigger] g.arc(u, v) ==> 0 <= v < g.n()
}

/// Breadth-first traversal from `start`, visiting each node's neighbors in
/// adjacency order.
pub fn bfs<N, W>(graph: &Graph<N, W>, start: usize) -> (r: Result<Traversal, GraphError>)
    requires
        start < graph.n() ==> arcs_in_range_from(graph, start),
    ensures
        r is Ok <==> start < graph.n(),
        r matches Err(e) ==> e == (GraphError::NodeOutOfRange { node: start, count: graph.n() as usize }),
        r matches Ok(t) ==> is_search(graph, start, t) && is_bfs_order(graph, t),
{
    check_start(graph, start)?;
    let n = graph.node_count();
    let mut visited = falses(n);
    let mut predecessor = nones(n);
    let mut queue: Vec<usize> = Vec::new();
    let ghost n0 = n as nat;
    proof {
        lemma_count_true_set(visited@, start as int, n0);
        assert(count_true(visited@, n0) == 0) by {
            lemma_count_all_false(n0);
        }
    }
    visited.set(start, true);
    queue.push(start);
    let mut head: usize = 0;
    proof {
        assert forall|v: int| 0 <= v < n implies (#[trigger] visited@[v] <==> queue@.contains(v as usize)) by {
            if v == start {
                assert(queue@[0] == start);
            }
            if queue@.contains(v as usize) {
                let k = choose|k: int| 0 <= k < queue@.len() && queue@[k] == v as usize;
                assert(k == 0);
            }
        }
    }
    while head < queue.len()
        invariant
            arcs_in_range_from(graph, start),
            forall|i: int| 0 <= i < queue@.len() ==> reaches(graph, false, start as int, #[trigger] queue@[i] as int),
            n == graph.n(),
            n0 == n,
            start < n,
            visited@.len() == n,
            predecessor@.len() == n,
            head <= queue@.len(),
            queue@.len() == count_true(visited@, n0),
            queue@.len() >= 1,
            queue@[0] == start,
            forall|i: int| 0 <= i < queue@.len() ==> #[trigger] queue@[i] < n,
            forall|i: int, j: int| 0 <= i < j < queue@.len() ==> #[trigger] queue@[i] != #[trigger] queue@[j],
            forall|v: int| 0 <= v < n ==> (#[trigger] visited@[v] <==> queue@.contains(v as usize)),
            forall|i: int, v: int|
                0 <= i < head && 0 <= v < n && #[trigger] graph.arc(queue@[i] as int, v) ==> visited@[v],
            predecessor@[start as int] is None,
            forall|v: int|
                0 <= v < n && v != start && queue@.contains(v as usize) ==> (#[trigger] predecessor@[v] matches Some(u)
                    && (exists|i: int, j: int| 0 <= i < j < queue@.len() && i < head && queue@[i] == u && queue@[j] == v)
                    && graph.arc(u as int, v)),
            forall|v: int| 0 <= v < n && !queue@.contains(v as usize) ==> #[trigger] predecessor@[v] is None,
            forall|j: int| 1 <= j < queue@.len() ==> #[trigger] has_first_parent(graph, queue@, predecessor@, j),
            forall|j: int, p: int|
                1 <= j < queue@.len() && #[trigger] first_parent(graph, queue@, queue@[j] as int, p) ==> p < head,
            forall|j1: int, j2: int, p1: int, p2: int|
                1 <= j1 < j2 < queue@.len() && #[trigger] first_parent(graph, queue@, queue@[j1] as int, p1)
                    && #[trigger] first_parent(graph, queue@, queue@[j2] as int, p2) ==> p1 < p2 || (p1 == p2
                    && queue@[j1] < queue@[j2]),
        decreases n0 - head,
    {
        proof {
            lemma_count_true_le(visited@, n0);
        }
        let u = queue[head];
        let nb = match graph.neighbors(u) {
            Ok(nb) => nb,
            Err(e) => {
                return Err(e);
            },
        };
        proof {
            assert(reaches(graph, false, start as int, queue@[head as int] as int));
            assert forall|s: int| 0 <= s < nb@.len() implies graph.arc(u as int, (#[trigger] nb@[s]).node as int) && nb@[s].node < n by {
                graph.lemma_neighbor_arc(u, nb@, s);
            }
        }
        let ghost mark = queue@.len();
        let ghost mut src: Seq<int> = Seq::empty();
        let mut t: usize = 0;
        while t < nb.len()
            invariant
                forall|i: int, j: int| 0 <= i < j < nb@.len() ==> crate::graph::neighbor_le(#[trigger] nb@[i], #[trigger] nb@[j]),
                head < mark <= queue@.len(),
                forall|j: int| 1 <= j < queue@.len() ==> #[trigger] has_first_parent(graph, queue@, predecessor@, j),
                forall|j: int, p: int|
                    1 <= j < mark && #[trigger] first_parent(graph, queue@, queue@[j] as int, p) ==> p < head,
                src.len() + mark == queue@.len(),
                forall|j: int| mark <= j < queue@.len() ==> #[trigger] first_parent(graph, queue@, queue@[j] as int, head as int),
                forall|x: int| 0 <= x < src.len() ==> 0 <= #[trigger] src[x] < t && nb@[src[x]].node == queue@[mark + x],
                forall|j1: int, j2: int, p1: int, p2: int|
                    1 <= j1 < j2 < queue@.len() && #[trigger] first_parent(graph, queue@, queue@[j1] as int, p1)
                        && #[trigger] first_parent(graph, queue@, queue@[j2] as int, p2) ==> p1 < p2 || (p1 == p2
                        && queue@[j1] < queue@[j2]),
                arcs_in_range_from(graph, start),
                forall|i: int| 0 <= i < queue@.len() ==> reaches(graph, false, start as int, #[trigger] queue@[i] as int),
                forall|s: int| 0 <= s < nb@.len() ==> graph.arc(u as int, (#[trigger] nb@[s]).node as int) && nb@[s].node < n,
                n == graph.n(),
                n0 == n,
                start < n,
                u < n,
                head < queue@.len(),
                queue@[head as int] == u,
                crate::graph::neighbor_triples(nb@).to_multiset() == graph.incident(u).to_multiset(),
                t <= nb@.len(),
                visited@.len() == n,
                predecessor@.len() == n,
                queue@.len() == count_true(visited@, n0),
                queue@[0] == start,
                forall|i: int| 0 <= i < queue@.len() ==> #[trigger] queue@[i] < n,
                forall|i: int, j: int| 0 <= i < j < queue@.len() ==> #[trigger] queue@[i] != #[trigger] queue@[j],
                forall|v: int| 0 <= v < n ==> (#[trigger] visited@[v] <==> queue@.contains(v as usize)),
                forall|i: int, v: int|
                    0 <= i < head && 0 <= v < n && #[trigger] graph.arc(queue@[i] as int, v) ==> visited@[v],
                forall|s: int| 0 <= s < t ==> visited@[(#[trigger] nb@[s]).node as int],
                predecessor@[start as int] is None,
                forall|v: int|
                    0 <= v < n && v != start && queue@.contains(v as usize) ==> (#[trigger] predecessor@[v] matches Some(w)
                        && (exists|i: int, j: int| 0 <= i < j < queue@.len() && i <= head && queue@[i] == w && queue@[j] == v)
                        && graph.arc(w as int, v)),
                forall|v: int| 0 <= v < n && !queue@.contains(v as usize) ==> #[trigger] predecessor@[v] is None,
            decreases nb@.len() - t,
        {
            let v = nb[t].node;
            proof {
                assert(graph.arc(u as int, nb@[t as int].node as int) && nb@[t as int].node < n);
            }
            let ghost vis_before = visited@;
            if !visited[v] {
                let ghost q0 = queue@;
                let ghost vis0 = visited@;
                let ghost pr0 = predecessor@;
                proof {
                    lemma_count_true_set(visited@, v as int, n0);
                }
                visited.set(v, true);
                predecessor.set(v, Some(u));
                queue.push(v);
                proof {
                    assert(queue@[head as int] == u);
                    assert forall|i: int, j: int| 0 <= i < j < queue@.len() implies #[trigger] queue@[i] != #[trigger] queue@[j] by {
                        if j == queue@.len() - 1 {
                            assert(queue@[i] == q0[i]);
                            assert(q0.contains(q0[i]));
                        }
                    }
                    assert forall|x: int| 0 <= x < n implies (#[trigger] visited@[x] <==> queue@.contains(x as usize)) by {
                        if x != v {
                            if queue@.contains(x as usize) {
                                let k = choose|k: int| 0 <= k < queue@.len() && queue@[k] == x as usize;
                                assert(k < q0.len());
                                assert(q0[k] == x as usize);
                            }
                            if q0.contains(x as usize) {
                                let k = choose|k: int| 0 <= k < q0.len() && q0[k] == x as usize;
                                assert(queue@[k] == x as usize);
                            }
                        } else {
                            assert(queue@[queue@.len() - 1] == v);
                        }
                    }
                    assert forall|x: int|
                        0 <= x < n && x != start && queue@.contains(x as usize) implies (#[trigger] predecessor@[x] matches Some(w)
                        && (exists|i: int, j: int| 0 <= i < j < queue@.len() && i <= head && queue@[i] == w && queue@[j] == x)
                        && graph.arc(w as int, x)) by {
                        if x == v {
                            assert(queue@[queue@.len() - 1] == v);
                            assert(0 <= head < queue@.len() - 1);
                        } else {
                            assert(q0.contains(x as usize)) by {
                                let k = choose|k: int| 0 <= k < queue@.len() && queue@[k] == x as usize;
                                assert(k < q0.len());
                                assert(q0[k] == x as usize);
                            }
                            let w = predecessor@[x]->0;
                            let (i, j) = choose|i: int, j: int| 0 <= i < j < q0.len() && i <= head && q0[i] == w && q0[j] == x;
                            assert(queue@[i] == w && queue@[j] == x);
                        }
                    }
                    assert forall|x: int| 0 <= x < n && !queue@.contains(x as usize) implies #[trigger] predecessor@[x] is None by {
                        if x != v {
                            if q0.contains(x as usize) {
                                let k = choose|k: int| 0 <= k < q0.len() && q0[k] == x as usize;
                                assert(queue@[k] == x as usize);
                            }
                        } else {
                            assert(queue@[queue@.len() - 1] == v);
                        }
                    }
                    assert forall|i: int, x: int|
                        0 <= i < head && 0 <= x < n && #[trigger] graph.arc(queue@[i] as int, x) implies visited@[x] by {
                        assert(queue@[i] == q0[i]);
                        assert(vis0[x]);
                    }
                }
                proof {
                    assert(queue@ == q0.push(v));
                    assert(reaches(graph, false, start as int, u as int));
                    lemma_arc_reaches(graph, u as int, v as int);
                    lemma_reaches_trans(graph, false, start as int, u as int, v as int);
                    assert forall|i: int| 0 <= i < queue@.len() implies reaches(graph, false, start as int, #[trigger] queue@[i] as int) by {
                        if i < q0.len() {
                            assert(queue@[i] == q0[i]);
                        }
                    }
                    lemma_bfs_push(graph, q0, pr0, vis0, nb@, src, head as int, mark, t as int, v);
                    src = src.push(t as int);
                }
            }
            proof {
                assert(visited@[nb@[t as int].node as int]);
                assert forall|s: int| 0 <= s < t + 1 implies visited@[(#[trigger] nb@[s]).node as int] by {
                    if s < t {
                        assert(graph.arc(u as int, nb@[s].node as int));
                        assert(vis_before[nb@[s].node as int]);
                    }
                }
            }
            t += 1;
        }
        proof {
            assert forall|j: int, p: int|
                1 <= j < queue@.len() && #[trigger] first_parent(graph, queue@, queue@[j] as int, p) implies p < head + 1 by {
                if j >= mark {
                    lemma_first_parent_unique(graph, queue@, queue@[j] as int, p, head as int);
                }
            }
            assert forall|i: int, x: int|
                0 <= i < head + 1 && 0 <= x < n && #[trigger] graph.arc(queue@[i] as int, x) implies visited@[x] by {
                if i == head {
                    graph.lemma_arc_is_neighbor(u, nb@, x as usize);
                    let s = choose|s: int| 0 <= s < nb@.len() && (#[trigger] nb@[s]).node == x as usize;
                    assert(visited@[nb@[s].node as int]);
                }
            }
            assert forall|x: int|
                0 <= x < n && x != start && queue@.contains(x as usize) implies (#[trigger] predecessor@[x] matches Some(w)
                && (exists|i: int, j: int| 0 <= i < j < queue@.len() && i < head + 1 && queue@[i] == w && queue@[j] == x)
                && graph.arc(w as int, x)) by {
                let w = predecessor@[x]->0;
                let (i, j) = choose|i: int, j: int| 0 <= i < j < queue@.len() && i <= head && queue@[i] == w && queue@[j] == x;
            }
        }
        head += 1;
    }
    proof {
        assert(queue@.subrange(0, head as int) =~= queue@);
        assert forall|v: int|
            0 <= v < n && v != start && queue@.contains(v as usize) implies (#[trigger] predecessor@[v] matches Some(u)
            && precedes(queue@, u, v as usize) && graph.arc(u as int, v)) by {
            let u = predecessor@[v]->0;
            let (i, j) = choose|i: int, j: int| 0 <= i < j < queue@.len() && i < head && queue@[i] == u && queue@[j] == v;
            assert(queue@[i] == u && queue@[j] == v as usize);
        }
        assert forall|i: int, v: int|
            0 <= i < queue@.len() && 0 <= v < n && #[trigger] graph.arc(queue@[i] as int, v) implies queue@.contains(v as usize) by {
            assert(visited@[v]);
        }
    }
    Ok(Traversal { order: queue, predecessor })
}

/// `v` is among the first `j` listed nodes.
pub open spec fn listed_before(order: Seq<usize>, j: int, v: int) -> bool {
    exists|k: int| 0 <= k < j && order[k] as int == v
}

/// Before position `j`, the node at position `p` still has an arc to a node
/// not yet listed.
pub open spec fn open_at<N, W>(g: &Graph<N, W>, order: Seq<usize>, j: int, p: int) -> bool {
    exists|v: int| #[trigger] g.arc(order[p] as int, v) && !listed_before(order, j, v)
}

/// Position `p` is the last position before `j` whose node still has an arc
/// to a node not yet listed.
pub open spec fn dfs_parent<N, W>(g: &Graph<N, W>, order: Seq<usize>, j: int, p: int) -> bool {
    &&& 0 <= p < j
    &&& open_at(g, order, j, p)
    &&& forall|q: int| p < q < j ==> !#[trigger] open_at(g, order, j, q)
}

/// `v` is the least node not listed before `j` with an arc from the node at
/// position `p`.
pub open spec fn least_new<N, W>(g: &Graph<N, W>, order: Seq<usize>, j: int, p: int, v: int) -> bool {
    &&& g.arc(order[p] as int, v)
    &&& !listed_before(order, j, v)
    &&& forall|w: int| 0 <= w < v && #[trigger] g.arc(order[p] as int, w) ==> listed_before(order, j, w)
}

/// The node at position `j` is the least unlisted node reachable by one arc
/// from the most recently listed node that still has one, and hangs off it.
pub open spec fn has_dfs_parent<N, W>(g: &Graph<N, W>, order: Seq<usize>, pred: Seq<Option<usize>>, j: int) -> bool {
    exists|p: int|
        #![trigger dfs_parent(g, order, j, p)]
        dfs_parent(g, order, j, p) && least_new(g, order, j, p, order[j] as int) && pred[order[j] as int] == Some(
            order[p],
        )
}

/// `t` lists its nodes in depth-first order: each node after the first is
/// the least unlisted neighbor of the most recently listed node that still
/// has an unlisted neighbor, and hangs off that node.
pub open spec fn is_dfs_order<N, W>(g: &Graph<N, W>, t: Traversal) -> bool {
    forall|j: int| 1 <= j < t.order@.len() ==> #[trigger] has_dfs_parent(g, t.order@, t.predecessor@, j)
}

/// Listing one more node keeps the depth-first parent of every earlier
/// position.
proof fn lemma_dfs_parent_stable<N, W>(
    g: &Graph<N, W>,
    o0: Seq<usize>,
    pred0: Seq<Option<usize>>,
    u: usize,
    x: Option<usize>,
    j: int,
)
    requires
        1 <= j < o0.len(),
        forall|k: int| 0 <= k < o0.len() ==> #[trigger] o0[k] != u && (o0[k] as int) < pred0.len(),
        (u as int) < pred0.len(),
        has_dfs_parent(g, o0, pred0, j),
    ensures
        has_dfs_parent(g, o0.push(u), pred0.update(u as int, x), j),
{
    let o1 = o0.push(u);
    let pred1 = pred0.update(u as int, x);
    assert forall|v: int| #[trigger] listed_before(o1, j, v) == listed_before(o0, j, v) by {
        if listed_before(o1, j, v) {
            let k = choose|k: int| 0 <= k < j && o1[k] as int == v;
            assert(o0[k] == o1[k]);
        }
        if listed_before(o0, j, v) {
            let k = choose|k: int| 0 <= k < j && o0[k] as int == v;
            assert(o0[k] == o1[k]);
        }
    }
    assert forall|q: int| 0 <= q < j implies #[trigger] open_at(g, o1, j, q) == open_at(g, o0, j, q) by {
        assert(o1[q] == o0[q]);
        if open_at(g, o0, j, q) {
            let v = choose|v: int| #[trigger] g.arc(o0[q] as int, v) && !listed_before(o0, j, v);
            assert(listed_before(o1, j, v) == listed_before(o0, j, v));
        }
        if open_at(g, o1, j, q) {
            let v = choose|v: int| #[trigger] g.arc(o1[q] as int, v) && !listed_before(o1, j, v);
            assert(listed_before(o1, j, v) == listed_before(o0, j, v));
        }
    }
    let p = choose|p: int|
        #![trigger dfs_parent(g, o0, j, p)]
        dfs_parent(g, o0, j, p) && least_new(g, o0, j, p, o0[j] as int) && pred0[o0[j] as int] == Some(o0[p]);
    assert(o1[j] == o0[j] && o1[p] == o0[p]);
    assert(open_at(g, o1, j, p));
    assert forall|q: int| p < q < j implies !#[trigger] open_at(g, o1, j, q) by {
        assert(!open_at(g, o0, j, q));
    }
    assert(dfs_parent(g, o1, j, p));
    assert(listed_before(o1, j, o1[j] as int) == listed_before(o0, j, o0[j] as int));
    assert forall|w: int| 0 <= w < o1[j] && #[trigger] g.arc(o1[p] as int, w) implies listed_before(o1, j, w) by {
        assert(listed_before(o0, j, w));
    }
    assert(least_new(g, o1, j, p, o1[j] as int));
    assert(o0[j] != u && (o0[j] as int) < pred0.len());
    assert(pred1[o1[j] as int] == pred0[o0[j] as int]);
}

/// The node popped from the top of the depth-first stack, when not yet
/// listed, has the depth-first parent recorded with it.
proof fn lemma_dfs_step_parent<N, W>(
    g: &Graph<N, W>,
    o0: Seq<usize>,
    pr0: Seq<Option<usize>>,
    st0: Seq<(usize, Option<usize>)>,
    sx0: Seq<int>,
    vis0: Seq<bool>,
    n0: nat,
    u: usize,
    pred: Option<usize>,
)
    requires
        forall|i: int, v: int| 0 <= i < o0.len() && #[trigger] g.arc(o0[i] as int, v) ==> 0 <= v < n0,
        n0 == g.n(),
        n0 <= usize::MAX,
        pr0.len() == n0,
        o0.len() >= 1,
        st0.len() >= 1,
        sx0.len() == st0.len(),
        (u, pred) == st0[st0.len() - 1],
        (u as int) < n0,
        vis0.len() == n0,
        !vis0[u as int],
        forall|v: int| 0 <= v < n0 ==> (#[trigger] vis0[v] <==> o0.contains(v as usize)),
        forall|j: int| 0 <= j < st0.len() ==> 0 <= #[trigger] sx0[j] < o0.len() && st0[j].1 == Some(o0[sx0[j]]),
        forall|j: int| 0 <= j < st0.len() ==> ((#[trigger] st0[j]).1 matches Some(p) ==> g.arc(p as int, st0[j].0 as int)),
        forall|j1: int, j2: int|
            0 <= j1 < j2 < st0.len() ==> #[trigger] sx0[j1] < #[trigger] sx0[j2] || (sx0[j1] == sx0[j2] && st0[j1].0
                >= st0[j2].0),
        forall|i: int, v: int|
            0 <= i < o0.len() && 0 <= v < n0 && #[trigger] g.arc(o0[i] as int, v) && !vis0[v] ==> exists|j: int|
                0 <= j < st0.len() && sx0[j] == i && st0[j].0 == v,
    ensures
        has_dfs_parent(g, o0.push(u), pr0.update(u as int, pred), o0.len() as int),
{
    let o1 = o0.push(u);
    let pr1 = pr0.update(u as int, pred);
    let l = o0.len() as int;
    let top = st0.len() - 1;
    let p = sx0[top];
    assert(0 <= sx0[top] < o0.len() && st0[top].1 == Some(o0[sx0[top]]));
    assert forall|v: int| 0 <= v < n0 implies (#[trigger] listed_before(o1, l, v) <==> vis0[v]) by {
        if listed_before(o1, l, v) {
            let k = choose|k: int| 0 <= k < l && o1[k] as int == v;
            assert(o0[k] == o1[k]);
            assert(o0.contains(v as usize));
        }
        if vis0[v] {
            assert(o0.contains(v as usize));
            let k = choose|k: int| 0 <= k < o0.len() && o0[k] == v as usize;
            assert(o1[k] == o0[k]);
        }
    }
    assert(o1[p] == o0[p]);
    assert(o1[l] == u);
    assert(g.arc(o0[p] as int, u as int));
    assert(!listed_before(o1, l, u as int));
    assert(open_at(g, o1, l, p));
    assert forall|q: int| p < q < l implies !#[trigger] open_at(g, o1, l, q) by {
        if open_at(g, o1, l, q) {
            let v = choose|v: int| #[trigger] g.arc(o1[q] as int, v) && !listed_before(o1, l, v);
            assert(o1[q] == o0[q]);
            assert(g.arc(o0[q] as int, v));
            assert(0 <= v < n0);
            assert(!vis0[v]);
            let j = choose|j: int| 0 <= j < st0.len() && sx0[j] == q && st0[j].0 == v;
            if j < top {
                assert(sx0[j] < sx0[top] || sx0[j] == sx0[top]);
            }
        }
    }
    assert(dfs_parent(g, o1, l, p));
    assert forall|w: int| 0 <= w < o1[l] && #[trigger] g.arc(o1[p] as int, w) implies listed_before(o1, l, w) by {
        assert(g.arc(o0[p] as int, w));
        assert(0 <= w < n0);
        if !vis0[w] {
            let j = choose|j: int| 0 <= j < st0.len() && sx0[j] == p && st0[j].0 == w;
            if j < top {
                assert(sx0[j] < sx0[top] || (sx0[j] == sx0[top] && st0[j].0 >= st0[top].0));
            }
        }
    }
    assert(least_new(g, o1, l, p, o1[l] as int));
    assert(pr1[o1[l] as int] == Some(o1[p]));
}

/// Depth-first traversal from `start`: an explicit stack of (node, parent)
/// pairs, with each node's neighbors pushed in reverse adjacency order so the
/// smallest is visited first.
pub fn dfs<N, W>(graph: &Graph<N, W>, start: usize) -> (r: Result<Traversal, GraphError>)
    requires
        start < graph.n() ==> arcs_in_range_from(graph, start),
    ensures
        r is Ok <==> start < graph.n(),
        r matches Err(e) ==> e == (GraphError::NodeOutOfRange { node: start, count: graph.n() as usize }),
        r matches Ok(t) ==> is_search(graph, start, t) && is_dfs_order(graph, t),
{
    check_start(graph, start)?;
    let n = graph.node_count();
    let mut visited = falses(n);
    let mut predecessor = nones(n);
    let mut order: Vec<usize> = Vec::new();
    let mut stack: Vec<(usize, Option<usize>)> = Vec::new();
    stack.push((start, None));
    let ghost mut sidx: Seq<int> = seq![0int];
    let ghost n0 = n as nat;
    proof {
        lemma_count_all_false(n0);
        assert forall|v: int| 0 <= v < n implies (#[trigger] visited@[v] <==> order@.contains(v as usize)) by {}
    }
    while stack.len() > 0
        invariant
            arcs_in_range_from(graph, start),
            forall|i: int| 0 <= i < order@.len() ==> reaches(graph, false, start as int, #[trigger] order@[i] as int),
            forall|j: int| 0 <= j < stack@.len() ==> reaches(graph, false, start as int, (#[trigger] stack@[j]).0 as int),
            n == graph.n(),
            n0 == n,
            start < n,
            visited@.len() == n,
            predecessor@.len() == n,
            order@.len() == count_true(visited@, n0),
            order@.len() == 0 ==> stack@ == seq![(start, None::<usize>)],
            order@.len() >= 1 ==> order@[0] == start,
            forall|i: int| 0 <= i < order@.len() ==> #[trigger] order@[i] < n,
            forall|i: int, j: int| 0 <= i < j < order@.len() ==> #[trigger] order@[i] != #[trigger] order@[j],
            forall|v: int| 0 <= v < n ==> (#[trigger] visited@[v] <==> order@.contains(v as usize)),
            forall|j: int| 0 <= j < stack@.len() ==> (#[trigger] stack@[j]).0 < n,
            forall|j: int| 0 <= j < stack@.len() ==> ((#[trigger] stack@[j]).1 matches Some(p) ==> order@.contains(p) && graph.arc(p as int, stack@[j].0 as int)),
            forall|j: int| 0 <= j < stack@.len() ==> ((#[trigger] stack@[j]).1 is None ==> stack@[j].0 == start),
            sidx.len() == stack@.len(),
            forall|j: int|
                0 <= j < stack@.len() && order@.len() >= 1 ==> 0 <= #[trigger] sidx[j] < order@.len() && stack@[j].1 == Some(
                    order@[sidx[j]],
                ),
            forall|j1: int, j2: int|
                0 <= j1 < j2 < stack@.len() ==> #[trigger] sidx[j1] < #[trigger] sidx[j2] || (sidx[j1] == sidx[j2]
                    && stack@[j1].0 >= stack@[j2].0),
            forall|i: int, v: int|
                0 <= i < order@.len() && 0 <= v < n && #[trigger] graph.arc(order@[i] as int, v) && !visited@[v] ==> exists|j: int|
                    0 <= j < stack@.len() && sidx[j] == i && stack@[j].0 == v,
            order@.len() >= 1 ==> predecessor@[start as int] is None,
            forall|v: int|
                0 <= v < n && v != start && order@.contains(v as usize) ==> (#[trigger] predecessor@[v] matches Some(w)
                    && precedes(order@, w, v as usize) && graph.arc(w as int, v)),
            forall|v: int| 0 <= v < n && !order@.contains(v as usize) ==> #[trigger] predecessor@[v] is None,
            forall|j: int| 1 <= j < order@.len() ==> #[trigger] has_dfs_parent(graph, order@, predecessor@, j),
        decreases n0 - order@.len(), stack@.len(),
    {
        proof {
            lemma_count_true_le(visited@, n0);
        }
        let ghost st0 = stack@;
        let ghost sx0 = sidx;
        let top = stack.pop();
        let (u, pred) = match top {
            Some(entry) => entry,
            None => {
                return Err(GraphError::NodeOutOfRange { node: start, count: n });
            },
        };
        proof {
            sidx = sidx.drop_last();
            assert(stack@ == st0.drop_last());
            assert((u, pred) == st0[st0.len() - 1]);
        }
        proof {
            assert(reaches(graph, false, start as int, st0[st0.len() - 1].0 as int));
            assert forall|j: int| 0 <= j < stack@.len() implies reaches(graph, false, start as int, (#[trigger] stack@[j]).0 as int) by {
                assert(stack@[j] == st0[j]);
            }
        }
        if visited[u] {
            proof {
                assert forall|i: int, v: int|
                    0 <= i < order@.len() && 0 <= v < n && #[trigger] graph.arc(order@[i] as int, v) && !visited@[v] implies exists|j: int|
                        0 <= j < stack@.len() && sidx[j] == i && stack@[j].0 == v by {
                    let j = choose|j: int| 0 <= j < st0.len() && sx0[j] == i && st0[j].0 == v;
                    assert(j != st0.len() - 1);
                    assert(stack@[j] == st0[j] && sidx[j] == sx0[j]);
                }
                assert forall|j1: int, j2: int|
                    0 <= j1 < j2 < stack@.len() implies #[trigger] sidx[j1] < #[trigger] sidx[j2] || (sidx[j1] == sidx[j2]
                        && stack@[j1].0 >= stack@[j2].0) by {
                    assert(stack@[j1] == st0[j1] && stack@[j2] == st0[j2]);
                    assert(sidx[j1] == sx0[j1] && sidx[j2] == sx0[j2]);
                }
                assert forall|j: int|
                    0 <= j < stack@.len() && order@.len() >= 1 implies 0 <= #[trigger] sidx[j] < order@.len() && stack@[j].1 == Some(
                        order@[sidx[j]],
                    ) by {
                    assert(stack@[j] == st0[j] && sidx[j] == sx0[j]);
                }
            }
            continue;
        }
        let ghost o0 = order@;
        let ghost vis0 = visited@;
        let ghost pr0 = predecessor@;
        let ghost ptop = sx0[sx0.len() - 1];
        proof {
            lemma_count_true_set(visited@, u as int, n0);
            assert(!o0.contains(u));
        }
        visited.set(u, true);
        predecessor.set(u, pred);
        order.push(u);
        proof {
            assert(order@[order@.len() - 1] == u);
            assert forall|i: int| 0 <= i < order@.len() implies reaches(graph, false, start as int, #[trigger] order@[i] as int) by {
                if i < o0.len() {
                    assert(order@[i] == o0[i]);
                }
            }
            assert forall|i: int, j: int| 0 <= i < j < order@.len() implies #[trigger] order@[i] != #[trigger] order@[j] by {
                if j == order@.len() - 1 {
                    assert(order@[i] == o0[i]);
                    assert(o0.contains(o0[i]));
                }
            }
            assert forall|x: int| 0 <= x < n implies (#[trigger] visited@[x] <==> order@.contains(x as usize)) by {
                if x != u {
                    if order@.contains(x as usize) {
                        let k = choose|k: int| 0 <= k < order@.len() && order@[k] == x as usize;
                        assert(k < o0.len());
                        assert(o0[k] == x as usize);
                    }
                    if o0.contains(x as usize) {
                        let k = choose|k: int| 0 <= k < o0.len() && o0[k] == x as usize;
                        assert(order@[k] == x as usize);
                    }
                }
            }
            if o0.len() == 0 {
                assert(u == start && pred is None);
                assert(order@[0] == start);
            } else {
                assert(order@[0] == o0[0]);
            }
            assert forall|x: int|
                0 <= x < n && x != start && order@.contains(x as usize) implies (#[trigger] predecessor@[x] matches Some(w)
                && precedes(order@, w, x as usize) && graph.arc(w as int, x)) by {
                if x == u {
                    assert(pred is Some);
                    let p = pred->0;
                    assert(o0.contains(p));
                    let k = choose|k: int| 0 <= k < o0.len() && o0[k] == p;
                    assert(order@[k] == p && order@[order@.len() - 1] == u);
                } else {
                    assert(o0.contains(x as usize)) by {
                        let k = choose|k: int| 0 <= k < order@.len() && order@[k] == x as usize;
                        assert(k < o0.len());
                        assert(o0[k] == x as usize);
                    }
                    let w = predecessor@[x]->0;
                    let (i, j) = choose|i: int, j: int| 0 <= i < j < o0.len() && o0[i] == w && o0[j] == x as usize;
                    assert(order@[i] == w && order@[j] == x as usize);
                }
            }
            assert forall|x: int| 0 <= x < n && !order@.contains(x as usize) implies #[trigger] predecessor@[x] is None by {
                if x != u {
                    if o0.contains(x as usize) {
                        let k = choose|k: int| 0 <= k < o0.len() && o0[k] == x as usize;
                        assert(order@[k] == x as usize);
                    }
                }
            }
            if o0.len() >= 1 {
                assert(u != start) by {
                    assert(o0[0] == start);
                    assert(vis0[start as int]);
                }
            }
            assert forall|k: int| 0 <= k < o0.len() implies #[trigger] o0[k] != u && (o0[k] as int) < pr0.len() by {
                assert(o0.contains(o0[k]));
            }
            assert forall|j: int| 1 <= j < order@.len() implies #[trigger] has_dfs_parent(graph, order@, predecessor@, j) by {
                if j < o0.len() {
                    lemma_dfs_parent_stable(graph, o0, pr0, u, pred, j);
                } else {
                    assert forall|i: int, v: int| 0 <= i < o0.len() && #[trigger] graph.arc(o0[i] as int, v) implies 0 <= v < n0 by {
                        assert(reaches(graph, false, start as int, o0[i] as int));
                    }
                    lemma_dfs_step_parent(graph, o0, pr0, st0, sx0, vis0, n0, u, pred);
                }
            }
        }
        let nb = match graph.neighbors(u) {
            Ok(nb) => nb,
            Err(e) => {
                return Err(e);
            },
        };
        let ghost st1 = stack@;
        let ghost sx1 = sidx;
        let ghost lu = o0.len() as int;
        proof {
            assert forall|s: int| 0 <= s < nb@.len() implies graph.arc(u as int, (#[trigger] nb@[s]).node as int) && nb@[s].node < n by {
                graph.lemma_neighbor_arc(u, nb@, s);
            }
            assert forall|j: int| 0 <= j < stack@.len() implies reaches(graph, false, start as int, (#[trigger] stack@[j]).0 as int) by {
                assert(stack@[j] == st0[j]);
            }
            assert forall|j: int| 0 <= j < stack@.len() implies ((#[trigger] stack@[j]).1 matches Some(p) ==> order@.contains(p) && graph.arc(p as int, stack@[j].0 as int)) by {
                assert(stack@[j] == st0[j]);
                if stack@[j].1 is Some {
                    let p = stack@[j].1->0;
                    let k = choose|k: int| 0 <= k < o0.len() && o0[k] == p;
                    assert(order@[k] == p);
                }
            }
            assert forall|j: int| 0 <= j < stack@.len() implies (#[trigger] stack@[j]).0 < n by {
                assert(stack@[j] == st0[j]);
            }
            assert forall|j: int| 0 <= j < stack@.len() implies ((#[trigger] stack@[j]).1 is None ==> stack@[j].0 == start) by {
                assert(stack@[j] == st0[j]);
            }
            assert forall|j: int| 0 <= j < stack@.len() implies 0 <= #[trigger] sidx[j] < lu && stack@[j].1 == Some(order@[sidx[j]]) by {
                assert(stack@[j] == st0[j] && sidx[j] == sx0[j]);
                assert(o0.len() >= 1);
                assert(order@[sx0[j]] == o0[sx0[j]]);
            }
        }
        let mut t: usize = nb.len();
        while t > 0
            invariant
                arcs_in_range_from(graph, start),
                reaches(graph, false, start as int, u as int),
                forall|j: int| 0 <= j < stack@.len() ==> reaches(graph, false, start as int, (#[trigger] stack@[j]).0 as int),
                forall|s: int| 0 <= s < nb@.len() ==> graph.arc(u as int, (#[trigger] nb@[s]).node as int) && nb@[s].node < n,
                n == graph.n(),
                u < n,
                visited@.len() == n,
                order@.len() >= 1,
                order@[order@.len() - 1] == u,
                lu == order@.len() - 1,
                crate::graph::neighbor_triples(nb@).to_multiset() == graph.incident(u).to_multiset(),
                forall|a: int, b: int| 0 <= a < b < nb@.len() ==> crate::graph::neighbor_le(#[trigger] nb@[a], #[trigger] nb@[b]),
                t <= nb@.len(),
                stack@.len() >= st1.len(),
                sidx.len() == stack@.len(),
                forall|j: int| 0 <= j < st1.len() ==> #[trigger] stack@[j] == st1[j],
                forall|j: int| 0 <= j < st1.len() ==> #[trigger] sidx[j] == sx1[j],
                forall|j: int| st1.len() <= j < stack@.len() ==> #[trigger] sidx[j] == lu,
                forall|j: int| st1.len() <= j < stack@.len() ==> (#[trigger] stack@[j]).1 == Some(u),
                forall|j1: int, j2: int|
                    st1.len() <= j1 < j2 < stack@.len() ==> (#[trigger] stack@[j1]).0 >= (#[trigger] stack@[j2]).0,
                forall|j: int, s: int| st1.len() <= j < stack@.len() && 0 <= s < t ==> (#[trigger] stack@[j]).0 >= (#[trigger] nb@[s]).node,
                forall|j: int| 0 <= j < stack@.len() ==> (#[trigger] stack@[j]).0 < n,
                forall|j: int| 0 <= j < stack@.len() ==> ((#[trigger] stack@[j]).1 matches Some(p) ==> order@.contains(p) && graph.arc(p as int, stack@[j].0 as int)),
                forall|j: int| 0 <= j < stack@.len() ==> ((#[trigger] stack@[j]).1 is None ==> stack@[j].0 == start),
                forall|s: int| t <= s < nb@.len() ==> (visited@[(#[trigger] nb@[s]).node as int] || exists|j: int| st1.len() <= j < stack@.len() && stack@[j].0 == nb@[s].node),
            decreases t,
        {
            t -= 1;
            let v = nb[t].node;
            proof {
                assert(graph.arc(u as int, nb@[t as int].node as int) && nb@[t as int].node < n);
            }
            let ghost st2 = stack@;
            let ghost sx2 = sidx;
            if !visited[v] {
                stack.push((v, Some(u)));
                proof {
                    lemma_arc_reaches(graph, u as int, v as int);
                    lemma_reaches_trans(graph, false, start as int, u as int, v as int);
                    assert forall|j: int| 0 <= j < stack@.len() implies reaches(graph, false, start as int, (#[trigger] stack@[j]).0 as int) by {
                        if j < st2.len() {
                            assert(stack@[j] == st2[j]);
                        }
                    }
                    sidx = sidx.push(lu);
                    assert(order@.contains(u)) by {
                        assert(order@[order@.len() - 1] == u);
                    }
                    assert(stack@[stack@.len() - 1].0 == v);
                    assert forall|s: int| t <= s < nb@.len() implies (visited@[(#[trigger] nb@[s]).node as int] || exists|j: int| st1.len() <= j < stack@.len() && stack@[j].0 == nb@[s].node) by {
                        if s > t && !visited@[nb@[s].node as int] {
                            let j = choose|j: int| st1.len() <= j < st2.len() && st2[j].0 == nb@[s].node;
                            assert(stack@[j] == st2[j]);
                        }
                    }
                    assert forall|j: int| 0 <= j < st1.len() implies #[trigger] sidx[j] == sx1[j] by {
                        assert(sidx[j] == sx2[j]);
                    }
                    assert forall|j: int| st1.len() <= j < stack@.len() implies #[trigger] sidx[j] == lu && stack@[j].1 == Some(u) by {
                        if j < st2.len() {
                            assert(sidx[j] == sx2[j] && stack@[j] == st2[j]);
                        }
                    }
                    assert forall|j1: int, j2: int|
                        st1.len() <= j1 < j2 < stack@.len() implies (#[trigger] stack@[j1]).0 >= (#[trigger] stack@[j2]).0 by {
                        assert(stack@[j1] == st2[j1]);
                        if j2 < st2.len() {
                            assert(stack@[j2] == st2[j2]);
                        } else {
                            assert(st2[j1].0 >= nb@[t as int].node);
                        }
                    }
                    assert forall|j: int, s: int| st1.len() <= j < stack@.len() && 0 <= s < t implies (#[trigger] stack@[j]).0 >= (#[trigger] nb@[s]).node by {
                        assert(crate::graph::neighbor_le(nb@[s], nb@[t as int]));
                        if j < st2.len() {
                            assert(stack@[j] == st2[j]);
                            assert(st2[j].0 >= nb@[t as int].node);
                        }
                    }
                }
            } else {
                proof {
                    assert forall|j: int, s: int| st1.len() <= j < stack@.len() && 0 <= s < t implies (#[trigger] stack@[j]).0 >= (#[trigger] nb@[s]).node by {
                        assert(crate::graph::neighbor_le(nb@[s], nb@[t as int]));
                        assert(stack@[j].0 >= nb@[t as int].node);
                    }
                }
            }
        }
        proof {
            assert forall|i: int, v: int|
                0 <= i < order@.len() && 0 <= v < n && #[trigger] graph.arc(order@[i] as int, v) && !visited@[v] implies exists|j: int|
                    0 <= j < stack@.len() && sidx[j] == i && stack@[j].0 == v by {
                if i == order@.len() - 1 {
                    graph.lemma_arc_is_neighbor(u, nb@, v as usize);
                    let s = choose|s: int| 0 <= s < nb@.len() && (#[trigger] nb@[s]).node == v as usize;
                    assert(visited@[nb@[s].node as int] || exists|j: int| st1.len() <= j < stack@.len() && stack@[j].0 == nb@[s].node);
                    let j = choose|j: int| st1.len() <= j < stack@.len() && stack@[j].0 == nb@[s].node;
                    assert(sidx[j] == lu);
                } else {
                    assert(order@[i] == o0[i]);
                    assert(!vis0[v]);
                    let j = choose|j: int| 0 <= j < st0.len() && sx0[j] == i && st0[j].0 == v;
                    if j == st0.len() - 1 {
                        assert(v == u as int);
                    } else {
                        assert(st1[j] == st0[j]);
                        assert(stack@[j] == st1[j]);
                        assert(sidx[j] == sx1[j]);
                    }
                }
            }
            assert forall|j1: int, j2: int|
                0 <= j1 < j2 < stack@.len() implies #[trigger] sidx[j1] < #[trigger] sidx[j2] || (sidx[j1] == sidx[j2]
                    && stack@[j1].0 >= stack@[j2].0) by {
                if j2 < st1.len() {
                    assert(stack@[j1] == st0[j1] && stack@[j2] == st0[j2]);
                    assert(sidx[j1] == sx0[j1] && sidx[j2] == sx0[j2]);
                } else if j1 < st1.len() {
                    assert(sidx[j1] == sx1[j1]);
                    assert(0 <= sx1[j1] < lu);
                }
            }
            assert forall|j: int|
                0 <= j < stack@.len() && order@.len() >= 1 implies 0 <= #[trigger] sidx[j] < order@.len() && stack@[j].1 == Some(
                    order@[sidx[j]],
                ) by {
                if j < st1.len() {
                    assert(stack@[j] == st1[j] && sidx[j] == sx1[j]);
                    assert(0 <= sx1[j] < lu);
                }
            }
            lemma_count_true_le(visited@, n0);
        }
    }
    proof {
        assert forall|i: int, v: int|
            0 <= i < order@.len() && 0 <= v < n && #[trigger] graph.arc(order@[i] as int, v) implies order@.contains(v as usize) by {
            if !visited@[v] {
                let j = choose|j: int| 0 <= j < stack@.len() && sidx[j] == i && stack@[j].0 == v;
            }
        }
    }
    Ok(Traversal { order, predecessor })
}

pub(crate) proof fn lemma_count_all_false(m: nat)
    ensures
        count_true(Seq::new(m, |i: int| false), m) == 0,
    decreases m,
{
    if m > 0 {
        let s = Seq::new(m, |i: int| false);
        lemma_count_prefix_false(s, (m - 1) as nat);
    }
}

proof fn lemma_count_prefix_false(s: Seq<bool>, m: nat)
    requires
        m <= s.len(),
        forall|i: int| 0 <= i < s.len() ==> !#[trigger] s[i],
    ensures
        count_true(s, m) == 0,
    decreases m,
{
    if m > 0 {
        lemma_count_prefix_false(s, (m - 1) as nat);
    }
}

} // verus!
