//! Deterministic cookbook builder for the tiny-graph recipe.

use crate::error::GraphError;
use crate::graph::{Directedness, Graph};
use crate::connectivity::{closed, reaches};
use crate::mst::{closed_under_key_smaller, key_before, key_necessary, ascending_edges, disconnected, is_tree_shape, kruskals_mst, running_sum_escapes, weight_sum};
use crate::traversal::{bfs, first_parent, is_bfs_order, is_search};
use vstd::prelude::*;

verus! {

/// Report produced by the tiny graph cookbook recipe.
#[derive(Clone, Debug, PartialEq, Eq)]
pub struct TinyGraphDemo {
    /// Number of nodes.
    pub node_count: usize,
    /// Number of edges.
    pub edge_count: usize,
    /// Breadth-first order from node 0.
    pub bfs_order: Vec<usize>,
    /// Edge ids of the minimum spanning tree.
    pub mst_edge_ids: Vec<usize>,
    /// Total weight of the minimum spanning tree.
    pub mst_total_weight: i64,
}

/// The undirected triangle `0 -1- 1 -2- 2`, `0 -5- 2`: its breadth-first
/// order from 0 and its Kruskal spanning tree.
pub fn tiny_graph_demo() -> (r: Result<TinyGraphDemo, GraphError>)
    ensures
        r matches Ok(d) && d.node_count == 3 && d.edge_count == 3 && d.bfs_order@ == seq![0usize, 1, 2]
            && d.mst_edge_ids@ == seq![0usize, 1] && d.mst_total_weight == 3,
{
    let mut labels: Vec<usize> = Vec::new();
    labels.push(0);
    labels.push(1);
    labels.push(2);
    let mut graph: Graph<usize, i64> = Graph::with_nodes(labels, Directedness::Undirected);
    graph.add_edge(0, 1, 1i64)?;
    graph.add_edge(1, 2, 2i64)?;
    graph.add_edge(0, 2, 5i64)?;
    proof {
        assert(graph.edge_ok(0) && graph.edge_ok(1) && graph.edge_ok(2));
        assert(graph.valid());
        assert(graph.arc(0, 1)) by {
            assert(graph.edge_joins(0, 0, 1));
        }
        assert(graph.arc(0, 2)) by {
            assert(graph.edge_joins(2, 0, 2));
        }
    }
    let traversal = bfs(&graph, 0)?;
    proof {
        let o = traversal.order@;
        assert(o.contains(1usize) && o.contains(2usize));
        let i1 = choose|i: int| 0 <= i < o.len() && o[i] == 1usize;
        let i2 = choose|i: int| 0 <= i < o.len() && o[i] == 2usize;
        assert(o[0] == 0);
        assert(o.len() <= 3) by {
            lemma_distinct_below(o, 3);
        }
        assert(first_parent(&graph, o, o[1] as int, 0));
        assert(first_parent(&graph, o, o[2] as int, 0));
        assert(o[1] < o[2]);
        assert(o =~= seq![0usize, 1, 2]);
    }
    proof {
        lemma_triangle_connected(&graph);
        lemma_triangle_fits(&graph);
    }
    let mst = match kruskals_mst(&graph) {
        Ok(t) => t,
        Err(e) => {
            return Err(e);
        },
    };
    proof {
        assert(is_tree_shape(&graph, mst));
        let ids = mst.edges@;
        assert(ids.drop_last().drop_last() =~= Seq::<usize>::empty());
        assert(weight_sum(&graph, Seq::<usize>::empty()) == 0);
        assert(ids.drop_last().last() == ids[0]);
        assert(weight_sum(&graph, ids.drop_last()) == graph.edges@[ids[0] as int].weight);
        assert(weight_sum(&graph, ids) == graph.edges@[ids[0] as int].weight + graph.edges@[ids[1] as int].weight);
        assert(graph.edges@[0].weight == 1 && graph.edges@[1].weight == 2 && graph.edges@[2].weight == 5);
        assert(key_before(&graph, 0, 2) && key_before(&graph, 1, 2));
        assert forall|st: Set<int>| #[trigger] closed_under_key_smaller(&graph, 2, st) implies (st.contains(0) ==> st.contains(2)) by {
            assert(key_before(&graph, 0, 2));
            assert(key_before(&graph, 1, 2));
        }
        assert(!key_necessary(&graph, 2));
        assert(!ids.contains(2usize));
        assert(ids[0] != 2usize) by {
            assert(ids.contains(ids[0]));
        }
        assert(ids[1] != 2usize) by {
            assert(ids.contains(ids[1]));
        }
        assert(ids =~= seq![0usize, 1]);
    }
    Ok(
        TinyGraphDemo {
            node_count: graph.node_count(),
            edge_count: graph.edge_count(),
            bfs_order: traversal.order,
            mst_edge_ids: mst.edges,
            mst_total_weight: mst.total_weight,
        },
    )
}

/// The demo triangle is connected: every pair of nodes is joined by an edge.
proof fn lemma_triangle_connected(g: &Graph<usize, i64>)
    requires
        g.n() == 3,
        g.undirected(),
        g.edges@.len() == 3,
        g.edges@[0].source == 0 && g.edges@[0].target == 1,
        g.edges@[1].source == 1 && g.edges@[1].target == 2,
        g.edges@[2].source == 0 && g.edges@[2].target == 2,
    ensures
        !disconnected(g),
{
    assert forall|u: int, v: int| 0 <= u < 3 && 0 <= v < 3 implies #[trigger] reaches(g, false, u, v) by {
        assert forall|s: Set<int>| s.contains(u) && #[trigger] closed(g, false, s) implies s.contains(v) by {
            assert(g.edge_joins(0, 0, 1) && g.edge_joins(0, 1, 0));
            assert(g.edge_joins(1, 1, 2) && g.edge_joins(1, 2, 1));
            assert(g.edge_joins(2, 0, 2) && g.edge_joins(2, 2, 0));
            assert(crate::connectivity::step(g, false, u, v) || u == v);
        }
    }
}

/// Two edges of the demo triangle, in any order, never overflow `i64`.
proof fn lemma_triangle_fits(g: &Graph<usize, i64>)
    requires
        g.n() == 3,
        g.edges@.len() == 3,
        g.edges@[0].weight == 1 && g.edges@[1].weight == 2 && g.edges@[2].weight == 5,
    ensures
        forall|ids: Seq<usize>| ids.len() == 2 && #[trigger] ascending_edges(g, ids) ==> !running_sum_escapes(g, ids),
{
    assert forall|ids: Seq<usize>| ids.len() == 2 && #[trigger] ascending_edges(g, ids) implies !running_sum_escapes(g, ids) by {
        let w0 = g.edges@[ids[0] as int].weight as int;
        let w1 = g.edges@[ids[1] as int].weight as int;
        assert(0 <= w0 <= 5 && 0 <= w1 <= 5);
        assert(ids.subrange(0, 1).drop_last() =~= Seq::<usize>::empty());
        assert(ids.subrange(0, 2).drop_last() =~= ids.subrange(0, 1));
        assert(weight_sum(g, Seq::<usize>::empty()) == 0);
        assert(ids.subrange(0, 1).last() == ids[0]);
        assert(ids.subrange(0, 2).last() == ids[1]);
        assert(weight_sum(g, ids.subrange(0, 1)) == w0);
        assert(weight_sum(g, ids.subrange(0, 2)) == w0 + w1);
        assert forall|k: int| 0 < k <= ids.len() implies (i64::MIN as int) <= #[trigger] weight_sum(g, ids.subrange(0, k))
            <= (i64::MAX as int) by {
            if k == 1 {
            } else {
                assert(k == 2);
            }
        }
    }
}

/// Distinct entries below `n` number at most `n`.
proof fn lemma_distinct_below(s: Seq<usize>, n: nat)
    requires
        forall|i: int| 0 <= i < s.len() ==> #[trigger] s[i] < n,
        forall|i: int, j: int| 0 <= i < j < s.len() ==> #[trigger] s[i] != #[trigger] s[j],
    ensures
        s.len() <= n,
    decreases n,
{
    if s.len() > 0 && n > 0 {
        let t = s.filter(|x: usize| x != (n - 1) as usize);
        let u = Seq::new(s.len(), |i: int| i);
        lemma_remove_top(s, n);
    } else if s.len() > 0 {
        assert(s[0] < 0);
    }
}

/// Drop the entry equal to `n - 1`, if any, and recurse.
proof fn lemma_remove_top(s: Seq<usize>, n: nat)
    requires
        n > 0,
        forall|i: int| 0 <= i < s.len() ==> #[trigger] s[i] < n,
        forall|i: int, j: int| 0 <= i < j < s.len() ==> #[trigger] s[i] != #[trigger] s[j],
    ensures
        s.len() <= n,
    decreases n, s.len(),
{
    let top = (n - 1) as usize;
    if s.contains(top) {
        let k = choose|k: int| 0 <= k < s.len() && s[k] == top;
        let r = s.remove(k);
        assert forall|i: int| 0 <= i < r.len() implies #[trigger] r[i] < (n - 1) as nat by {
            let i0 = if i < k { i } else { i + 1 };
            assert(r[i] == s[i0]);
            assert(s[i0] != s[k]);
        }
        assert forall|i: int, j: int| 0 <= i < j < r.len() implies #[trigger] r[i] != #[trigger] r[j] by {
            let i0 = if i < k { i } else { i + 1 };
            let j0 = if j < k { j } else { j + 1 };
            assert(r[i] == s[i0] && r[j] == s[j0]);
        }
        if n > 1 {
            lemma_remove_top(r, (n - 1) as nat);
        } else if r.len() > 0 {
            assert(r[0] < 0);
        }
    } else {
        assert forall|i: int| 0 <= i < s.len() implies #[trigger] s[i] < (n - 1) as nat by {
            assert(s[i] != top);
        }
        if n > 1 {
            lemma_remove_top(s, (n - 1) as nat);
        } else if s.len() > 0 {
            assert(s[0] < 0);
        }
    }
}

} // verus!
