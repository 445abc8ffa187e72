//! Grade compilers: a rank grade (lower = simpler) synthesized from an
//! algebraic invariant of a graph.

use crate::certificate::{cycle_property, SpanningTree};
use crate::error::RankAdapterError;
use crate::graph::Graph;
use crate::matrix::closure_model;
use crate::mst_optimal::lightest_spanning;
use crate::mst::{ascending_edges, disconnected, is_tree_shape, key_necessary, kruskals_mst, running_sum_escapes, spans};
use crate::path::{bool_adjacency_upto, reachability};
use crate::semiring::BoolRing;
use crate::traversal::count_true;
use vstd::prelude::*;

verus! {

/// `grade/discrete/mst-weight`: an undirected weighted graph graded by the
/// total weight of the spanning tree that Kruskal's algorithm builds. Lower
/// weight means simpler. A disconnected graph has no grade.
pub fn mst_weight_grade<N>(graph: &Graph<N, u64>) -> (r: Result<u64, RankAdapterError>)
    ensures
        !(graph.valid() && graph.undirected()) ==> (r matches Err(e) && e is Invalid),
        graph.valid() && graph.undirected() && graph.n() <= 1 ==> (r matches Ok(w) && w == 0),
        match r {
            Ok(w) => exists|t: SpanningTree<u64>|
                #[trigger] is_tree_shape(graph, t) && spans(graph, t.edges@) && cycle_property(graph, t.edges@)
                    && t.total_weight == w && lightest_spanning(graph, t.edges@) && forall|x: int|
                    0 <= x < graph.edges@.len() ==> (t.edges@.contains(x as usize) <==> key_necessary(graph, x)),
            Err(e) => e is Invalid && (graph.valid() && graph.undirected() ==> (disconnected(graph) || exists|ids: Seq<usize>|
                ids.len() == graph.n() - 1 && ascending_edges(graph, ids) && #[trigger] spans(graph, ids)
                    && running_sum_escapes(graph, ids) && forall|x: int|
                    0 <= x < graph.edges@.len() ==> (ids.contains(x as usize) <==> key_necessary(graph, x)))),
        },
{
    match kruskals_mst(graph) {
        Ok(t) => {
            let w = t.total_weight;
            assert(is_tree_shape(graph, t) && spans(graph, t.edges@) && cycle_property(graph, t.edges@)
                && lightest_spanning(graph, t.edges@));
            assert(forall|x: int|
                0 <= x < graph.edges@.len() ==> (t.edges@.contains(x as usize) <==> key_necessary(graph, x))) by {
                assert forall|x: int| 0 <= x < graph.edges@.len() implies (t.edges@.contains(x as usize) <==> key_necessary(graph, x)) by {
                    assert(t.edges@.contains(x as usize) <==> key_necessary(graph, x));
                }
            }
            Ok(w)
        },
        Err(e) => Err(RankAdapterError::from_graph(e)),
    }
}

/// `grade/discrete/closure-rank`: a graph graded by the density of its
/// transitive closure, the number of `(i, j)` with `j` reachable from `i`
/// (every node reaches itself). Denser means a higher grade.
pub fn closure_density_grade<N, W>(graph: &Graph<N, W>) -> (r: Result<u64, RankAdapterError>)
    requires
        graph.n() * graph.n() <= usize::MAX,
    ensures
        !graph.valid() || graph.n() > 1024 ==> (r matches Err(e) && e is Invalid),
        graph.valid() && graph.n() <= 1024 ==> (closure_model::<BoolRing>(
            bool_adjacency_upto(graph, graph.edges@.len()),
            graph.n(),
        ) matches Some(c) && r matches Ok(v) && v == count_true(c, c.len())),
{
    let m = match reachability(graph) {
        Ok(m) => m,
        Err(e) => {
            return Err(RankAdapterError::from_graph(e));
        },
    };
    let ghost cells = m.cells();
    let mut count: u64 = 0;
    let len = m.data.len();
    let mut i: usize = 0;
    while i < len
        invariant
            cells == m.cells(),
            len == m.data@.len(),
            i <= len,
            count <= i,
            count == count_true(cells, i as nat),
        decreases m.data@.len() - i,
    {
        if m.data[i].0 {
            count += 1;
        }
        i += 1;
    }
    Ok(count)
}

} // verus!
