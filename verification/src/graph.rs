//! The weighted graph value type, its edge records, and its adjacency
//! expansion.
//!
//! Node identity is index-based: nodes are `0..node_count()`. Multiedges and
//! self-loops are representable. A graph is well formed when every edge's id
//! equals its index and both endpoints are in range.

use crate::error::GraphError;
use vstd::prelude::*;
use vstd::seq_lib::to_multiset_build;
use vstd::seq_lib::to_multiset_contains;
use vstd::seq_lib::to_multiset_insert;

verus! {

/// Whether edges are one-way arcs or two-way links.
#[derive(Debug, Clone, Copy, PartialEq, Eq, Structural)]
pub enum Directedness {
    /// Each edge is an arc from its source to its target.
    Directed,
    /// Each edge joins its endpoints both ways.
    Undirected,
}

/// One edge record: its id, endpoints, and weight.
#[derive(Debug, Clone, PartialEq, Eq)]
pub struct Edge<W> {
    /// Stable id; equal to the edge's index in a well-formed graph.
    pub id: usize,
    /// Source endpoint.
    pub source: usize,
    /// Target endpoint.
    pub target: usize,
    /// Edge weight.
    pub weight: W,
}

impl<W> Edge<W> {
    /// Whether the edge joins a node to itself.
    pub fn is_self_loop(&self) -> (r: bool)
        ensures
            r == (self.source == self.target),
    {
        self.source == self.target
    }

    /// The endpoint opposite `node`, if `node` is an endpoint (the target
    /// when `node` is the source).
    pub fn other(&self, node: usize) -> (r: Option<usize>)
        ensures
            r == (if self.source == node {
                Some(self.target)
            } else if self.target == node {
                Some(self.source)
            } else {
                None::<usize>
            }),
    {
        if self.source == node {
            Some(self.target)
        } else if self.target == node {
            Some(self.source)
        } else {
            None
        }
    }
}

/// A graph with node labels `N` and edge weights `W`.
#[derive(Debug, Clone, PartialEq)]
pub struct Graph<N, W> {
    /// Node labels; node `i` is `nodes[i]`.
    pub nodes: Vec<N>,
    /// Edge records.
    pub edges: Vec<Edge<W>>,
    /// Whether edges are arcs or links.
    pub directedness: Directedness,
}

/// One adjacency entry of a node: the edge, the node at its other end, and a
/// reference to the edge weight.
#[derive(Debug, Clone, Copy, PartialEq, Eq)]
pub struct Neighbor<'a, W> {
    /// Id of the edge reaching the neighbor.
    pub edge_id: usize,
    /// The neighbor node.
    pub node: usize,
    /// The edge weight.
    pub weight: &'a W,
}

/// The contents of an adjacency entry: neighbor node, edge id, weight.
pub open spec fn neighbor_triple<W>(a: Neighbor<W>) -> (usize, usize, W) {
    (a.node, a.edge_id, *a.weight)
}

/// The contents of a list of adjacency entries.
pub open spec fn neighbor_triples<W>(out: Seq<Neighbor<W>>) -> Seq<(usize, usize, W)> {
    out.map_values(|a: Neighbor<W>| neighbor_triple(a))
}

/// Adjacency order: by neighbor node, then by edge id.
pub open spec fn neighbor_le<W>(a: Neighbor<W>, b: Neighbor<W>) -> bool {
    a.node < b.node || (a.node == b.node && a.edge_id <= b.edge_id)
}

impl<N, W> Graph<N, W> {
    /// The number of nodes.
    pub open spec fn n(&self) -> nat {
        self.nodes@.len()
    }

    /// Whether edges are links both ways.
    pub open spec fn undirected(&self) -> bool {
        self.directedness == Directedness::Undirected
    }

    /// Edge `i` has id `i` and both endpoints in range.
    pub open spec fn edge_ok(&self, i: int) -> bool {
        &&& self.edges@[i].id == i
        &&& self.edges@[i].source < self.n()
        &&& self.edges@[i].target < self.n()
    }

    /// Every edge is well formed.
    pub open spec fn valid(&self) -> bool {
        forall|i: int| 0 <= i < self.edges@.len() ==> #[trigger] self.edge_ok(i)
    }

    /// The error `validate` reports for the first malformed edge `i`.
    pub open spec fn edge_error(&self, i: int) -> GraphError {
        let e = self.edges@[i];
        if e.id != i {
            GraphError::InvalidEdgeId { index: i as usize, id: e.id, len: self.edges@.len() as usize }
        } else if e.source >= self.n() {
            GraphError::InvalidEndpoint { edge: e.id, node: e.source, len: self.n() as usize }
        } else {
            GraphError::InvalidEndpoint { edge: e.id, node: e.target, len: self.n() as usize }
        }
    }

    /// `e` is what `validate` reports: the error for the first malformed edge.
    pub open spec fn reports(&self, e: GraphError) -> bool {
        exists|i: int|
            0 <= i < self.edges@.len() && (forall|j: int| 0 <= j < i ==> #[trigger] self.edge_ok(j))
                && !self.edge_ok(i) && e == self.edge_error(i)
    }

    /// Edge `i` leads from `u` to `v`: as an arc, or either way when undirected.
    pub open spec fn edge_joins(&self, i: int, u: int, v: int) -> bool {
        let e = self.edges@[i];
        (e.source == u && e.target == v) || (self.undirected() && e.source == v && e.target == u)
    }

    /// Some edge leads from `u` to `v`.
    pub open spec fn arc(&self, u: int, v: int) -> bool {
        exists|i: int| 0 <= i < self.edges@.len() && #[trigger] self.edge_joins(i, u, v)
    }

    /// Every edge endpoint is a node.
    pub open spec fn endpoints_in_range(&self) -> bool {
        forall|i: int|
            0 <= i < self.edges@.len() ==> #[trigger] self.edges@[i].source < self.n()
                && self.edges@[i].target < self.n()
    }

    /// The adjacency entries of `node` from the first `m` edges, in edge order.
    pub open spec fn incident_upto(&self, node: usize, m: nat) -> Seq<(usize, usize, W)>
        decreases m,
    {
        if m == 0 {
            Seq::empty()
        } else {
            let prev = self.incident_upto(node, (m - 1) as nat);
            let e = self.edges@[m - 1];
            if e.source == node {
                prev.push((e.target, e.id, e.weight))
            } else if self.undirected() && e.target == node {
                prev.push((e.source, e.id, e.weight))
            } else {
                prev
            }
        }
    }

    /// The adjacency entries of `node`, in edge order.
    pub open spec fn incident(&self, node: usize) -> Seq<(usize, usize, W)> {
        self.incident_upto(node, self.edges@.len())
    }

    /// An arc among the first `m` edges shows up in the adjacency of its tail.
    pub proof fn lemma_arc_incident(&self, u: usize, v: usize, i: int, m: nat)
        requires
            0 <= i < m <= self.edges@.len(),
            self.edge_joins(i, u as int, v as int),
        ensures
            exists|t: int| 0 <= t < self.incident_upto(u, m).len() && (#[trigger] self.incident_upto(u, m)[t]).0 == v,
        decreases m,
    {
        let prev = self.incident_upto(u, (m - 1) as nat);
        if i < m - 1 {
            self.lemma_arc_incident(u, v, i, (m - 1) as nat);
            let t = choose|t: int| 0 <= t < prev.len() && (#[trigger] prev[t]).0 == v;
            assert(self.incident_upto(u, m)[t] == prev[t]);
        } else {
            let last = self.incident_upto(u, m).len() - 1;
            assert(self.incident_upto(u, m)[last].0 == v);
        }
    }

    /// Each adjacency entry of `u` among the first `m` edges is an edge from
    /// `u` carrying the entry's id and weight.
    pub proof fn lemma_incident_edge(&self, u: usize, m: nat, t: int)
        requires
            m <= self.edges@.len(),
            0 <= t < self.incident_upto(u, m).len(),
        ensures
            exists|i: int|
                0 <= i < m && #[trigger] self.edge_joins(i, u as int, self.incident_upto(u, m)[t].0 as int)
                    && self.edges@[i].weight == self.incident_upto(u, m)[t].2 && self.edges@[i].id
                    == self.incident_upto(u, m)[t].1,
        decreases m,
    {
        let prev = self.incident_upto(u, (m - 1) as nat);
        if t < prev.len() {
            self.lemma_incident_edge(u, (m - 1) as nat, t);
            assert(self.incident_upto(u, m)[t] == prev[t]);
        } else {
            assert(self.edge_joins(m - 1, u as int, self.incident_upto(u, m)[t].0 as int));
        }
    }

    /// Edge `i` from `u` to `v` shows up in the adjacency of `u` with its weight.
    pub proof fn lemma_edge_incident(&self, u: usize, v: usize, i: int, m: nat)
        requires
            0 <= i < m <= self.edges@.len(),
            self.edge_joins(i, u as int, v as int),
        ensures
            exists|t: int|
                0 <= t < self.incident_upto(u, m).len() && (#[trigger] self.incident_upto(u, m)[t]).0 == v
                    && self.incident_upto(u, m)[t].2 == self.edges@[i].weight,
        decreases m,
    {
        let prev = self.incident_upto(u, (m - 1) as nat);
        if i < m - 1 {
            self.lemma_edge_incident(u, v, i, (m - 1) as nat);
            let t = choose|t: int| 0 <= t < prev.len() && (#[trigger] prev[t]).0 == v && prev[t].2 == self.edges@[i].weight;
            assert(self.incident_upto(u, m)[t] == prev[t]);
        } else {
            let last = self.incident_upto(u, m).len() - 1;
            assert(self.incident_upto(u, m)[last].0 == v);
        }
    }

    /// Each adjacency entry of `u` among the first `m` edges is an arc.
    pub proof fn lemma_incident_arc(&self, u: usize, m: nat, t: int)
        requires
            m <= self.edges@.len(),
            0 <= t < self.incident_upto(u, m).len(),
        ensures
            exists|i: int| 0 <= i < m && #[trigger] self.edge_joins(i, u as int, self.incident_upto(u, m)[t].0 as int),
        decreases m,
    {
        let prev = self.incident_upto(u, (m - 1) as nat);
        if t < prev.len() {
            self.lemma_incident_arc(u, (m - 1) as nat, t);
            assert(self.incident_upto(u, m)[t] == prev[t]);
        } else {
            assert(self.edge_joins(m - 1, u as int, self.incident_upto(u, m)[t].0 as int));
        }
    }

    /// Every adjacency entry listed for `u` is an arc from `u`.
    pub proof fn lemma_neighbor_arc(&self, u: usize, out: Seq<Neighbor<W>>, t: int)
        requires
            neighbor_triples(out).to_multiset() == self.incident(u).to_multiset(),
            0 <= t < out.len(),
        ensures
            self.arc(u as int, out[t].node as int),
    {
        let x = neighbor_triple(out[t]);
        assert(neighbor_triples(out)[t] == x);
        to_multiset_contains(neighbor_triples(out), x);
        to_multiset_contains(self.incident(u), x);
        let k = choose|k: int| 0 <= k < self.incident(u).len() && self.incident(u)[k] == x;
        self.lemma_incident_arc(u, self.edges@.len(), k);
    }

    /// Every arc from `u` is listed among `u`'s adjacency entries.
    pub proof fn lemma_arc_is_neighbor(&self, u: usize, out: Seq<Neighbor<W>>, v: usize)
        requires
            neighbor_triples(out).to_multiset() == self.incident(u).to_multiset(),
            self.arc(u as int, v as int),
        ensures
            exists|t: int| 0 <= t < out.len() && (#[trigger] out[t]).node == v,
    {
        let i = choose|i: int| 0 <= i < self.edges@.len() && #[trigger] self.edge_joins(i, u as int, v as int);
        self.lemma_arc_incident(u, v, i, self.edges@.len());
        let k = choose|k: int| 0 <= k < self.incident(u).len() && (#[trigger] self.incident(u)[k]).0 == v;
        let x = self.incident(u)[k];
        to_multiset_contains(self.incident(u), x);
        to_multiset_contains(neighbor_triples(out), x);
        let t = choose|t: int| 0 <= t < neighbor_triples(out).len() && neighbor_triples(out)[t] == x;
        assert(out[t].node == v);
    }

    /// An empty graph.
    pub fn new(directedness: Directedness) -> (r: Self)
        ensures
            r.nodes@.len() == 0,
            r.edges@.len() == 0,
            r.directedness == directedness,
    {
        Graph { nodes: Vec::new(), edges: Vec::new(), directedness }
    }

    /// A graph with the given node labels and no edges.
    pub fn with_nodes(nodes: Vec<N>, directedness: Directedness) -> (r: Self)
        ensures
            r.nodes@ == nodes@,
            r.edges@.len() == 0,
            r.directedness == directedness,
    {
        Graph { nodes, edges: Vec::new(), directedness }
    }

    /// The number of nodes.
    pub fn node_count(&self) -> (r: usize)
        ensures
            r == self.n(),
    {
        self.nodes.len()
    }

    /// The number of edges.
    pub fn edge_count(&self) -> (r: usize)
        ensures
            r == self.edges@.len(),
    {
        self.edges.len()
    }

    /// Whether the graph is directed.
    pub fn is_directed(&self) -> (r: bool)
        ensures
            r == !self.undirected(),
    {
        self.directedness == Directedness::Directed
    }

    /// Append a node and return its index.
    pub fn add_node(&mut self, label: N) -> (r: usize)
        ensures
            final(self).nodes@ == old(self).nodes@.push(label),
            final(self).edges@ == old(self).edges@,
            final(self).directedness == old(self).directedness,
            r == old(self).nodes@.len(),
    {
        self.nodes.push(label);
        self.nodes.len() - 1
    }

    /// Append an edge from `source` to `target` and return its id (its
    /// index); an endpoint out of range is rejected, the source checked first.
    pub fn add_edge(&mut self, source: usize, target: usize, weight: W) -> (r: Result<usize, GraphError>)
        ensures
            final(self).nodes@ == old(self).nodes@,
            final(self).directedness == old(self).directedness,
            source >= old(self).n() ==> r == Err::<usize, GraphError>(GraphError::InvalidEndpoint {
                edge: old(self).edges@.len() as usize,
                node: source,
                len: old(self).n() as usize,
            }) && final(self).edges@ == old(self).edges@,
            source < old(self).n() && target >= old(self).n() ==> r == Err::<usize, GraphError>(
                GraphError::InvalidEndpoint {
                    edge: old(self).edges@.len() as usize,
                    node: target,
                    len: old(self).n() as usize,
                },
            ) && final(self).edges@ == old(self).edges@,
            source < old(self).n() && target < old(self).n() ==> r == Ok::<usize, GraphError>(
                old(self).edges@.len() as usize,
            ) && final(self).edges@ == old(self).edges@.push(
                Edge { id: old(self).edges@.len() as usize, source, target, weight },
            ),
    {
        let n = self.nodes.len();
        let id = self.edges.len();
        if source >= n {
            return Err(GraphError::InvalidEndpoint { edge: id, node: source, len: n });
        }
        if target >= n {
            return Err(GraphError::InvalidEndpoint { edge: id, node: target, len: n });
        }
        self.edges.push(Edge { id, source, target, weight });
        Ok(id)
    }

    /// Check that every edge id equals its index and every endpoint is in
    /// range; the first malformed edge is reported.
    pub fn validate(&self) -> (r: Result<(), GraphError>)
        ensures
            r is Ok <==> self.valid(),
            r matches Err(e) ==> self.reports(e),
    {
        let n = self.nodes.len();
        let edge_count = self.edges.len();
        let mut index: usize = 0;
        while index < edge_count
            invariant
                n == self.n(),
                edge_count == self.edges@.len(),
                index <= edge_count,
                forall|j: int| 0 <= j < index ==> #[trigger] self.edge_ok(j),
            decreases edge_count - index,
        {
            let e = &self.edges[index];
            proof {
                assert(self.edges@[index as int] == *e);
            }
            if e.id != index {
                assert(!self.edge_ok(index as int));
                return Err(GraphError::InvalidEdgeId { index, id: e.id, len: edge_count });
            }
            if e.source >= n {
                assert(!self.edge_ok(index as int));
                return Err(GraphError::InvalidEndpoint { edge: e.id, node: e.source, len: n });
            }
            if e.target >= n {
                assert(!self.edge_ok(index as int));
                return Err(GraphError::InvalidEndpoint { edge: e.id, node: e.target, len: n });
            }
            index += 1;
        }
        Ok(())
    }

    /// The adjacency of `node`: for each edge leaving it (or touching it, when
    /// undirected) the edge id, the node at the other end, and the weight,
    /// ordered by neighbor node and then by edge id.
    pub fn neighbors(&self, node: usize) -> (r: Result<Vec<Neighbor<'_, W>>, GraphError>)
        ensures
            node >= self.n() ==> r == Err::<Vec<Neighbor<'_, W>>, GraphError>(
                GraphError::NodeOutOfRange { node, count: self.n() as usize },
            ),
            node < self.n() ==> (r matches Ok(out) && neighbor_triples(out@).to_multiset()
                == self.incident(node).to_multiset() && (forall|i: int, j: int|
                0 <= i < j < out@.len() ==> neighbor_le(#[trigger] out@[i], #[trigger] out@[j]))),
    {
        if node >= self.nodes.len() {
            return Err(GraphError::NodeOutOfRange { node, count: self.nodes.len() });
        }
        let directed = self.is_directed();
        let mut raw: Vec<Neighbor<'_, W>> = Vec::new();
        let mut i: usize = 0;
        while i < self.edges.len()
            invariant
                directed == !self.undirected(),
                i <= self.edges@.len(),
                raw@.map_values(|a: Neighbor<'_, W>| neighbor_triple(a)) == self.incident_upto(node, i as nat),
            decreases self.edges@.len() - i,
        {
            let e = &self.edges[i];
            let ghost before = raw@;
            if e.source == node {
                raw.push(Neighbor { edge_id: e.id, node: e.target, weight: &e.weight });
            } else if !directed && e.target == node {
                raw.push(Neighbor { edge_id: e.id, node: e.source, weight: &e.weight });
            }
            proof {
                assert(raw@.map_values(|a: Neighbor<'_, W>| neighbor_triple(a)) =~= self.incident_upto(node, (i + 1) as nat));
            }
            i += 1;
        }
        let mut out: Vec<Neighbor<'_, W>> = Vec::new();
        let mut t: usize = 0;
        proof {
            let f = |a: Neighbor<'_, W>| neighbor_triple(a);
            assert(out@.map_values(f) =~= Seq::empty());
            assert(raw@.subrange(0, 0).map_values(f) =~= Seq::empty());
        }
        while t < raw.len()
            invariant
                t <= raw@.len(),
                out@.map_values(|a: Neighbor<'_, W>| neighbor_triple(a)).to_multiset() == raw@.subrange(0, t as int).map_values(
                    |a: Neighbor<'_, W>| neighbor_triple(a),
                ).to_multiset(),
                forall|a: int, b: int| 0 <= a < b < out@.len() ==> neighbor_le(#[trigger] out@[a], #[trigger] out@[b]),
            decreases raw@.len() - t,
        {
            let x = Neighbor { edge_id: raw[t].edge_id, node: raw[t].node, weight: raw[t].weight };
            let mut pos: usize = out.len();
            while pos > 0 && !(out[pos - 1].node < x.node || (out[pos - 1].node == x.node && out[pos - 1].edge_id <= x.edge_id))
                invariant
                    pos <= out@.len(),
                    forall|a: int| pos <= a < out@.len() ==> !neighbor_le(#[trigger] out@[a], x),
                decreases pos,
            {
                pos -= 1;
            }
            let ghost before = out@;
            out.insert(pos, x);
            proof {
                let f = |a: Neighbor<'_, W>| neighbor_triple(a);
                assert(out@.map_values(f) =~= before.map_values(f).insert(pos as int, f(x)));
                to_multiset_insert(before.map_values(f), pos as int, f(x));
                assert(raw@.subrange(0, t + 1).map_values(f) =~= raw@.subrange(0, t as int).map_values(f).push(f(x)));
                to_multiset_build(raw@.subrange(0, t as int).map_values(f), f(x));
                assert forall|a: int, b: int| 0 <= a < b < out@.len() implies neighbor_le(#[trigger] out@[a], #[trigger] out@[b]) by {
                    if b < pos {
                        assert(out@[a] == before[a] && out@[b] == before[b]);
                    } else if b == pos {
                        if pos > 0 {
                            assert(neighbor_le(before[pos - 1], x));
                            assert(out@[a] == before[a]);
                            if a < pos - 1 {
                                assert(neighbor_le(before[a], before[pos - 1]));
                            }
                        }
                    } else if a < pos {
                        assert(out@[a] == before[a] && out@[b] == before[b - 1]);
                        if b - 1 > a {
                        }
                    } else if a == pos {
                        assert(out@[b] == before[b - 1]);
                        assert(!neighbor_le(before[b - 1], x));
                    } else {
                        assert(out@[a] == before[a - 1] && out@[b] == before[b - 1]);
                    }
                }
            }
            t += 1;
        }
        proof {
            assert(raw@.subrange(0, raw@.len() as int) =~= raw@);
        }
        Ok(out)
    }
}

} // verus!
