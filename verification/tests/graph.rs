use sim_discrete::bridge::{
    graph_to_bool_adjacency, graph_to_incidence, graph_to_laplacian, graph_to_minplus_adjacency,
    graph_to_sparse_adjacency, minplus_adjacency_to_graph, MultiedgePolicy,
};
use sim_discrete::certificate::{
    verify_mst, verify_shortest_paths, MstCertificate, ShortestPathCertificate,
};
use sim_discrete::connectivity::{
    connected_components, strongly_connected_components, weakly_connected_components,
};
use sim_discrete::error::{algebra_error_text, graph_error_text, AlgebraError, GraphError};
use sim_discrete::graph::{Directedness, Edge, Graph};
use sim_discrete::graph_cards::graph_cards;
use sim_discrete::graph_demo::tiny_graph_demo;
use sim_discrete::mst::{kruskals_mst, prims_mst};
use sim_discrete::path::{all_pairs_shortest_paths, bellman_ford, dijkstra, reachability};
use sim_discrete::semiring::{BoolRing, IntRing, MinPlus, Semiring};
use sim_discrete::traversal::{bfs, dfs};
use sim_discrete::unionfind::UnionFind;

fn weighted_directed() -> Graph<usize, i64> {
    let mut g = Graph::with_nodes(vec![0, 1, 2], Directedness::Directed);
    g.add_edge(0, 1, 4).unwrap();
    g.add_edge(1, 2, 7).unwrap();
    g
}

#[test]
fn adjacency_round_trip_preserves_simple_graph() {
    let g = weighted_directed();
    let (m, _map) = graph_to_minplus_adjacency(&g, MultiedgePolicy::ErrorOnMultiedge).unwrap();
    let back = minplus_adjacency_to_graph(&m, Directedness::Directed).unwrap();
    let mut got: Vec<_> = back
        .edges
        .iter()
        .map(|e| (e.source, e.target, e.weight))
        .collect();
    got.sort_unstable();
    assert_eq!(got, vec![(0, 1, 4), (1, 2, 7)]);
    assert!(back.is_directed());
}

#[test]
fn directedness_is_preserved() {
    let mut g: Graph<usize, i64> = Graph::with_nodes(vec![0, 1], Directedness::Undirected);
    g.add_edge(0, 1, 5).unwrap();
    let (m, _) = graph_to_minplus_adjacency(&g, MultiedgePolicy::MinWeight).unwrap();
    assert_eq!(m.data[1], MinPlus::Fin(5));
    assert_eq!(m.data[2], MinPlus::Fin(5));
}

#[test]
fn multiedge_policies_differ() {
    let mut g: Graph<usize, i64> = Graph::with_nodes(vec![0, 1], Directedness::Directed);
    g.add_edge(0, 1, 3).unwrap();
    g.add_edge(0, 1, 10).unwrap();
    let cell = |p| graph_to_minplus_adjacency(&g, p).unwrap().0.data[1];
    assert_eq!(cell(MultiedgePolicy::MinWeight), MinPlus::Fin(3));
    assert_eq!(cell(MultiedgePolicy::SumWeight), MinPlus::Fin(13));
    assert_eq!(cell(MultiedgePolicy::KeepLast), MinPlus::Fin(10));
    assert_eq!(cell(MultiedgePolicy::CountEdges), MinPlus::Fin(2));
    assert!(graph_to_minplus_adjacency(&g, MultiedgePolicy::ErrorOnMultiedge).is_err());
}

#[test]
fn laplacian_rows_sum_to_zero() {
    let mut g: Graph<usize, i64> = Graph::with_nodes(vec![0, 1, 2], Directedness::Undirected);
    g.add_edge(0, 1, 1).unwrap();
    g.add_edge(1, 2, 1).unwrap();
    g.add_edge(0, 2, 1).unwrap();
    let l = graph_to_laplacian(&g).unwrap();
    for r in 0..3 {
        let sum: i64 = (0..3).map(|c| l.data[r * 3 + c].0).sum();
        assert_eq!(sum, 0, "row {r}");
    }
    assert_eq!(l.data[0].0, 2);
}

#[test]
fn incidence_columns_have_expected_signs() {
    let g = weighted_directed();
    let inc = graph_to_incidence(&g).unwrap();
    let col0: Vec<_> = inc.entries.iter().filter(|e| e.col == 0).collect();
    assert!(col0.iter().any(|e| e.row == 0 && e.value == IntRing(-1)));
    assert!(col0.iter().any(|e| e.row == 1 && e.value == IntRing(1)));
}

#[test]
fn graph_card_is_present_and_ascii() {
    let cards = graph_cards();
    assert_eq!(cards.len(), 1);
    assert_eq!(cards[0].key, "discrete/graph");
    assert!(cards[0].summary.is_ascii());
}

fn weighted() -> Graph<u8, i64> {
    let mut g = Graph::with_nodes(vec![0, 1, 2, 3], Directedness::Directed);
    g.add_edge(0, 1, 1).unwrap();
    g.add_edge(1, 2, 2).unwrap();
    g.add_edge(0, 2, 5).unwrap();
    g.add_edge(2, 3, 1).unwrap();
    g
}

#[test]
fn valid_shortest_path_cert_verifies() {
    let g = weighted();
    let (res, _) = bellman_ford(&g, 0).unwrap();
    let cert = ShortestPathCertificate {
        source: 0,
        predecessors: res.predecessors,
    };
    assert!(verify_shortest_paths(&g, &cert).is_ok());
}

#[test]
fn tampered_shortest_path_cert_rejected() {
    let g = weighted();
    let (res, _) = bellman_ford(&g, 0).unwrap();
    let mut preds = res.predecessors;
    preds[2] = Some(0);
    let cert = ShortestPathCertificate {
        source: 0,
        predecessors: preds,
    };
    assert!(verify_shortest_paths(&g, &cert).is_err());
}

#[test]
fn undirected_components_match_fixture() {
    let mut g: Graph<u8, u64> = Graph::with_nodes(vec![0, 1, 2, 3, 4, 5], Directedness::Undirected);
    g.add_edge(0, 1, 1).unwrap();
    g.add_edge(1, 2, 1).unwrap();
    g.add_edge(3, 4, 1).unwrap();
    let comps = connected_components(&g).unwrap();
    assert_eq!(comps, vec![vec![0, 1, 2], vec![3, 4], vec![5]]);
}

#[test]
fn scc_finds_directed_cycle() {
    let mut g: Graph<u8, u64> = Graph::with_nodes(vec![0, 1, 2, 3], Directedness::Directed);
    g.add_edge(0, 1, 1).unwrap();
    g.add_edge(1, 2, 1).unwrap();
    g.add_edge(2, 0, 1).unwrap();
    g.add_edge(2, 3, 1).unwrap();
    let comps = strongly_connected_components(&g).unwrap();
    assert_eq!(comps, vec![vec![0, 1, 2], vec![3]]);
}

#[test]
fn scc_of_dag_is_singletons() {
    let mut g: Graph<u8, u64> = Graph::with_nodes(vec![0, 1, 2], Directedness::Directed);
    g.add_edge(0, 1, 1).unwrap();
    g.add_edge(1, 2, 1).unwrap();
    let comps = strongly_connected_components(&g).unwrap();
    assert_eq!(comps, vec![vec![0], vec![1], vec![2]]);
}

#[test]
fn graph_demo_runs_bfs_and_mst() {
    let demo = tiny_graph_demo().expect("valid graph demo");
    assert_eq!(demo.node_count, 3);
    assert_eq!(demo.edge_count, 3);
    assert_eq!(demo.bfs_order, vec![0, 1, 2]);
    assert_eq!(demo.mst_edge_ids, vec![0, 1]);
    assert_eq!(demo.mst_total_weight, 3);
}

#[test]
fn empty_graph_is_valid() {
    let g: Graph<(), ()> = Graph::new(Directedness::Undirected);
    assert_eq!(g.node_count(), 0);
    assert_eq!(g.edge_count(), 0);
    assert!(g.validate().is_ok());
}

#[test]
fn add_edge_rejects_invalid_endpoint() {
    let mut g: Graph<&str, u64> = Graph::with_nodes(vec!["a", "b"], Directedness::Directed);
    let r = g.add_edge(0, 5, 1);
    assert!(matches!(r, Err(GraphError::InvalidEndpoint { node: 5, .. })));
}

#[test]
fn validate_rejects_sparse_edge_id() {
    let g = Graph {
        nodes: vec![0, 1],
        edges: vec![Edge {
            id: 2,
            source: 0,
            target: 1,
            weight: 7,
        }],
        directedness: Directedness::Directed,
    };
    assert!(matches!(
        g.validate(),
        Err(GraphError::InvalidEdgeId {
            index: 0,
            id: 2,
            len: 1,
        })
    ));
}

#[test]
fn validate_rejects_duplicate_edge_id() {
    let g = Graph {
        nodes: vec![0, 1, 2],
        edges: vec![
            Edge {
                id: 0,
                source: 0,
                target: 1,
                weight: 7,
            },
            Edge {
                id: 0,
                source: 1,
                target: 2,
                weight: 9,
            },
        ],
        directedness: Directedness::Directed,
    };
    assert!(matches!(
        g.validate(),
        Err(GraphError::InvalidEdgeId {
            index: 1,
            id: 0,
            len: 2,
        })
    ));
}

#[test]
fn self_loop_and_multiedge_preserved() {
    let mut g: Graph<u8, u64> = Graph::with_nodes(vec![0, 1], Directedness::Undirected);
    g.add_edge(0, 0, 1).unwrap();
    g.add_edge(0, 1, 2).unwrap();
    g.add_edge(0, 1, 3).unwrap();
    assert_eq!(g.edge_count(), 3);
    assert!(g.edges[0].is_self_loop());
}

#[test]
fn undirected_neighbors_expand_both_ways() {
    let mut g: Graph<u8, u64> = Graph::with_nodes(vec![0, 1, 2], Directedness::Undirected);
    g.add_edge(0, 1, 10).unwrap();
    g.add_edge(2, 1, 20).unwrap();
    let n1: Vec<usize> = g.neighbors(1).unwrap().iter().map(|a| a.node).collect();
    assert_eq!(n1, vec![0, 2]);
}

#[test]
fn directed_neighbors_are_outgoing_only() {
    let mut g: Graph<u8, u64> = Graph::with_nodes(vec![0, 1], Directedness::Directed);
    g.add_edge(0, 1, 1).unwrap();
    assert_eq!(g.neighbors(0).unwrap().len(), 1);
    assert_eq!(g.neighbors(1).unwrap().len(), 0);
}

#[test]
fn ring_basics() {
    assert_eq!(IntRing(3).add(&IntRing(-5)), IntRing(-2));
    assert_eq!(IntRing(4).mul(&IntRing(-2)), IntRing(-8));
    assert!(IntRing::zero().is_zero());
    assert_eq!(IntRing(7).star(), None);
}

fn triangle() -> Graph<u8, u64> {
    let mut g = Graph::with_nodes(vec![0, 1, 2], Directedness::Undirected);
    g.add_edge(0, 1, 1).unwrap();
    g.add_edge(1, 2, 2).unwrap();
    g.add_edge(0, 2, 3).unwrap();
    g
}

#[test]
fn triangle_mst_weight_and_edges() {
    let t = kruskals_mst(&triangle()).unwrap();
    assert_eq!(t.total_weight, 3);
    assert_eq!(t.edges, vec![0, 1]);
}

#[test]
fn prim_equals_kruskal_weight() {
    let g = triangle();
    assert_eq!(
        prims_mst(&g).unwrap().total_weight,
        kruskals_mst(&g).unwrap().total_weight
    );
}

#[test]
fn equal_weight_ties_are_deterministic() {
    let mut g: Graph<u8, u64> = Graph::with_nodes(vec![0, 1, 2, 3], Directedness::Undirected);
    g.add_edge(0, 1, 1).unwrap();
    g.add_edge(1, 2, 1).unwrap();
    g.add_edge(2, 3, 1).unwrap();
    g.add_edge(0, 3, 1).unwrap();
    g.add_edge(0, 2, 1).unwrap();
    assert_eq!(kruskals_mst(&g).unwrap().edges, vec![0, 3, 4]);
}

#[test]
fn disconnected_graph_fails() {
    let mut g: Graph<u8, u64> = Graph::with_nodes(vec![0, 1, 2, 3], Directedness::Undirected);
    g.add_edge(0, 1, 1).unwrap();
    assert_eq!(kruskals_mst(&g).unwrap_err(), GraphError::Disconnected);
}

#[test]
fn directed_graph_is_wrong_kind() {
    let mut g: Graph<u8, u64> = Graph::with_nodes(vec![0, 1], Directedness::Directed);
    g.add_edge(0, 1, 1).unwrap();
    assert!(matches!(kruskals_mst(&g), Err(GraphError::WrongGraphKind(_))));
}

#[test]
fn valid_certificate_verifies_tampered_rejected() {
    let g = triangle();
    let cert = kruskals_mst(&g).unwrap().certificate();
    assert!(verify_mst(&g, &cert).is_ok());

    let mut bad = cert.clone();
    bad.total_weight_repr = "99".to_string();
    assert!(verify_mst(&g, &bad).is_err());

    let suboptimal = MstCertificate {
        edge_ids: vec![1, 2],
        total_weight_repr: "5".to_string(),
    };
    assert!(verify_mst(&g, &suboptimal).is_err());
}

#[test]
fn dijkstra_row_equals_all_pairs_row() {
    let edges = [(0usize, 1usize, 1u64), (1, 2, 2), (0, 2, 5), (2, 3, 1)];
    let mut gu: Graph<u8, u64> = Graph::with_nodes(vec![0, 1, 2, 3], Directedness::Directed);
    let mut gi: Graph<u8, i64> = Graph::with_nodes(vec![0, 1, 2, 3], Directedness::Directed);
    for &(s, t, w) in &edges {
        gu.add_edge(s, t, w).unwrap();
        gi.add_edge(s, t, w as i64).unwrap();
    }
    let dj = dijkstra(&gu, 0).unwrap();
    let ap = all_pairs_shortest_paths(&gi).unwrap();
    for j in 0..4 {
        let from_closure = match ap.data[j] {
            MinPlus::Fin(d) => Some(d as u64),
            MinPlus::Inf => None,
        };
        assert_eq!(dj.distances[j], from_closure, "node {j}");
    }
}

#[test]
fn bellman_ford_handles_negative_edge_without_cycle() {
    let mut g: Graph<u8, i64> = Graph::with_nodes(vec![0, 1, 2], Directedness::Directed);
    g.add_edge(0, 1, 4).unwrap();
    g.add_edge(0, 2, 5).unwrap();
    g.add_edge(2, 1, -3).unwrap();
    let (res, neg) = bellman_ford(&g, 0).unwrap();
    assert!(!neg);
    assert_eq!(res.distances[1], Some(2));
}

#[test]
fn bellman_ford_detects_negative_cycle() {
    let mut g: Graph<u8, i64> = Graph::with_nodes(vec![0, 1], Directedness::Directed);
    g.add_edge(0, 1, 1).unwrap();
    g.add_edge(1, 0, -2).unwrap();
    let (_res, neg) = bellman_ford(&g, 0).unwrap();
    assert!(neg);
}

#[test]
fn near_max_weights_do_not_wrap_distance() {
    let mut gu: Graph<u8, u64> = Graph::with_nodes(vec![0, 1, 2], Directedness::Directed);
    gu.add_edge(0, 1, u64::MAX - 1).unwrap();
    gu.add_edge(1, 2, u64::MAX - 1).unwrap();
    let dj = dijkstra(&gu, 0).unwrap();
    assert_eq!(dj.distances[1], Some(u64::MAX - 1));
    assert_eq!(dj.distances[2], None);

    let mut gi: Graph<u8, i64> = Graph::with_nodes(vec![0, 1, 2], Directedness::Directed);
    gi.add_edge(0, 1, i64::MAX - 1).unwrap();
    gi.add_edge(1, 2, i64::MAX - 1).unwrap();
    assert!(matches!(bellman_ford(&gi, 0), Err(GraphError::WeightOverflow(_))));
}

#[test]
fn bellman_ford_rejects_negative_overflow() {
    let mut g: Graph<u8, i64> = Graph::with_nodes(vec![0, 1, 2], Directedness::Directed);
    g.add_edge(0, 1, i64::MIN + 1).unwrap();
    g.add_edge(1, 2, -2).unwrap();
    assert!(matches!(bellman_ford(&g, 0), Err(GraphError::WeightOverflow(_))));
}

#[test]
fn reachability_is_transitive() {
    let mut g: Graph<u8, u64> = Graph::with_nodes(vec![0, 1, 2], Directedness::Directed);
    g.add_edge(0, 1, 1).unwrap();
    g.add_edge(1, 2, 1).unwrap();
    let r = reachability(&g).unwrap();
    assert_eq!(r.data[2], BoolRing(true));
    assert_eq!(r.data[6], BoolRing(false));
}

fn diamond() -> Graph<u8, u64> {
    let mut g = Graph::with_nodes(vec![0, 1, 2, 3], Directedness::Undirected);
    g.add_edge(0, 1, 1).unwrap();
    g.add_edge(0, 2, 1).unwrap();
    g.add_edge(1, 3, 1).unwrap();
    g.add_edge(2, 3, 1).unwrap();
    g
}

#[test]
fn bfs_is_deterministic() {
    let t = bfs(&diamond(), 0).unwrap();
    assert_eq!(t.order, vec![0, 1, 2, 3]);
    assert_eq!(t.predecessor[3], Some(1));
}

#[test]
fn dfs_is_deterministic() {
    let t = dfs(&diamond(), 0).unwrap();
    assert_eq!(t.order, vec![0, 1, 3, 2]);
}

#[test]
fn bad_start_fails() {
    assert!(matches!(
        bfs(&diamond(), 9),
        Err(GraphError::NodeOutOfRange { node: 9, .. })
    ));
}

#[test]
fn union_reports_cycle() {
    let mut uf = UnionFind::new(3);
    assert!(uf.union(0, 1));
    assert!(uf.union(1, 2));
    assert!(!uf.union(0, 2));
    assert_eq!(uf.find(0), uf.find(2));
}

#[test]
fn readme_bfs_walks_a_directed_chain() {
    let mut g: Graph<(), ()> = Graph::with_nodes(vec![(), (), ()], Directedness::Directed);
    g.add_edge(0, 1, ()).unwrap();
    g.add_edge(1, 2, ()).unwrap();
    let t = bfs(&g, 0).unwrap();
    assert_eq!(t.order, vec![0, 1, 2]);
    assert_eq!(t.predecessor, vec![None, Some(0), Some(1)]);
}

#[test]
fn weak_components_ignore_direction() {
    let mut g: Graph<u8, u64> = Graph::with_nodes(vec![0, 1, 2, 3], Directedness::Directed);
    g.add_edge(1, 0, 1).unwrap();
    g.add_edge(2, 3, 1).unwrap();
    assert_eq!(
        weakly_connected_components(&g).unwrap(),
        vec![vec![0, 1], vec![2, 3]]
    );
}

#[test]
fn bool_adjacency_marks_edges_only() {
    let g = weighted_directed();
    let (m, map) = graph_to_bool_adjacency(&g).unwrap();
    assert_eq!(m.data[1], BoolRing(true));
    assert_eq!(m.data[5], BoolRing(true));
    assert_eq!(m.data[3], BoolRing(false));
    assert_eq!(map.node_to_row, vec![0, 1, 2]);
}

#[test]
fn sparse_adjacency_lists_finite_cells() {
    let g = weighted_directed();
    let (s, _) = graph_to_sparse_adjacency(&g, MultiedgePolicy::MinWeight).unwrap();
    assert_eq!(s.entries.len(), 2);
    assert_eq!((s.entries[0].row, s.entries[0].col), (0, 1));
    assert_eq!(s.entries[0].value, MinPlus::Fin(4));
}

#[test]
fn prim_rejects_disconnected_graph() {
    let mut g: Graph<u8, u64> = Graph::with_nodes(vec![0, 1, 2], Directedness::Undirected);
    g.add_edge(0, 1, 1).unwrap();
    assert_eq!(prims_mst(&g).unwrap_err(), GraphError::Disconnected);
}

#[test]
fn dijkstra_rejects_bad_source() {
    assert!(matches!(
        dijkstra(&triangle(), 7),
        Err(GraphError::NodeOutOfRange { node: 7, count: 3 })
    ));
}

fn square_with_diagonals() -> Graph<u8, u64> {
    let mut g = Graph::with_nodes(vec![0, 1, 2, 3], Directedness::Undirected);
    g.add_edge(0, 1, 4).unwrap();
    g.add_edge(1, 2, 1).unwrap();
    g.add_edge(2, 3, 5).unwrap();
    g.add_edge(3, 0, 2).unwrap();
    g.add_edge(0, 2, 3).unwrap();
    g.add_edge(1, 3, 6).unwrap();
    g
}

#[test]
fn mst_trees_keep_the_cycle_property() {
    let g = square_with_diagonals();
    let k = kruskals_mst(&g).unwrap();
    let p = prims_mst(&g).unwrap();
    // The lightest spanning tree: 1-2 (1), 3-0 (2), 0-2 (3).
    assert_eq!(k.edges, vec![1, 3, 4]);
    assert_eq!(k.total_weight, 6);
    assert_eq!(p.edges, vec![1, 3, 4]);
    assert_eq!(p.total_weight, 6);
    assert!(verify_mst(&g, &k.certificate()).is_ok());
    assert!(verify_mst(&g, &p.certificate()).is_ok());
}

#[test]
fn dfs_backs_up_to_the_latest_open_node() {
    // 0 -> {1, 4}, 1 -> {2, 3}: after the branch through 1 is exhausted the
    // walk resumes at 0 with its remaining neighbor 4.
    let mut g: Graph<u8, u64> = Graph::with_nodes(vec![0, 1, 2, 3, 4], Directedness::Directed);
    g.add_edge(0, 4, 1).unwrap();
    g.add_edge(0, 1, 1).unwrap();
    g.add_edge(1, 3, 1).unwrap();
    g.add_edge(1, 2, 1).unwrap();
    let t = dfs(&g, 0).unwrap();
    assert_eq!(t.order, vec![0, 1, 2, 3, 4]);
    assert_eq!(t.predecessor, vec![None, Some(0), Some(1), Some(1), Some(0)]);
    let b = bfs(&g, 0).unwrap();
    assert_eq!(b.order, vec![0, 1, 4, 2, 3]);
}

#[test]
fn dijkstra_distance_is_the_least_walk() {
    let mut g: Graph<u8, u64> = Graph::with_nodes(vec![0, 1, 2], Directedness::Directed);
    g.add_edge(0, 2, 10).unwrap();
    g.add_edge(0, 1, 3).unwrap();
    g.add_edge(1, 2, 4).unwrap();
    let r = dijkstra(&g, 0).unwrap();
    assert_eq!(r.distances, vec![Some(0), Some(3), Some(7)]);
    assert_eq!(r.predecessors, vec![None, Some(0), Some(1)]);
}

#[test]
fn bellman_ford_distance_is_the_least_walk() {
    let mut g: Graph<u8, i64> = Graph::with_nodes(vec![0, 1, 2], Directedness::Directed);
    g.add_edge(0, 2, 1).unwrap();
    g.add_edge(0, 1, 4).unwrap();
    g.add_edge(1, 2, -6).unwrap();
    let (r, neg) = bellman_ford(&g, 0).unwrap();
    assert!(!neg);
    assert_eq!(r.distances, vec![Some(0), Some(4), Some(-2)]);
}

#[test]
fn shortest_path_cert_through_a_heavier_walk_is_rejected() {
    let mut g: Graph<u8, i64> = Graph::with_nodes(vec![0, 1, 2], Directedness::Directed);
    g.add_edge(0, 2, 10).unwrap();
    g.add_edge(0, 1, 3).unwrap();
    g.add_edge(1, 2, 4).unwrap();
    let direct = ShortestPathCertificate { source: 0, predecessors: vec![None, Some(0), Some(0)] };
    assert!(verify_shortest_paths(&g, &direct).is_err());
    let through = ShortestPathCertificate { source: 0, predecessors: vec![None, Some(0), Some(1)] };
    assert!(verify_shortest_paths(&g, &through).is_ok());
}

#[test]
fn graph_error_text_matches_display_forms() {
    assert_eq!(
        graph_error_text(&GraphError::NodeOutOfRange { node: 9, count: 4 }),
        "node 9 out of range: node count 4"
    );
    assert_eq!(
        graph_error_text(&GraphError::InvalidEndpoint { edge: 2, node: 7, len: 3 }),
        "invalid endpoint on edge 2: node 7 >= node count 3"
    );
    assert_eq!(
        algebra_error_text(&AlgebraError::InvalidMatrix { rows: 2, cols: 3, expected: 6, actual: 5 }),
        "matrix invariant violation: 2x3 requires 6 entries, found 5"
    );
    assert_eq!(
        GraphError::from_algebra(AlgebraError::LimitExceeded("x".to_string())),
        GraphError::Unsupported("limit exceeded: x".to_string())
    );
}

#[test]
fn sparse_and_dense_adjacency_agree() {
    let mut g: Graph<usize, i64> = Graph::with_nodes(vec![0, 1, 2], Directedness::Directed);
    g.add_edge(0, 1, 4).unwrap();
    g.add_edge(0, 1, 2).unwrap();
    g.add_edge(2, 0, -3).unwrap();
    for policy in [MultiedgePolicy::MinWeight, MultiedgePolicy::SumWeight, MultiedgePolicy::KeepLast] {
        let (d, _) = graph_to_minplus_adjacency(&g, policy).unwrap();
        let (s, _) = graph_to_sparse_adjacency(&g, policy).unwrap();
        assert_eq!(s.to_dense().unwrap().data, d.data);
        assert_eq!(s.entries.len(), 2);
        assert!((s.entries[0].row, s.entries[0].col) < (s.entries[1].row, s.entries[1].col));
    }
    let (s, _) = graph_to_sparse_adjacency(&g, MultiedgePolicy::SumWeight).unwrap();
    assert_eq!(s.entries[0].value, MinPlus::Fin(6));
    assert!(graph_to_minplus_adjacency(&g, MultiedgePolicy::ErrorOnMultiedge).is_err());
    assert!(graph_to_sparse_adjacency(&g, MultiedgePolicy::ErrorOnMultiedge).is_err());
}

#[test]
fn spanning_trees_over_narrow_integer_weights() {
    let mut g: Graph<u8, u32> = Graph::with_nodes(vec![0, 1, 2], Directedness::Undirected);
    g.add_edge(0, 1, 1).unwrap();
    g.add_edge(1, 2, 2).unwrap();
    g.add_edge(0, 2, 5).unwrap();
    let k = kruskals_mst(&g).unwrap();
    assert_eq!(k.edges, vec![0, 1]);
    assert_eq!(k.total_weight, 3);
    assert_eq!(prims_mst(&g).unwrap().total_weight, 3);
    let mut h: Graph<u8, i8> = Graph::with_nodes(vec![0, 1, 2], Directedness::Undirected);
    h.add_edge(0, 1, -100).unwrap();
    h.add_edge(1, 2, -100).unwrap();
    assert!(matches!(kruskals_mst(&h), Err(GraphError::WeightOverflow(_))));
    let cert = MstCertificate { edge_ids: vec![0, 1], total_weight_repr: "3".to_string() };
    assert!(verify_mst(&g, &cert).is_ok());
}

#[test]
fn shortest_path_cert_with_escaping_chain_overflows() {
    let mut g: Graph<u8, i64> = Graph::with_nodes(vec![0, 1, 2], Directedness::Directed);
    g.add_edge(0, 1, i64::MAX).unwrap();
    g.add_edge(1, 2, i64::MAX).unwrap();
    let cert = ShortestPathCertificate { source: 0, predecessors: vec![None, Some(0), Some(1)] };
    assert!(matches!(verify_shortest_paths(&g, &cert), Err(GraphError::WeightOverflow(_))));
}

#[test]
fn mst_cert_whose_total_leaves_the_weight_type_overflows() {
    let mut g: Graph<u8, u8> = Graph::with_nodes(vec![0, 1, 2], Directedness::Undirected);
    g.add_edge(0, 1, 200).unwrap();
    g.add_edge(1, 2, 100).unwrap();
    let cert = MstCertificate { edge_ids: vec![0, 1], total_weight_repr: "300".to_string() };
    assert!(matches!(verify_mst(&g, &cert), Err(GraphError::WeightOverflow(_))));
    let short = MstCertificate { edge_ids: vec![0], total_weight_repr: "200".to_string() };
    assert!(matches!(verify_mst(&g, &short), Err(GraphError::CertificateInvalid(_))));
}

#[test]
fn kruskal_tree_is_no_heavier_than_any_spanning_tree() {
    let g = square_with_diagonals();
    let best = kruskals_mst(&g).unwrap().total_weight;
    let m = g.edges.len();
    let mut trees = 0;
    for a in 0..m {
        for b in (a + 1)..m {
            for c in (b + 1)..m {
                let mut comp: Vec<usize> = (0..4).collect();
                for &i in &[a, b, c] {
                    let (s, t) = (comp[g.edges[i].source], comp[g.edges[i].target]);
                    for x in comp.iter_mut() {
                        if *x == t {
                            *x = s;
                        }
                    }
                }
                if comp.iter().all(|&x| x == comp[0]) {
                    trees += 1;
                    let w = g.edges[a].weight + g.edges[b].weight + g.edges[c].weight;
                    assert!(best <= w);
                }
            }
        }
    }
    assert!(trees > 3);
}

#[test]
fn traversals_ignore_malformed_edges_they_never_reach() {
    let mut g: Graph<u8, ()> = Graph::with_nodes(vec![0, 1, 2, 3], Directedness::Directed);
    g.add_edge(0, 1, ()).unwrap();
    g.add_edge(2, 3, ()).unwrap();
    g.edges.push(Edge { id: 2, source: 3, target: 9, weight: () });
    let b = bfs(&g, 0).unwrap();
    assert_eq!(b.order, vec![0, 1]);
    let d = dfs(&g, 0).unwrap();
    assert_eq!(d.order, vec![0, 1]);
    assert_eq!(d.predecessor, vec![None, Some(0), None, None]);
}

#[test]
fn mst_cert_with_negative_total_renders_its_sign() {
    let mut g: Graph<u8, i64> = Graph::with_nodes(vec![0, 1, 2], Directedness::Undirected);
    g.add_edge(0, 1, -2).unwrap();
    g.add_edge(1, 2, -3).unwrap();
    g.add_edge(0, 2, 7).unwrap();
    let cert = MstCertificate { edge_ids: vec![0, 1], total_weight_repr: "-5".to_string() };
    assert!(verify_mst(&g, &cert).is_ok());
    let unsigned = MstCertificate { edge_ids: vec![0, 1], total_weight_repr: "5".to_string() };
    assert!(verify_mst(&g, &unsigned).is_err());
    let mut h: Graph<u8, i64> = Graph::with_nodes(vec![0, 1], Directedness::Undirected);
    h.add_edge(0, 1, i64::MIN).unwrap();
    let extreme = MstCertificate { edge_ids: vec![0], total_weight_repr: i64::MIN.to_string() };
    assert!(verify_mst(&h, &extreme).is_ok());
}

#[test]
fn bellman_ford_overflows_only_in_its_own_relaxations() {
    let mut g: Graph<u8, i64> = Graph::with_nodes(vec![0, 1], Directedness::Directed);
    g.add_edge(0, 1, i64::MAX).unwrap();
    g.add_edge(1, 0, 0).unwrap();
    let (res, neg) = bellman_ford(&g, 0).unwrap();
    assert_eq!(res.distances, vec![Some(0), Some(i64::MAX)]);
    assert!(!neg);
}

#[test]
fn spanning_trees_over_wide_integer_weights() {
    let big: u128 = 1 << 100;
    let mut g: Graph<u8, u128> = Graph::with_nodes(vec![0, 1, 2], Directedness::Undirected);
    g.add_edge(0, 1, big).unwrap();
    g.add_edge(1, 2, big + 1).unwrap();
    g.add_edge(0, 2, big + 2).unwrap();
    let k = kruskals_mst(&g).unwrap();
    assert_eq!(k.edges, vec![0, 1]);
    assert_eq!(k.total_weight, 2 * big + 1);
    let cert = MstCertificate { edge_ids: vec![0, 1], total_weight_repr: (2 * big + 1).to_string() };
    assert!(verify_mst(&g, &cert).is_ok());
    let mut h: Graph<u8, i128> = Graph::with_nodes(vec![0, 1], Directedness::Undirected);
    h.add_edge(0, 1, i128::MIN).unwrap();
    let cert = MstCertificate { edge_ids: vec![0], total_weight_repr: i128::MIN.to_string() };
    assert!(verify_mst(&h, &cert).is_ok());
}
