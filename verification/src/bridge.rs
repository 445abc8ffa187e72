//! Graph <-> matrix conversions: adjacency (boolean, min-plus, sparse),
//! incidence, and Laplacian, with explicit multiedge policies and a mapping
//! witness.

use crate::error::GraphError;
use crate::graph::{Directedness, Edge, Graph};
use crate::matrix::Matrix;
use crate::semiring::{BoolRing, IntRing, MinPlus, Semiring};
use crate::sparse::{
    merged,
    canonical_of, last_at, lemma_dense_sparse_round_trip, nonzero_cells, strictly_sorted, triples, SparseEntry,
    SparseMatrix,
};
use vstd::prelude::*;

verus! {

/// How parallel edges between one pair of nodes become one matrix cell.
#[derive(Debug, Clone, Copy, PartialEq, Eq, Structural)]
pub enum MultiedgePolicy {
    /// Reject a pair joined by more than one edge.
    ErrorOnMultiedge,
    /// Keep the weight of the lowest-id edge.
    KeepFirst,
    /// Keep the weight of the highest-id edge.
    KeepLast,
    /// Keep the smallest weight.
    MinWeight,
    /// Sum the weights.
    SumWeight,
    /// Count the edges.
    CountEdges,
}

/// The policy's stable label.
pub open spec fn policy_label(p: MultiedgePolicy) -> Seq<char> {
    match p {
        MultiedgePolicy::ErrorOnMultiedge => "error-on-multiedge"@,
        MultiedgePolicy::KeepFirst => "keep-first"@,
        MultiedgePolicy::KeepLast => "keep-last"@,
        MultiedgePolicy::MinWeight => "min-weight"@,
        MultiedgePolicy::SumWeight => "sum-weight"@,
        MultiedgePolicy::CountEdges => "count-edges"@,
    }
}

impl MultiedgePolicy {
    /// The policy's stable label.
    fn label(self) -> (r: &'static str)
        ensures
            r@ == policy_label(self),
    {
        match self {
            MultiedgePolicy::ErrorOnMultiedge => "error-on-multiedge",
            MultiedgePolicy::KeepFirst => "keep-first",
            MultiedgePolicy::KeepLast => "keep-last",
            MultiedgePolicy::MinWeight => "min-weight",
            MultiedgePolicy::SumWeight => "sum-weight",
            MultiedgePolicy::CountEdges => "count-edges",
        }
    }
}

/// The witness relating a graph to its matrix: node/row maps, the cell each
/// edge landed in, and the policy label.
#[derive(Debug, Clone, PartialEq, Eq)]
pub struct GraphMatrixMap {
    /// Row of each node.
    pub node_to_row: Vec<usize>,
    /// Node of each row.
    pub row_to_node: Vec<usize>,
    /// Cell `(row, col)` of each edge; `None` for self-loops.
    pub edge_to_entry: Vec<Option<(usize, usize)>>,
    /// The multiedge policy label.
    pub policy: String,
}

/// The identity node map with no edge placed yet.
fn identity_map(n: usize, edge_count: usize, policy: &str) -> (r: GraphMatrixMap)
    ensures
        r.node_to_row@ == Seq::new(n as nat, |i: int| i as usize),
        r.row_to_node@ == Seq::new(n as nat, |i: int| i as usize),
        r.edge_to_entry@ == Seq::new(edge_count as nat, |i: int| None::<(usize, usize)>),
        r.policy@ == policy@,
{
    let mut a: Vec<usize> = Vec::new();
    let mut b: Vec<usize> = Vec::new();
    let mut i: usize = 0;
    while i < n
        invariant
            i <= n,
            a@ == Seq::new(i as nat, |j: int| j as usize),
            b@ == Seq::new(i as nat, |j: int| j as usize),
        decreases n - i,
    {
        a.push(i);
        b.push(i);
        i += 1;
        assert(a@ =~= Seq::new(i as nat, |j: int| j as usize));
        assert(b@ =~= Seq::new(i as nat, |j: int| j as usize));
    }
    let mut e: Vec<Option<(usize, usize)>> = Vec::new();
    let mut k: usize = 0;
    while k < edge_count
        invariant
            k <= edge_count,
            e@ == Seq::new(k as nat, |j: int| None::<(usize, usize)>),
        decreases edge_count - k,
    {
        e.push(None);
        k += 1;
        assert(e@ =~= Seq::new(k as nat, |j: int| None::<(usize, usize)>));
    }
    GraphMatrixMap { node_to_row: a, row_to_node: b, edge_to_entry: e, policy: policy.to_string() }
}

/// The edge-to-cell map: each non-loop edge sits at `(source, target)`.
pub open spec fn edge_entries<N, W>(g: &Graph<N, W>) -> Seq<Option<(usize, usize)>> {
    Seq::new(
        g.edges@.len(),
        |i: int|
            if g.edges@[i].source == g.edges@[i].target {
                None
            } else {
                Some((g.edges@[i].source, g.edges@[i].target))
            },
    )
}

/// The identity map for `g` carrying `label`.
pub open spec fn map_ok<N, W>(g: &Graph<N, W>, map: GraphMatrixMap, label: Seq<char>) -> bool {
    &&& map.node_to_row@ == Seq::new(g.n(), |i: int| i as usize)
    &&& map.row_to_node@ == Seq::new(g.n(), |i: int| i as usize)
    &&& map.edge_to_entry@ == edge_entries(g)
    &&& map.policy@ == label
}

/// Fill the edge-to-cell map of a well-formed graph.
fn place_edges<N, W>(graph: &Graph<N, W>, map: &mut GraphMatrixMap)
    requires
        graph.valid(),
        old(map).edge_to_entry@.len() == graph.edges@.len(),
    ensures
        final(map).edge_to_entry@ == edge_entries(graph),
        final(map).node_to_row == old(map).node_to_row,
        final(map).row_to_node == old(map).row_to_node,
        final(map).policy == old(map).policy,
{
    let mut i: usize = 0;
    while i < graph.edges.len()
        invariant
            graph.valid(),
            i <= graph.edges@.len(),
            map.edge_to_entry@.len() == graph.edges@.len(),
            forall|j: int| 0 <= j < i ==> #[trigger] map.edge_to_entry@[j] == edge_entries(graph)[j],
            map.node_to_row == old(map).node_to_row,
            map.row_to_node == old(map).row_to_node,
            map.policy == old(map).policy,
        decreases graph.edges@.len() - i,
    {
        let e = &graph.edges[i];
        let entry = if e.is_self_loop() {
            None
        } else {
            Some((e.source, e.target))
        };
        map.edge_to_entry.set(i, entry);
        i += 1;
    }
    assert(map.edge_to_entry@ =~= edge_entries(graph));
}

/// A non-loop edge leads from `r` to `c`.
pub open spec fn bool_cell<N, W>(g: &Graph<N, W>, r: int, c: int) -> bool {
    exists|i: int| 0 <= i < g.edges@.len() && #[trigger] g.edge_joins(i, r, c) && g.edges@[i].source != g.edges@[i].target
}

proof fn lemma_cell_bound(n: nat, r: nat, c: nat)
    requires
        r < n,
        c < n,
    ensures
        r * n + c < n * n,
        ((r * n + c) as int) / (n as int) == r,
        ((r * n + c) as int) % (n as int) == c,
{
    assert(r * n + c < n * n) by (nonlinear_arith)
        requires
            r < n,
            c < n,
    ;
    vstd::arithmetic::div_mod::lemma_fundamental_div_mod_converse((r * n + c) as int, n as int, r as int, c as int);
}

/// The boolean adjacency: cell `(r, c)` is set when a non-loop edge leads
/// from `r` to `c` (either way when undirected). Self-loops are skipped.
pub fn graph_to_bool_adjacency<N, W>(graph: &Graph<N, W>) -> (r: Result<(Matrix<BoolRing>, GraphMatrixMap), GraphError>)
    requires
        graph.n() * graph.n() <= usize::MAX,
    ensures
        !graph.valid() ==> (r matches Err(e) && graph.reports(e)),
        graph.valid() ==> (r matches Ok((m, map)) && m.rows == graph.n() && m.cols == graph.n() && m.wf() && (forall|a: int, b: int|
            0 <= a < graph.n() && 0 <= b < graph.n() ==> #[trigger] m.entry(a, b) == bool_cell(graph, a, b)) && map_ok(
            graph,
            map,
            "boolean"@,
        )),
{
    graph.validate()?;
    let n = graph.node_count();
    let mut m = Matrix::filled(n, n, BoolRing(false));
    let undirected = !graph.is_directed();
    let mut i: usize = 0;
    proof {
        assert forall|a: int, b: int|
            0 <= a < n && 0 <= b < n implies (#[trigger] m.data@[a * n + b].0 <==> exists|j: int|
                0 <= j < 0 && #[trigger] graph.edge_joins(j, a, b) && graph.edges@[j].source != graph.edges@[j].target) by {
            lemma_cell_bound(n as nat, a as nat, b as nat);
            assert(m.data@[a * n + b]@ == false);
        }
    }
    while i < graph.edges.len()
        invariant
            graph.valid(),
            n == graph.n(),
            n * n <= usize::MAX,
            undirected == graph.undirected(),
            i <= graph.edges@.len(),
            m.rows == n,
            m.cols == n,
            m.wf(),
            forall|a: int, b: int|
                0 <= a < n && 0 <= b < n ==> (#[trigger] m.data@[a * n + b].0 <==> exists|j: int|
                    0 <= j < i && #[trigger] graph.edge_joins(j, a, b) && graph.edges@[j].source != graph.edges@[j].target),
        decreases graph.edges@.len() - i,
    {
        let e = &graph.edges[i];
        proof {
            assert(graph.edge_ok(i as int));
            lemma_cell_bound(n as nat, e.source as nat, e.target as nat);
            lemma_cell_bound(n as nat, e.target as nat, e.source as nat);
        }
        let ghost d0 = m.data@;
        if !e.is_self_loop() {
            m.data.set(e.source * n + e.target, BoolRing(true));
            if undirected {
                m.data.set(e.target * n + e.source, BoolRing(true));
            }
        }
        proof {
            assert forall|a: int, b: int|
                0 <= a < n && 0 <= b < n implies (#[trigger] m.data@[a * n + b].0 <==> exists|j: int|
                    0 <= j < i + 1 && #[trigger] graph.edge_joins(j, a, b) && graph.edges@[j].source != graph.edges@[j].target) by {
                lemma_cell_bound(n as nat, a as nat, b as nat);
                let k = a * n + b;
                let ks = e.source * n + e.target;
                let kt = e.target * n + e.source;
                if k != ks && k != kt {
                    assert(m.data@[k] == d0[k]);
                }
                if k == ks {
                    lemma_cell_bound(n as nat, e.source as nat, e.target as nat);
                    assert(a == e.source && b == e.target);
                }
                if k == kt {
                    lemma_cell_bound(n as nat, e.target as nat, e.source as nat);
                    assert(a == e.target && b == e.source);
                }
                if m.data@[k].0 && !d0[k].0 {
                    assert(graph.edge_joins(i as int, a, b));
                }
                if exists|j: int| 0 <= j < i + 1 && #[trigger] graph.edge_joins(j, a, b) && graph.edges@[j].source != graph.edges@[j].target {
                    let j = choose|j: int| 0 <= j < i + 1 && #[trigger] graph.edge_joins(j, a, b) && graph.edges@[j].source != graph.edges@[j].target;
                    if j < i {
                        assert(d0[k].0);
                    }
                }
            }
        }
        i += 1;
    }
    let mut map = identity_map(n, graph.edge_count(), "boolean");
    place_edges(graph, &mut map);
    proof {
        reveal_strlit("boolean");
    }
    Ok((m, map))
}

/// The cell key of an edge from `s` to `t`: the ordered pair when directed,
/// the sorted pair when undirected.
pub open spec fn canonical_key<N, W>(g: &Graph<N, W>, s: usize, t: usize) -> (usize, usize) {
    if g.undirected() && t < s {
        (t, s)
    } else {
        (s, t)
    }
}

/// The cell key of an edge from `s` to `t`.
fn canonical<N, W>(graph: &Graph<N, W>, s: usize, t: usize) -> (r: (usize, usize))
    ensures
        r == canonical_key(graph, s, t),
{
    if !graph.is_directed() && t < s {
        (t, s)
    } else {
        (s, t)
    }
}

/// The weights of the non-loop edges among the first `m` whose key is `key`,
/// in edge order.
pub open spec fn key_weights<N>(g: &Graph<N, i64>, key: (usize, usize), m: nat) -> Seq<i64>
    decreases m,
{
    if m == 0 {
        Seq::empty()
    } else {
        let prev = key_weights(g, key, (m - 1) as nat);
        let e = g.edges@[m - 1];
        if e.source != e.target && canonical_key(g, e.source, e.target) == key {
            prev.push(e.weight)
        } else {
            prev
        }
    }
}

/// The weights of the parallel edges behind cell `(r, c)`.
pub open spec fn group_weights<N>(g: &Graph<N, i64>, r: int, c: int) -> Seq<i64> {
    key_weights(g, canonical_key(g, r as usize, c as usize), g.edges@.len())
}

/// The smallest weight of a non-empty list.
pub open spec fn seq_min(ws: Seq<i64>) -> int
    decreases ws.len(),
{
    if ws.len() <= 1 {
        ws[0] as int
    } else {
        let p = seq_min(ws.drop_last());
        if p <= ws.last() {
            p
        } else {
            ws.last() as int
        }
    }
}

/// The sum of a list of weights.
pub open spec fn seq_total(ws: Seq<i64>) -> int
    decreases ws.len(),
{
    if ws.len() == 0 {
        0
    } else {
        seq_total(ws.drop_last()) + ws.last()
    }
}

/// The value a policy gives a non-empty group of parallel edge weights.
pub open spec fn policy_value(p: MultiedgePolicy, ws: Seq<i64>) -> int {
    match p {
        MultiedgePolicy::ErrorOnMultiedge => ws[0] as int,
        MultiedgePolicy::KeepFirst => ws[0] as int,
        MultiedgePolicy::KeepLast => ws.last() as int,
        MultiedgePolicy::MinWeight => seq_min(ws),
        MultiedgePolicy::SumWeight => seq_total(ws),
        MultiedgePolicy::CountEdges => ws.len() as int,
    }
}

/// The min-plus cell `(r, c)`: `Inf` without an edge, else the policy's
/// value of the parallel weights.
pub open spec fn minplus_cell<N>(g: &Graph<N, i64>, p: MultiedgePolicy, r: int, c: int) -> MinPlus {
    let ws = group_weights(g, r, c);
    if ws.len() == 0 {
        MinPlus::Inf
    } else {
        MinPlus::Fin(policy_value(p, ws) as i64)
    }
}

/// The min-plus adjacency in row-major order.
pub open spec fn minplus_cells<N>(g: &Graph<N, i64>, p: MultiedgePolicy) -> Seq<MinPlus> {
    Seq::new(g.n() * g.n(), |k: int| minplus_cell(g, p, k / (g.n() as int), k % (g.n() as int)))
}

/// Some pair of nodes is joined by more than one non-loop edge.
pub open spec fn has_multiedge<N>(g: &Graph<N, i64>) -> bool {
    exists|r: int, c: int| 0 <= r < g.n() && 0 <= c < g.n() && #[trigger] group_weights(g, r, c).len() >= 2
}

/// The min-plus adjacency can be built under `p`: no parallel edges where
/// the policy rejects them, and every sum fits where it adds them.
pub open spec fn adjacency_builds<N>(g: &Graph<N, i64>, p: MultiedgePolicy) -> bool {
    &&& !(p == MultiedgePolicy::ErrorOnMultiedge && has_multiedge(g))
    &&& p == MultiedgePolicy::SumWeight ==> sums_fit(g)
}

/// Every running sum of every group of parallel weights fits `i64`.
pub open spec fn sums_fit<N>(g: &Graph<N, i64>) -> bool {
    forall|r: int, c: int, k: int|
        0 <= r < g.n() && 0 <= c < g.n() && 0 <= k <= group_weights(g, r, c).len() ==> i64::MIN <= #[trigger] seq_total(
            group_weights(g, r, c).take(k),
        ) <= i64::MAX
}

proof fn lemma_key_weights_len<N>(g: &Graph<N, i64>, key: (usize, usize), m: nat)
    ensures
        key_weights(g, key, m).len() <= m,
    decreases m,
{
    if m > 0 {
        lemma_key_weights_len(g, key, (m - 1) as nat);
    }
}

/// The running state of cell `(a, b)` after `i` edges: the count of its group
/// and, when non-empty, its first, last and smallest weight, and (under
/// `SumWeight`) its total with every running sum inside `i64`.
pub open spec fn cell_ok<N>(
    g: &Graph<N, i64>,
    p: MultiedgePolicy,
    i: nat,
    cnt: Seq<usize>,
    first: Seq<i64>,
    last: Seq<i64>,
    minv: Seq<i64>,
    sum: Seq<i64>,
    a: int,
    b: int,
) -> bool {
    let k = a * g.n() + b;
    let ws = key_weights(g, (a as usize, b as usize), i);
    &&& cnt[k] == ws.len()
    &&& ws.len() > 0 ==> first[k] == ws[0] && last[k] == ws.last() && minv[k] == seq_min(ws)
    &&& p == MultiedgePolicy::SumWeight ==> sum[k] == seq_total(ws) && prefix_sums_fit(ws)
}

/// Every running sum of `ws` fits `i64`.
pub open spec fn prefix_sums_fit(ws: Seq<i64>) -> bool {
    forall|t: int| 0 <= t <= ws.len() ==> i64::MIN <= #[trigger] seq_total(ws.take(t)) <= i64::MAX
}

/// Per-cell running state over the first `i` edges.
pub open spec fn groups_state<N>(
    g: &Graph<N, i64>,
    p: MultiedgePolicy,
    i: nat,
    cnt: Seq<usize>,
    first: Seq<i64>,
    last: Seq<i64>,
    minv: Seq<i64>,
    sum: Seq<i64>,
) -> bool {
    let n = g.n();
    &&& cnt.len() == n * n
    &&& first.len() == n * n
    &&& last.len() == n * n
    &&& minv.len() == n * n
    &&& sum.len() == n * n
    &&& forall|a: int, b: int| 0 <= a < n && 0 <= b < n ==> #[trigger] cell_ok(g, p, i, cnt, first, last, minv, sum, a, b)
}

/// `n * n` copies of `v`.
fn filled_vec<T: Copy>(len: usize, v: T) -> (r: Vec<T>)
    ensures
        r@ == Seq::new(len as nat, |k: int| v),
{
    let mut out: Vec<T> = Vec::new();
    let mut i: usize = 0;
    while i < len
        invariant
            i <= len,
            out@ == Seq::new(i as nat, |k: int| v),
        decreases len - i,
    {
        out.push(v);
        i += 1;
        assert(out@ =~= Seq::new(i as nat, |k: int| v));
    }
    out
}

proof fn lemma_key_weights_prefix<N>(g: &Graph<N, i64>, key: (usize, usize), i: nat, m: nat)
    requires
        i <= m,
    ensures
        key_weights(g, key, i).len() <= key_weights(g, key, m).len(),
        key_weights(g, key, m).take(key_weights(g, key, i).len() as int) == key_weights(g, key, i),
    decreases m,
{
    if m > i {
        lemma_key_weights_prefix(g, key, i, (m - 1) as nat);
        let p = key_weights(g, key, (m - 1) as nat);
        let cur = key_weights(g, key, m);
        let len = key_weights(g, key, i).len() as int;
        assert(cur.take(len) =~= p.take(len));
    } else {
        assert(key_weights(g, key, m).take(key_weights(g, key, i).len() as int) =~= key_weights(g, key, i));
    }
}

/// No edge has a non-canonical key.
proof fn lemma_noncanonical_empty<N>(g: &Graph<N, i64>, a: usize, b: usize, m: nat)
    requires
        m <= g.edges@.len(),
    ensures
        key_weights(g, (a, b), m).len() > 0 ==> canonical_key(g, a, b) == (a, b),
    decreases m,
{
    if m > 0 {
        lemma_noncanonical_empty(g, a, b, (m - 1) as nat);
    }
}

proof fn lemma_split_cell(n: nat, k: int)
    requires
        0 <= k < n * n,
    ensures
        0 <= k / (n as int) < n,
        0 <= k % (n as int) < n,
        k == (k / (n as int)) * n + k % (n as int),
{
    assert(n > 0) by (nonlinear_arith)
        requires
            0 <= k < n * n,
    ;
    vstd::arithmetic::div_mod::lemma_fundamental_div_mod(k, n as int);
    vstd::arithmetic::div_mod::lemma_div_pos_is_pos(k, n as int);
    assert((n as int) * (k / (n as int)) == (k / (n as int)) * n) by (nonlinear_arith);
    vstd::arithmetic::div_mod::lemma_mod_bound(k, n as int);
    assert((k / (n as int)) < n) by (nonlinear_arith)
        requires
            k == (n as int) * (k / (n as int)) + k % (n as int),
            0 <= k % (n as int),
            k < n * n,
            n > 0,
    ;
}

/// The min-plus adjacency of a well-formed graph under `policy`.
fn minplus_matrix<N>(graph: &Graph<N, i64>, policy: MultiedgePolicy) -> (r: Result<Matrix<MinPlus>, GraphError>)
    requires
        graph.valid(),
        graph.n() * graph.n() <= usize::MAX,
        graph.edges@.len() <= i64::MAX,
    ensures
        match r {
            Ok(m) => !(policy == MultiedgePolicy::ErrorOnMultiedge && has_multiedge(graph)) && (policy
                == MultiedgePolicy::SumWeight ==> sums_fit(graph)) && m.rows == graph.n() && m.cols == graph.n() && m.wf()
                && m.cells() == minplus_cells(graph, policy),
            Err(e) => (policy == MultiedgePolicy::ErrorOnMultiedge && has_multiedge(graph) && e is Unsupported) || (policy
                == MultiedgePolicy::SumWeight && !sums_fit(graph) && e is WeightOverflow),
        },
{
    let n = graph.node_count();
    let nn = n * n;
    let mut cnt = filled_vec(nn, 0usize);
    let mut first = filled_vec(nn, 0i64);
    let mut last = filled_vec(nn, 0i64);
    let mut minv = filled_vec(nn, 0i64);
    let mut sum = filled_vec(nn, 0i64);
    let sum_policy = policy == MultiedgePolicy::SumWeight;
    proof {
        assert forall|a: int, b: int| 0 <= a < n && 0 <= b < n implies #[trigger] cell_ok(graph, policy, 0, cnt@, first@, last@, minv@, sum@, a, b) by {
            lemma_cell_bound(n as nat, a as nat, b as nat);
            let ws = key_weights(graph, (a as usize, b as usize), 0);
            assert forall|t: int| 0 <= t <= ws.len() implies i64::MIN <= #[trigger] seq_total(ws.take(t)) <= i64::MAX by {
                assert(ws.take(t) =~= Seq::<i64>::empty());
            }
        }
    }
    let mut i: usize = 0;
    while i < graph.edges.len()
        invariant
            graph.valid(),
            n == graph.n(),
            nn == n * n,
            n * n <= usize::MAX,
            graph.edges@.len() <= i64::MAX,
            sum_policy == (policy == MultiedgePolicy::SumWeight),
            i <= graph.edges@.len(),
            groups_state(graph, policy, i as nat, cnt@, first@, last@, minv@, sum@),
        decreases graph.edges@.len() - i,
    {
        let e = &graph.edges[i];
        proof {
            assert(graph.edge_ok(i as int));
        }
        if !e.is_self_loop() {
            let key = canonical(graph, e.source, e.target);
            proof {
                lemma_cell_bound(n as nat, key.0 as nat, key.1 as nat);
                lemma_key_weights_len(graph, key, i as nat);
            }
            let k = key.0 * n + key.1;
            let ghost c0 = cnt@;
            let ghost f0 = first@;
            let ghost l0 = last@;
            let ghost m0 = minv@;
            let ghost s0 = sum@;
            let ghost ws = key_weights(graph, key, i as nat);
            proof {
                assert(cell_ok(graph, policy, i as nat, cnt@, first@, last@, minv@, sum@, key.0 as int, key.1 as int));
            }
            let w = e.weight;
            let c = cnt[k];
            if sum_policy {
                let cur = sum[k];
                match cur.checked_add(w) {
                    Some(t) => {
                        sum.set(k, t);
                    },
                    None => {
                        proof {
                            let ws1 = key_weights(graph, key, (i + 1) as nat);
                            assert(ws1 =~= ws.push(w));
                            assert(ws1.drop_last() =~= ws);
                            lemma_key_weights_prefix(graph, key, (i + 1) as nat, graph.edges@.len() as nat);
                            assert(canonical_key(graph, key.0, key.1) == key);
                            let g = group_weights(graph, key.0 as int, key.1 as int);
                            assert(g.take(ws1.len() as int) == ws1);
                            assert(!(i64::MIN <= seq_total(g.take(ws1.len() as int)) <= i64::MAX));
                        }
                        return Err(GraphError::WeightOverflow("sum of parallel edge weights".to_string()));
                    },
                }
            }
            if c == 0 {
                first.set(k, w);
                minv.set(k, w);
            } else if w < minv[k] {
                minv.set(k, w);
            }
            last.set(k, w);
            cnt.set(k, c + 1);
            proof {
                assert forall|a: int, b: int| 0 <= a < n && 0 <= b < n implies #[trigger] cell_ok(graph, policy, (i + 1) as nat, cnt@, first@, last@, minv@, sum@, a, b) by {
                    assert(cell_ok(graph, policy, i as nat, c0, f0, l0, m0, s0, a, b));
                    lemma_cell_bound(n as nat, a as nat, b as nat);
                    let kk = a * n + b;
                    let ws_old = key_weights(graph, (a as usize, b as usize), i as nat);
                    let ws2 = key_weights(graph, (a as usize, b as usize), (i + 1) as nat);
                    if (a as usize, b as usize) == key {
                        assert(kk == k);
                        assert(ws2 =~= ws_old.push(w));
                        assert(ws2.drop_last() =~= ws_old);
                        if policy == MultiedgePolicy::SumWeight {
                            assert forall|t: int| 0 <= t <= ws2.len() implies i64::MIN <= #[trigger] seq_total(ws2.take(t)) <= i64::MAX by {
                                if t < ws2.len() {
                                    assert(ws2.take(t) =~= ws_old.take(t));
                                } else {
                                    assert(ws2.take(t) =~= ws2);
                                    assert(ws2.take(t).drop_last() =~= ws_old);
                                    assert(ws_old.take(ws_old.len() as int) =~= ws_old);
                                }
                            }
                        }
                    } else {
                        assert(kk != k) by {
                            if kk == k {
                                lemma_cell_bound(n as nat, key.0 as nat, key.1 as nat);
                            }
                        }
                        assert(ws2 == ws_old);
                    }
                }
            }
        } else {
            proof {
                assert forall|a: int, b: int| 0 <= a < n && 0 <= b < n implies #[trigger] cell_ok(graph, policy, (i + 1) as nat, cnt@, first@, last@, minv@, sum@, a, b) by {
                    assert(cell_ok(graph, policy, i as nat, cnt@, first@, last@, minv@, sum@, a, b));
                    assert(key_weights(graph, (a as usize, b as usize), (i + 1) as nat) == key_weights(graph, (a as usize, b as usize), i as nat));
                }
            }
        }
        proof {
            assert(cnt@.len() == n * n);
            assert(first@.len() == n * n);
            assert(last@.len() == n * n);
            assert(minv@.len() == n * n);
            assert(sum@.len() == n * n);
            assert(groups_state(graph, policy, (i + 1) as nat, cnt@, first@, last@, minv@, sum@));
        }
        i += 1;
    }
    proof {
        assert(i == graph.edges@.len());
    }
    if policy == MultiedgePolicy::ErrorOnMultiedge {
        let mut k: usize = 0;
        while k < nn
            invariant
                policy == MultiedgePolicy::ErrorOnMultiedge,
                graph.valid(),
                n == graph.n(),
                nn == n * n,
                i == graph.edges@.len(),
                groups_state(graph, policy, i as nat, cnt@, first@, last@, minv@, sum@),
                k <= nn,
                forall|q: int| 0 <= q < k ==> #[trigger] cnt@[q] <= 1,
            decreases nn - k,
        {
            if cnt[k] > 1 {
                proof {
                    lemma_split_cell(n as nat, k as int);
                    let a = (k as int) / (n as int);
                    let b = (k as int) % (n as int);
                    assert(cell_ok(graph, policy, i as nat, cnt@, first@, last@, minv@, sum@, a, b));
                    assert(cnt@[a * n + b] == key_weights(graph, (a as usize, b as usize), i as nat).len());
                    lemma_noncanonical_empty(graph, a as usize, b as usize, i as nat);
                    assert(group_weights(graph, a, b).len() >= 2);
                }
                return Err(GraphError::Unsupported("multiple edges between a pair under ErrorOnMultiedge".to_string()));
            }
            k += 1;
        }
        proof {
            assert forall|r: int, c: int| 0 <= r < n && 0 <= c < n implies #[trigger] group_weights(graph, r, c).len() < 2 by {
                let key = canonical_key(graph, r as usize, c as usize);
                lemma_cell_bound(n as nat, key.0 as nat, key.1 as nat);
                assert(cell_ok(graph, policy, i as nat, cnt@, first@, last@, minv@, sum@, key.0 as int, key.1 as int));
                assert(cnt@[key.0 * n + key.1] <= 1);
            }
        }
    }
    proof {
        if policy == MultiedgePolicy::SumWeight {
            assert forall|r: int, c: int, t: int|
                0 <= r < n && 0 <= c < n && 0 <= t <= group_weights(graph, r, c).len() implies i64::MIN <= #[trigger] seq_total(
                    group_weights(graph, r, c).take(t),
                ) <= i64::MAX by {
                let key = canonical_key(graph, r as usize, c as usize);
                lemma_cell_bound(n as nat, key.0 as nat, key.1 as nat);
                assert(cell_ok(graph, policy, i as nat, cnt@, first@, last@, minv@, sum@, key.0 as int, key.1 as int));
                assert(prefix_sums_fit(key_weights(graph, key, i as nat)));
            }
        }
    }
    let mut data: Vec<MinPlus> = Vec::new();
    let mut r: usize = 0;
    while r < n
        invariant
            graph.valid(),
            n == graph.n(),
            nn == n * n,
            i == graph.edges@.len(),
            graph.edges@.len() <= i64::MAX,
            groups_state(graph, policy, i as nat, cnt@, first@, last@, minv@, sum@),
            r <= n,
            data@.len() == r * n,
            forall|q: int| 0 <= q < data@.len() ==> #[trigger] data@[q] == minplus_cell(graph, policy, q / (n as int), q % (n as int)),
        decreases n - r,
    {
        let mut c: usize = 0;
        while c < n
            invariant
                graph.valid(),
                n == graph.n(),
                nn == n * n,
                i == graph.edges@.len(),
                graph.edges@.len() <= i64::MAX,
                groups_state(graph, policy, i as nat, cnt@, first@, last@, minv@, sum@),
                r < n,
                c <= n,
                data@.len() == r * n + c,
                forall|q: int| 0 <= q < data@.len() ==> #[trigger] data@[q] == minplus_cell(graph, policy, q / (n as int), q % (n as int)),
            decreases n - c,
        {
            let key = canonical(graph, r, c);
            proof {
                lemma_cell_bound(n as nat, key.0 as nat, key.1 as nat);
                lemma_cell_bound(n as nat, r as nat, c as nat);
                lemma_key_weights_len(graph, key, i as nat);
            }
            let k = key.0 * n + key.1;
            let ghost ws = key_weights(graph, key, i as nat);
            proof {
                assert(cell_ok(graph, policy, i as nat, cnt@, first@, last@, minv@, sum@, key.0 as int, key.1 as int));
                assert(ws == group_weights(graph, r as int, c as int));
                assert(cnt@[k as int] == ws.len());
                if policy == MultiedgePolicy::SumWeight && ws.len() > 0 {
                    assert(ws.take(ws.len() as int) =~= ws);
                    assert(i64::MIN <= seq_total(ws.take(ws.len() as int)) <= i64::MAX);
                }
            }
            let cell = if cnt[k] == 0 {
                MinPlus::Inf
            } else {
                match policy {
                    MultiedgePolicy::ErrorOnMultiedge => MinPlus::Fin(first[k]),
                    MultiedgePolicy::KeepFirst => MinPlus::Fin(first[k]),
                    MultiedgePolicy::KeepLast => MinPlus::Fin(last[k]),
                    MultiedgePolicy::MinWeight => MinPlus::Fin(minv[k]),
                    MultiedgePolicy::SumWeight => MinPlus::Fin(sum[k]),
                    MultiedgePolicy::CountEdges => MinPlus::Fin(cnt[k] as i64),
                }
            };
            proof {
                assert(cell == minplus_cell(graph, policy, r as int, c as int));
            }
            data.push(cell);
            proof {
                let q = (r * n + c) as int;
                assert(q / (n as int) == r && q % (n as int) == c);
            }
            c += 1;
        }
        proof {
            assert((r + 1) * n == r * n + n) by (nonlinear_arith);
        }
        r += 1;
    }
    proof {
        assert(data@.len() == n * n);
        assert(data@.map_values(|x: MinPlus| x@) =~= minplus_cells(graph, policy));
    }
    Ok(Matrix { rows: n, cols: n, data })
}

/// The min-plus adjacency under a multiedge policy: cell `(r, c)` holds the
/// policy's value of the weights of the non-loop edges from `r` to `c`
/// (either way when undirected), `Inf` where there is none.
pub fn graph_to_minplus_adjacency<N>(graph: &Graph<N, i64>, policy: MultiedgePolicy) -> (r: Result<(Matrix<MinPlus>, GraphMatrixMap), GraphError>)
    requires
        graph.n() * graph.n() <= usize::MAX,
        graph.edges@.len() <= i64::MAX,
    ensures
        r is Ok <==> graph.valid() && adjacency_builds(graph, policy),
        !graph.valid() ==> (r matches Err(e) && graph.reports(e)),
        graph.valid() ==> (match r {
            Ok((m, map)) => !(policy == MultiedgePolicy::ErrorOnMultiedge && has_multiedge(graph)) && (policy
                == MultiedgePolicy::SumWeight ==> sums_fit(graph)) && m.rows == graph.n() && m.cols == graph.n() && m.wf()
                && m.cells() == minplus_cells(graph, policy) && map_ok(graph, map, policy_label(policy)),
            Err(e) => (policy == MultiedgePolicy::ErrorOnMultiedge && has_multiedge(graph) && e is Unsupported) || (policy
                == MultiedgePolicy::SumWeight && !sums_fit(graph) && e is WeightOverflow),
        }),
{
    graph.validate()?;
    let n = graph.node_count();
    let m = minplus_matrix(graph, policy)?;
    let mut map = identity_map(n, graph.edge_count(), policy.label());
    place_edges(graph, &mut map);
    Ok((m, map))
}

/// The min-plus adjacency as a sparse matrix: the non-`Inf` cells of
/// [`graph_to_minplus_adjacency`] in row-major order.
pub fn graph_to_sparse_adjacency<N>(graph: &Graph<N, i64>, policy: MultiedgePolicy) -> (r: Result<(SparseMatrix<MinPlus>, GraphMatrixMap), GraphError>)
    requires
        graph.n() * graph.n() <= usize::MAX,
        graph.edges@.len() <= i64::MAX,
    ensures
        r is Ok <==> graph.valid() && adjacency_builds(graph, policy),
        !graph.valid() ==> (r matches Err(e) && graph.reports(e)),
        graph.valid() ==> (match r {
            Ok((s, map)) => !(policy == MultiedgePolicy::ErrorOnMultiedge && has_multiedge(graph)) && (policy
                == MultiedgePolicy::SumWeight ==> sums_fit(graph)) && s.rows == graph.n() && s.cols == graph.n()
                && triples::<MinPlus>(s.entries@) == nonzero_cells::<MinPlus>(
                minplus_cells(graph, policy),
                graph.n(),
                graph.n() * graph.n(),
            ) && map_ok(graph, map, policy_label(policy)),
            Err(e) => (policy == MultiedgePolicy::ErrorOnMultiedge && has_multiedge(graph) && e is Unsupported) || (policy
                == MultiedgePolicy::SumWeight && !sums_fit(graph) && e is WeightOverflow),
        }),
{
    graph.validate()?;
    let n = graph.node_count();
    let dense = minplus_matrix(graph, policy)?;
    let sparse = match SparseMatrix::from_dense_nonzero(&dense) {
        Ok(s) => s,
        Err(e) => {
            proof {
                assert(dense.validation() is Ok) by {
                    assert(dense.rows * dense.cols <= usize::MAX);
                }
            }
            return Err(GraphError::Unsupported(crate::error::algebra_error_text(&e)));
        },
    };
    let mut map = identity_map(n, graph.edge_count(), policy.label());
    place_edges(graph, &mut map);
    Ok((sparse, map))
}

/// The sparse and the dense min-plus adjacency builders agree: both succeed
/// exactly when [`adjacency_builds`] holds of a valid graph, and then the
/// sparse matrix is canonical (entries strictly increasing in `(row, col)`,
/// none `Inf`) and densifies to the dense one cell for cell.
pub proof fn lemma_sparse_adjacency_matches_dense<N>(
    graph: &Graph<N, i64>,
    policy: MultiedgePolicy,
    s: SparseMatrix<MinPlus>,
    d: Matrix<MinPlus>,
)
    requires
        graph.valid(),
        graph.n() * graph.n() <= usize::MAX,
        d.rows == graph.n(),
        d.cols == graph.n(),
        d.wf(),
        d.cells() == minplus_cells(graph, policy),
        s.rows == graph.n(),
        s.cols == graph.n(),
        triples::<MinPlus>(s.entries@) == nonzero_cells::<MinPlus>(
            minplus_cells(graph, policy),
            graph.n(),
            graph.n() * graph.n(),
        ),
    ensures
        s.validation() is Ok,
        strictly_sorted(s.entries@),
        forall|i: int| 0 <= i < s.entries@.len() ==> #[trigger] s.entries@[i].value@ != MinPlus::Inf,
        forall|i: int, j: int|
            0 <= i < graph.n() && 0 <= j < graph.n() ==> (match last_at::<MinPlus>(
                s.entries@,
                i as usize,
                j as usize,
            ) {
                Some(v) => v,
                None => MinPlus::Inf,
            }) == #[trigger] d.entry(i, j),
{
    lemma_dense_sparse_round_trip::<MinPlus>(d, s);
}

/// The number of non-loop edges among the first `m`.
pub open spec fn loop_free_count<N, W>(g: &Graph<N, W>, m: nat) -> nat
    decreases m,
{
    if m == 0 {
        0
    } else {
        loop_free_count(g, (m - 1) as nat) + if g.edges@[m - 1].source != g.edges@[m - 1].target { 1nat } else { 0nat }
    }
}

/// The incidence entries of the first `m` edges: column `j` for the `j`-th
/// non-loop edge, holding `-1` at the source and `+1` at the target when
/// directed, `+1` at both ends when undirected.
pub open spec fn incidence_entries<N, W>(g: &Graph<N, W>, m: nat) -> Seq<SparseEntry<IntRing>>
    decreases m,
{
    if m == 0 {
        Seq::empty()
    } else {
        let prev = incidence_entries(g, (m - 1) as nat);
        let e = g.edges@[m - 1];
        let col = loop_free_count(g, (m - 1) as nat) as usize;
        if e.source == e.target {
            prev
        } else if g.undirected() {
            prev.push(SparseEntry { row: e.source, col, value: IntRing(1i64) }).push(
                SparseEntry { row: e.target, col, value: IntRing(1i64) },
            )
        } else {
            prev.push(SparseEntry { row: e.source, col, value: IntRing(-1i64) }).push(
                SparseEntry { row: e.target, col, value: IntRing(1i64) },
            )
        }
    }
}

/// The signed incidence matrix: one column per non-loop edge, in edge order.
pub fn graph_to_incidence<N, W>(graph: &Graph<N, W>) -> (r: Result<SparseMatrix<IntRing>, GraphError>)
    ensures
        !graph.valid() ==> (r matches Err(e) && graph.reports(e)),
        graph.valid() ==> ({
            let cols = loop_free_count(graph, graph.edges@.len());
            &&& graph.n() * cols <= usize::MAX ==> (r matches Ok(s) && s.rows == graph.n() && s.cols == cols
                && canonical_of::<IntRing>(s.entries@, incidence_entries(graph, graph.edges@.len())))
            &&& graph.n() * cols > usize::MAX ==> (r matches Err(e) && e is Unsupported)
        }),
{
    graph.validate()?;
    let n = graph.node_count();
    let directed = graph.is_directed();
    let mut entries: Vec<SparseEntry<IntRing>> = Vec::new();
    let mut col: usize = 0;
    let mut i: usize = 0;
    while i < graph.edges.len()
        invariant
            graph.valid(),
            n == graph.n(),
            directed == !graph.undirected(),
            i <= graph.edges@.len(),
            col == loop_free_count(graph, i as nat),
            col <= i,
            entries@ == incidence_entries(graph, i as nat),
            forall|k: int| 0 <= k < entries@.len() ==> #[trigger] entries@[k].row < n && entries@[k].col < col,
        decreases graph.edges@.len() - i,
    {
        let e = &graph.edges[i];
        proof {
            assert(graph.edge_ok(i as int));
        }
        let ghost before = entries@;
        if !e.is_self_loop() {
            if directed {
                entries.push(SparseEntry { row: e.source, col, value: IntRing(-1) });
                entries.push(SparseEntry { row: e.target, col, value: IntRing(1) });
            } else {
                entries.push(SparseEntry { row: e.source, col, value: IntRing(1) });
                entries.push(SparseEntry { row: e.target, col, value: IntRing(1) });
            }
            proof {
                assert forall|k: int| 0 <= k < entries@.len() implies #[trigger] entries@[k].row < n && entries@[k].col
                    < col + 1 by {
                    if k < before.len() {
                        assert(entries@[k] == before[k]);
                    }
                }
            }
            col += 1;
        }
        i += 1;
    }
    let ghost all = entries@;
    proof {
        let probe = SparseMatrix::<IntRing> { rows: n, cols: col, entries };
        if n * col <= usize::MAX {
            assert(!exists|k: int| 0 <= k < probe.entries@.len() && (#[trigger] probe.entries@[k].row >= probe.rows
                || probe.entries@[k].col >= probe.cols));
            assert(probe.validation() is Ok);
        }
    }
    match SparseMatrix::from_entries(n, col, entries) {
        Ok(s) => Ok(s),
        Err(e) => Err(GraphError::Unsupported(crate::error::algebra_error_text(&e))),
    }
}

/// Laplacian entry `(r, c)` over the first `m` edges: on the diagonal, the
/// number of non-loop edges leaving `r` (either end, when undirected); off
/// it, minus the number of non-loop edges from `r` to `c`.
pub open spec fn laplacian_upto<N, W>(g: &Graph<N, W>, r: int, c: int, m: nat) -> int
    decreases m,
{
    if m == 0 {
        0
    } else {
        let prev = laplacian_upto(g, r, c, (m - 1) as nat);
        let e = g.edges@[m - 1];
        if e.source == e.target {
            prev
        } else {
            let s = e.source as int;
            let t = e.target as int;
            let fwd = (if r == s && c == t { -1int } else { 0int }) + (if r == s && c == s { 1int } else { 0int });
            let back = if g.undirected() {
                (if r == t && c == s { -1int } else { 0int }) + (if r == t && c == t { 1int } else { 0int })
            } else {
                0int
            };
            prev + fwd + back
        }
    }
}

proof fn lemma_laplacian_bound<N, W>(g: &Graph<N, W>, r: int, c: int, m: nat)
    ensures
        -m <= laplacian_upto(g, r, c, m) <= m,
    decreases m,
{
    if m > 0 {
        lemma_laplacian_bound(g, r, c, (m - 1) as nat);
    }
}

/// The graph Laplacian `D - A` over the integer ring; self-loops are skipped.
pub fn graph_to_laplacian<N, W>(graph: &Graph<N, W>) -> (r: Result<Matrix<IntRing>, GraphError>)
    requires
        graph.n() * graph.n() <= usize::MAX,
        graph.edges@.len() <= i64::MAX,
    ensures
        !graph.valid() ==> (r matches Err(e) && graph.reports(e)),
        graph.valid() ==> (r matches Ok(m) && m.rows == graph.n() && m.cols == graph.n() && m.wf() && forall|a: int, b: int|
            0 <= a < graph.n() && 0 <= b < graph.n() ==> #[trigger] m.entry(a, b) == laplacian_upto(graph, a, b, graph.edges@.len())),
{
    graph.validate()?;
    let n = graph.node_count();
    let mut m = Matrix::filled(n, n, IntRing(0));
    let undirected = !graph.is_directed();
    proof {
        assert forall|a: int, b: int| 0 <= a < n && 0 <= b < n implies #[trigger] m.data@[a * n + b].0 == laplacian_upto(graph, a, b, 0) by {
            lemma_cell_bound(n as nat, a as nat, b as nat);
            assert(m.data@[a * n + b]@ == 0);
        }
    }
    let mut i: usize = 0;
    while i < graph.edges.len()
        invariant
            graph.valid(),
            n == graph.n(),
            n * n <= usize::MAX,
            graph.edges@.len() <= i64::MAX,
            undirected == graph.undirected(),
            i <= graph.edges@.len(),
            m.rows == n,
            m.cols == n,
            m.wf(),
            forall|a: int, b: int| 0 <= a < n && 0 <= b < n ==> #[trigger] m.data@[a * n + b].0 == laplacian_upto(graph, a, b, i as nat),
        decreases graph.edges@.len() - i,
    {
        let e = &graph.edges[i];
        let ghost d0 = m.data@;
        proof {
            assert(graph.edge_ok(i as int));
            lemma_cell_bound(n as nat, e.source as nat, e.target as nat);
            lemma_cell_bound(n as nat, e.source as nat, e.source as nat);
            lemma_cell_bound(n as nat, e.target as nat, e.source as nat);
            lemma_cell_bound(n as nat, e.target as nat, e.target as nat);
            lemma_laplacian_bound(graph, e.source as int, e.target as int, i as nat);
            lemma_laplacian_bound(graph, e.source as int, e.source as int, i as nat);
            lemma_laplacian_bound(graph, e.target as int, e.source as int, i as nat);
            lemma_laplacian_bound(graph, e.target as int, e.target as int, i as nat);
        }
        if !e.is_self_loop() {
            let st = e.source * n + e.target;
            let ss = e.source * n + e.source;
            let v1 = m.data[st].0;
            m.data.set(st, IntRing(v1 - 1));
            let v2 = m.data[ss].0;
            m.data.set(ss, IntRing(v2 + 1));
            if undirected {
                let ts = e.target * n + e.source;
                let tt = e.target * n + e.target;
                let v3 = m.data[ts].0;
                m.data.set(ts, IntRing(v3 - 1));
                let v4 = m.data[tt].0;
                m.data.set(tt, IntRing(v4 + 1));
            }
        }
        proof {
            assert forall|a: int, b: int| 0 <= a < n && 0 <= b < n implies #[trigger] m.data@[a * n + b].0 == laplacian_upto(graph, a, b, (i + 1) as nat) by {
                lemma_cell_bound(n as nat, a as nat, b as nat);
                let k = a * n + b;
                let s0 = e.source as int;
                let t0 = e.target as int;
                assert(k == s0 * n + t0 <==> (a == s0 && b == t0)) by {
                    lemma_cell_bound(n as nat, e.source as nat, e.target as nat);
                }
                assert(k == s0 * n + s0 <==> (a == s0 && b == s0)) by {
                    lemma_cell_bound(n as nat, e.source as nat, e.source as nat);
                }
                assert(k == t0 * n + s0 <==> (a == t0 && b == s0)) by {
                    lemma_cell_bound(n as nat, e.target as nat, e.source as nat);
                }
                assert(k == t0 * n + t0 <==> (a == t0 && b == t0)) by {
                    lemma_cell_bound(n as nat, e.target as nat, e.target as nat);
                }
                assert(d0[k].0 == laplacian_upto(graph, a, b, i as nat));
            }
        }
        i += 1;
    }
    proof {
        assert forall|a: int, b: int|
            0 <= a < n && 0 <= b < n implies #[trigger] m.entry(a, b) == laplacian_upto(graph, a, b, graph.edges@.len()) by {
            assert(m.data@[a * n + b].0 == laplacian_upto(graph, a, b, i as nat));
        }
    }
    Ok(m)
}

/// The edges read off a min-plus adjacency in row-major order: one per
/// finite off-diagonal cell (only above the diagonal when undirected).
pub open spec fn matrix_edges(cells: Seq<MinPlus>, n: nat, undirected: bool, k: nat) -> Seq<(usize, usize, i64)>
    decreases k,
{
    if k == 0 {
        Seq::empty()
    } else {
        let prev = matrix_edges(cells, n, undirected, (k - 1) as nat);
        let idx = k - 1;
        let i = idx / (n as int);
        let j = idx % (n as int);
        if i != j && !(undirected && j < i) && cells[idx] is Fin {
            prev.push((i as usize, j as usize, cells[idx]->Fin_0))
        } else {
            prev
        }
    }
}

/// The edge with id `t` carrying `(source, target, weight)`.
pub open spec fn edge_of(x: (usize, usize, i64), t: int) -> Edge<i64> {
    Edge { id: t as usize, source: x.0, target: x.1, weight: x.2 }
}

/// A graph from a square min-plus adjacency: nodes labelled by index, one
/// edge per finite off-diagonal cell in row-major order (only cells above
/// the diagonal when undirected).
pub fn minplus_adjacency_to_graph(matrix: &Matrix<MinPlus>, directedness: Directedness) -> (r: Result<Graph<usize, i64>, GraphError>)
    requires
        matrix.wf(),
    ensures
        matrix.rows != matrix.cols ==> (r matches Err(e) && e is Unsupported),
        matrix.rows == matrix.cols ==> (r matches Ok(g) && g.nodes@ == Seq::new(matrix.rows as nat, |i: int| i as usize)
            && g.directedness == directedness && g.edges@.len() == matrix_edges(
            matrix.cells(),
            matrix.rows as nat,
            directedness == Directedness::Undirected,
            (matrix.rows * matrix.rows) as nat,
        ).len() && forall|t: int|
            0 <= t < g.edges@.len() ==> #[trigger] g.edges@[t] == edge_of(
                matrix_edges(
                    matrix.cells(),
                    matrix.rows as nat,
                    directedness == Directedness::Undirected,
                    (matrix.rows * matrix.rows) as nat,
                )[t],
                t,
            )),
{
    if !matrix.is_square() {
        return Err(GraphError::Unsupported("adjacency must be square".to_string()));
    }
    let n = matrix.rows;
    let mut labels: Vec<usize> = Vec::new();
    let mut z: usize = 0;
    while z < n
        invariant
            z <= n,
            labels@ == Seq::new(z as nat, |i: int| i as usize),
        decreases n - z,
    {
        labels.push(z);
        z += 1;
        assert(labels@ =~= Seq::new(z as nat, |i: int| i as usize));
    }
    let mut g: Graph<usize, i64> = Graph::with_nodes(labels, directedness);
    let undirected = directedness == Directedness::Undirected;
    let ghost cells = matrix.cells();
    let total = matrix.data.len();
    let mut i: usize = 0;
    while i < n
        invariant
            total == n * n,
            matrix.wf(),
            matrix.rows == n,
            matrix.cols == n,
            cells == matrix.cells(),
            undirected == (directedness == Directedness::Undirected),
            i <= n,
            g.nodes@ == Seq::new(n as nat, |i: int| i as usize),
            g.directedness == directedness,
            g.edges@.len() == matrix_edges(cells, n as nat, undirected, (i * n) as nat).len(),
            forall|t: int| 0 <= t < g.edges@.len() ==> #[trigger] g.edges@[t] == edge_of(matrix_edges(cells, n as nat, undirected, (i * n) as nat)[t], t),
        decreases n - i,
    {
        let mut j: usize = 0;
        while j < n
            invariant
                total == n * n,
                matrix.wf(),
                matrix.rows == n,
                matrix.cols == n,
                cells == matrix.cells(),
                undirected == (directedness == Directedness::Undirected),
                i < n,
                j <= n,
                g.nodes@ == Seq::new(n as nat, |i: int| i as usize),
                g.directedness == directedness,
                g.edges@.len() == matrix_edges(cells, n as nat, undirected, (i * n + j) as nat).len(),
                forall|t: int| 0 <= t < g.edges@.len() ==> #[trigger] g.edges@[t] == edge_of(matrix_edges(cells, n as nat, undirected, (i * n + j) as nat)[t], t),
            decreases n - j,
        {
            proof {
                lemma_cell_bound(n as nat, i as nat, j as nat);
            }
            let ghost before = matrix_edges(cells, n as nat, undirected, (i * n + j) as nat);
            let ghost e0 = g.edges@;
            let k = i * n + j;
            if i != j && !(undirected && j < i) {
                if let MinPlus::Fin(w) = matrix.data[k] {
                    let r = g.add_edge(i, j, w);
                    proof {
                        assert(r is Ok);
                    }
                }
            }
            proof {
                let after = matrix_edges(cells, n as nat, undirected, (i * n + j + 1) as nat);
                assert(cells[k as int] == matrix.data@[k as int]@);
                assert forall|t: int| 0 <= t < g.edges@.len() implies #[trigger] g.edges@[t] == edge_of(after[t], t) by {
                    if t < e0.len() {
                        assert(g.edges@[t] == e0[t]);
                        assert(after[t] == before[t]);
                    }
                }
            }
            j += 1;
        }
        proof {
            assert((i + 1) * n == i * n + n) by (nonlinear_arith);
        }
        i += 1;
    }
    Ok(g)
}

/// The edges read from the first `k` cells of an `n x n` min-plus model: each
/// joins two distinct in-range nodes (the lower first when undirected) at a
/// finite cell before `k` holding its weight, in strictly increasing
/// row-major position, and every such cell before `k` gives one.
proof fn lemma_matrix_edges_shape(cells: Seq<MinPlus>, n: nat, undirected: bool, k: nat)
    requires
        k <= n * n,
        n <= usize::MAX,
    ensures
        ({
            let me = matrix_edges(cells, n, undirected, k);
            &&& forall|t: int|
                0 <= t < me.len() ==> (#[trigger] me[t]).0 < n && me[t].1 < n && me[t].0 != me[t].1 && !(undirected
                    && me[t].1 < me[t].0) && me[t].0 * n + me[t].1 < k && cells[me[t].0 * n + me[t].1] == MinPlus::Fin(me[t].2)
            &&& forall|t1: int, t2: int|
                0 <= t1 < t2 < me.len() ==> (#[trigger] me[t1]).0 * n + me[t1].1 < (#[trigger] me[t2]).0 * n + me[t2].1
            &&& forall|i: int, j: int|
                0 <= i < n && 0 <= j < n && i * n + j < k && i != j && !(undirected && j < i) && #[trigger] cells[i * n
                    + j] is Fin ==> exists|t: int| 0 <= t < me.len() && (#[trigger] me[t]).0 == i && me[t].1 == j
        }),
    decreases k,
{
    if k > 0 {
        lemma_matrix_edges_shape(cells, n, undirected, (k - 1) as nat);
        let prev = matrix_edges(cells, n, undirected, (k - 1) as nat);
        let me = matrix_edges(cells, n, undirected, k);
        let idx = k - 1;
        crate::matrix::lemma_split_index(idx, n as int, n as int);
        let i0 = idx / (n as int);
        let j0 = idx % (n as int);
        if i0 != j0 && !(undirected && j0 < i0) && cells[idx] is Fin {
            assert(me == prev.push((i0 as usize, j0 as usize, cells[idx]->Fin_0)));
            assert forall|t: int| 0 <= t < me.len() implies (#[trigger] me[t]).0 < n && me[t].1 < n && me[t].0 != me[t].1
                && !(undirected && me[t].1 < me[t].0) && me[t].0 * n + me[t].1 < k && cells[me[t].0 * n + me[t].1]
                == MinPlus::Fin(me[t].2) by {
                if t < prev.len() {
                    assert(me[t] == prev[t]);
                }
            }
            assert forall|t1: int, t2: int| 0 <= t1 < t2 < me.len() implies (#[trigger] me[t1]).0 * n + me[t1].1 < (
            #[trigger] me[t2]).0 * n + me[t2].1 by {
                assert(me[t1] == prev[t1]);
                if t2 < prev.len() {
                    assert(me[t2] == prev[t2]);
                }
            }
            assert forall|i: int, j: int|
                0 <= i < n && 0 <= j < n && i * n + j < k && i != j && !(undirected && j < i) && #[trigger] cells[i * n
                    + j] is Fin implies exists|t: int| 0 <= t < me.len() && (#[trigger] me[t]).0 == i && me[t].1 == j by {
                if i * n + j < idx {
                    let t = choose|t: int| 0 <= t < prev.len() && (#[trigger] prev[t]).0 == i && prev[t].1 == j;
                    assert(me[t] == prev[t]);
                } else {
                    crate::matrix::lemma_cell_div_mod(i, j, n as int);
                    assert(me[me.len() - 1].0 == i && me[me.len() - 1].1 == j);
                }
            }
        } else {
            assert(me == prev);
            assert forall|i: int, j: int|
                0 <= i < n && 0 <= j < n && i * n + j < k && i != j && !(undirected && j < i) && #[trigger] cells[i * n
                    + j] is Fin implies exists|t: int| 0 <= t < me.len() && (#[trigger] me[t]).0 == i && me[t].1 == j by {
                if i * n + j == idx {
                    crate::matrix::lemma_cell_div_mod(i, j, n as int);
                    assert(i == i0 && j == j0);
                }
            }
        }
    }
}

/// Strictly increasing positions from zero are at least their index.
proof fn lemma_positions_grow(me: Seq<(usize, usize, i64)>, n: nat, t: int)
    requires
        0 <= t < me.len(),
        forall|t1: int, t2: int|
            0 <= t1 < t2 < me.len() ==> (#[trigger] me[t1]).0 * n + me[t1].1 < (#[trigger] me[t2]).0 * n + me[t2].1,
    ensures
        me[t].0 * n + me[t].1 >= t,
    decreases t,
{
    if t > 0 {
        lemma_positions_grow(me, n, t - 1);
        assert(me[t - 1].0 * n + me[t - 1].1 < me[t].0 * n + me[t].1);
    } else {
        assert(me[t].0 * n >= 0) by (nonlinear_arith);
    }
}

/// The graph read from a square min-plus matrix has exactly one edge per
/// finite off-diagonal cell, from its row to its column with the cell's
/// weight (when undirected, one per such cell above the diagonal): every
/// edge lies on such a cell, every such cell carries an edge, and no two
/// edges share their ends.
pub proof fn lemma_adjacency_graph_edges(matrix: Matrix<MinPlus>, directedness: Directedness, g: Graph<usize, i64>)
    requires
        matrix.wf(),
        matrix.rows == matrix.cols,
        matrix.rows * matrix.cols <= usize::MAX,
        g.edges@.len() == matrix_edges(
            matrix.cells(),
            matrix.rows as nat,
            directedness == Directedness::Undirected,
            (matrix.rows * matrix.rows) as nat,
        ).len(),
        forall|t: int|
            0 <= t < g.edges@.len() ==> #[trigger] g.edges@[t] == edge_of(
                matrix_edges(
                    matrix.cells(),
                    matrix.rows as nat,
                    directedness == Directedness::Undirected,
                    (matrix.rows * matrix.rows) as nat,
                )[t],
                t,
            ),
    ensures
        forall|t: int|
            0 <= t < g.edges@.len() ==> (#[trigger] g.edges@[t]).id == t && g.edges@[t].source < matrix.rows
                && g.edges@[t].target < matrix.rows && g.edges@[t].source != g.edges@[t].target && (directedness
                == Directedness::Undirected ==> g.edges@[t].source < g.edges@[t].target) && matrix.entry(
                g.edges@[t].source as int,
                g.edges@[t].target as int,
            ) == MinPlus::Fin(g.edges@[t].weight),
        forall|i: int, j: int|
            0 <= i < matrix.rows && 0 <= j < matrix.rows && i != j && (directedness == Directedness::Undirected ==> i
                < j) && #[trigger] matrix.entry(i, j) is Fin ==> exists|t: int|
                0 <= t < g.edges@.len() && (#[trigger] g.edges@[t]).source == i && g.edges@[t].target == j,
        forall|t1: int, t2: int|
            0 <= t1 < t2 < g.edges@.len() ==> !((#[trigger] g.edges@[t1]).source == (#[trigger] g.edges@[t2]).source
                && g.edges@[t1].target == g.edges@[t2].target),
{
    let n = matrix.rows as nat;
    let und = directedness == Directedness::Undirected;
    let cells = matrix.cells();
    let me = matrix_edges(cells, n, und, n * n);
    lemma_matrix_edges_shape(cells, n, und, n * n);
    assert forall|t: int| 0 <= t < g.edges@.len() implies (#[trigger] g.edges@[t]).id == t && g.edges@[t].source
        < matrix.rows && g.edges@[t].target < matrix.rows && g.edges@[t].source != g.edges@[t].target && (directedness
        == Directedness::Undirected ==> g.edges@[t].source < g.edges@[t].target) && matrix.entry(
        g.edges@[t].source as int,
        g.edges@[t].target as int,
    ) == MinPlus::Fin(g.edges@[t].weight) by {
        assert(g.edges@[t] == edge_of(me[t], t));
        assert(me[t].0 < n);
        crate::matrix::lemma_cell_index(me[t].0 as int, me[t].1 as int, n as int, n as int);
        lemma_positions_grow(me, n, t);
        assert(n * n <= usize::MAX);
        assert(cells[me[t].0 * n + me[t].1] == matrix.data@[me[t].0 * n + me[t].1]@);
    }
    assert forall|i: int, j: int|
        0 <= i < matrix.rows && 0 <= j < matrix.rows && i != j && (directedness == Directedness::Undirected ==> i < j)
            && #[trigger] matrix.entry(i, j) is Fin implies exists|t: int|
        0 <= t < g.edges@.len() && (#[trigger] g.edges@[t]).source == i && g.edges@[t].target == j by {
        crate::matrix::lemma_cell_index(i, j, n as int, n as int);
        assert(cells[i * n + j] == matrix.entry(i, j));
        assert(cells[i * n + j] is Fin);
        let t = choose|t: int| 0 <= t < me.len() && (#[trigger] me[t]).0 == i && me[t].1 == j;
        assert(g.edges@[t] == edge_of(me[t], t));
    }
    assert forall|t1: int, t2: int| 0 <= t1 < t2 < g.edges@.len() implies !((#[trigger] g.edges@[t1]).source == (
    #[trigger] g.edges@[t2]).source && g.edges@[t1].target == g.edges@[t2].target) by {
        assert(g.edges@[t1] == edge_of(me[t1], t1));
        assert(g.edges@[t2] == edge_of(me[t2], t2));
        assert(me[t1].0 * n + me[t1].1 < me[t2].0 * n + me[t2].1);
    }
}

/// Edge `e` is a non-loop edge joining `r` to `c` (either way when
/// undirected).
pub open spec fn joins_cell<N>(g: &Graph<N, i64>, e: int, r: int, c: int) -> bool {
    g.edges@[e].source != g.edges@[e].target && g.edge_joins(e, r, c)
}

/// The number of edges among the first `m` joining `r` to `c`.
pub open spec fn joining_count<N>(g: &Graph<N, i64>, r: int, c: int, m: nat) -> nat
    decreases m,
{
    if m == 0 {
        0
    } else {
        joining_count(g, r, c, (m - 1) as nat) + if joins_cell(g, m - 1, r, c) { 1nat } else { 0nat }
    }
}

/// The total weight of the edges among the first `m` joining `r` to `c`.
pub open spec fn joining_sum<N>(g: &Graph<N, i64>, r: int, c: int, m: nat) -> int
    decreases m,
{
    if m == 0 {
        0
    } else {
        joining_sum(g, r, c, (m - 1) as nat) + if joins_cell(g, m - 1, r, c) { g.edges@[m - 1].weight as int } else { 0 }
    }
}

/// The grouped weights of a cell are the weights of the edges joining it,
/// in edge order.
proof fn lemma_group_edges<N>(g: &Graph<N, i64>, r: int, c: int, m: nat)
    requires
        g.valid(),
        g.n() <= usize::MAX,
        0 <= r < g.n(),
        0 <= c < g.n(),
        m <= g.edges@.len(),
    ensures
        ({
            let ws = key_weights(g, canonical_key(g, r as usize, c as usize), m);
            &&& ws.len() == joining_count(g, r, c, m)
            &&& seq_total(ws) == joining_sum(g, r, c, m)
            &&& forall|e: int| 0 <= e < m && #[trigger] joins_cell(g, e, r, c) ==> ws.len() > 0 && seq_min(ws) <= g.edges@[e].weight
            &&& forall|e1: int, e2: int|
                0 <= e1 < e2 < m && #[trigger] joins_cell(g, e1, r, c) && #[trigger] joins_cell(g, e2, r, c) ==> ws.len() >= 2
            &&& ws.len() > 0 ==> exists|e: int|
                0 <= e < m && #[trigger] joins_cell(g, e, r, c) && ws[0] == g.edges@[e].weight && forall|e2: int|
                    0 <= e2 < e ==> !#[trigger] joins_cell(g, e2, r, c)
            &&& ws.len() > 0 ==> exists|e: int|
                0 <= e < m && #[trigger] joins_cell(g, e, r, c) && ws.last() == g.edges@[e].weight && forall|e2: int|
                    e < e2 < m ==> !#[trigger] joins_cell(g, e2, r, c)
            &&& ws.len() > 0 ==> exists|e: int| 0 <= e < m && #[trigger] joins_cell(g, e, r, c) && seq_min(ws) == g.edges@[e].weight
        }),
    decreases m,
{
    if m > 0 {
        let key = canonical_key(g, r as usize, c as usize);
        lemma_group_edges(g, r, c, (m - 1) as nat);
        let prev = key_weights(g, key, (m - 1) as nat);
        let ws = key_weights(g, key, m);
        let e = g.edges@[m - 1];
        assert(g.edge_ok(m - 1));
        assert((e.source != e.target && canonical_key(g, e.source, e.target) == key) <==> joins_cell(g, m - 1, r, c)) by {
            let (ru, cu) = (r as usize, c as usize);
            assert(ru as int == r && cu as int == c);
            if g.undirected() {
                if e.source != e.target && canonical_key(g, e.source, e.target) == key {
                    if e.target < e.source {
                        if cu < ru {
                            assert(e.target == cu && e.source == ru);
                        } else {
                            assert(e.target == ru && e.source == cu);
                        }
                    } else {
                        if cu < ru {
                            assert(e.source == cu && e.target == ru);
                        } else {
                            assert(e.source == ru && e.target == cu);
                        }
                    }
                }
            }
        }
        if joins_cell(g, m - 1, r, c) {
            assert(ws == prev.push(e.weight));
            assert(ws.drop_last() =~= prev);
            if prev.len() > 0 {
                let e0 = choose|x: int|
                    0 <= x < m - 1 && #[trigger] joins_cell(g, x, r, c) && prev[0] == g.edges@[x].weight && forall|e2: int|
                        0 <= e2 < x ==> !#[trigger] joins_cell(g, e2, r, c);
                assert(ws[0] == prev[0]);
                assert(joins_cell(g, e0, r, c));
                let em = choose|x: int| 0 <= x < m - 1 && #[trigger] joins_cell(g, x, r, c) && seq_min(prev) == g.edges@[x].weight;
                assert(joins_cell(g, em, r, c));
            }
            assert(joins_cell(g, m - 1, r, c));
            assert forall|x: int| 0 <= x < m && #[trigger] joins_cell(g, x, r, c) implies ws.len() > 0 && seq_min(ws)
                <= g.edges@[x].weight by {}
        } else {
            assert(ws == prev);
            if prev.len() > 0 {
                let e0 = choose|x: int|
                    0 <= x < m - 1 && #[trigger] joins_cell(g, x, r, c) && prev[0] == g.edges@[x].weight && forall|e2: int|
                        0 <= e2 < x ==> !#[trigger] joins_cell(g, e2, r, c);
                assert(joins_cell(g, e0, r, c));
                let el = choose|x: int|
                    0 <= x < m - 1 && #[trigger] joins_cell(g, x, r, c) && prev.last() == g.edges@[x].weight && forall|e2: int|
                        x < e2 < m - 1 ==> !#[trigger] joins_cell(g, e2, r, c);
                assert(joins_cell(g, el, r, c));
                let em = choose|x: int| 0 <= x < m - 1 && #[trigger] joins_cell(g, x, r, c) && seq_min(prev) == g.edges@[x].weight;
                assert(joins_cell(g, em, r, c));
            }
        }
    }
}

/// At most `m` of the first `m` edges join a cell.
proof fn lemma_joining_count_le<N>(g: &Graph<N, i64>, r: int, c: int, m: nat)
    ensures
        joining_count(g, r, c, m) <= m,
    decreases m,
{
    if m > 0 {
        lemma_joining_count_le(g, r, c, (m - 1) as nat);
    }
}

/// What each multiedge policy puts in a cell of the min-plus adjacency,
/// stated over the edges joining the cell's row to its column (either way
/// when undirected; self-loops never count): the cell is `Inf` exactly when
/// no edge joins them; otherwise `KeepFirst` holds the weight of the joining
/// edge with the smallest id, `KeepLast` that of the largest id,
/// `MinWeight` the least joining weight, `SumWeight` their total,
/// `CountEdges` their number, and `ErrorOnMultiedge` the weight of the one
/// joining edge.
pub proof fn lemma_minplus_adjacency_policy<N>(g: &Graph<N, i64>, p: MultiedgePolicy, m: Matrix<MinPlus>, r: int, c: int)
    requires
        g.valid(),
        g.n() * g.n() <= usize::MAX,
        g.edges@.len() <= i64::MAX,
        p == MultiedgePolicy::ErrorOnMultiedge ==> !has_multiedge(g),
        p == MultiedgePolicy::SumWeight ==> sums_fit(g),
        m.rows == g.n(),
        m.cols == g.n(),
        m.wf(),
        m.cells() == minplus_cells(g, p),
        0 <= r < g.n(),
        0 <= c < g.n(),
    ensures
        m.entry(r, c) is Inf <==> forall|e: int| 0 <= e < g.edges@.len() ==> !#[trigger] joins_cell(g, e, r, c),
        m.entry(r, c) matches MinPlus::Fin(w) ==> match p {
            MultiedgePolicy::KeepFirst => exists|e: int|
                0 <= e < g.edges@.len() && #[trigger] joins_cell(g, e, r, c) && g.edges@[e].weight == w && forall|e2: int|
                    0 <= e2 < e ==> !#[trigger] joins_cell(g, e2, r, c),
            MultiedgePolicy::KeepLast => exists|e: int|
                0 <= e < g.edges@.len() && #[trigger] joins_cell(g, e, r, c) && g.edges@[e].weight == w && forall|e2: int|
                    e < e2 < g.edges@.len() ==> !#[trigger] joins_cell(g, e2, r, c),
            MultiedgePolicy::MinWeight => (exists|e: int|
                0 <= e < g.edges@.len() && #[trigger] joins_cell(g, e, r, c) && g.edges@[e].weight == w) && forall|e: int|
                0 <= e < g.edges@.len() && #[trigger] joins_cell(g, e, r, c) ==> w <= g.edges@[e].weight,
            MultiedgePolicy::SumWeight => w == joining_sum(g, r, c, g.edges@.len()),
            MultiedgePolicy::CountEdges => w == joining_count(g, r, c, g.edges@.len()),
            MultiedgePolicy::ErrorOnMultiedge => exists|e: int|
                0 <= e < g.edges@.len() && #[trigger] joins_cell(g, e, r, c) && g.edges@[e].weight == w && forall|e2: int|
                    0 <= e2 < g.edges@.len() && #[trigger] joins_cell(g, e2, r, c) ==> e2 == e,
        },
{
    let n = g.n();
    let len = g.edges@.len();
    assert(n <= usize::MAX) by {
        if n > 0 {
            assert(n <= n * n) by (nonlinear_arith)
                requires
                    n > 0,
            ;
        }
    }
    crate::matrix::lemma_cell_index(r, c, n as int, n as int);
    crate::matrix::lemma_cell_div_mod(r, c, n as int);
    assert(m.entry(r, c) == m.cells()[r * n + c]);
    assert(m.entry(r, c) == minplus_cell(g, p, r, c));
    lemma_group_edges(g, r, c, len);
    let ws = group_weights(g, r, c);
    lemma_joining_count_le(g, r, c, len);
    if ws.len() == 0 {
        assert forall|e: int| 0 <= e < len implies !#[trigger] joins_cell(g, e, r, c) by {}
    } else {
        let e0 = choose|e: int|
            0 <= e < len && #[trigger] joins_cell(g, e, r, c) && ws[0] == g.edges@[e].weight && forall|e2: int|
                0 <= e2 < e ==> !#[trigger] joins_cell(g, e2, r, c);
        assert(joins_cell(g, e0, r, c));
        let el = choose|e: int|
            0 <= e < len && #[trigger] joins_cell(g, e, r, c) && ws.last() == g.edges@[e].weight && forall|e2: int|
                e < e2 < len ==> !#[trigger] joins_cell(g, e2, r, c);
        let em = choose|e: int| 0 <= e < len && #[trigger] joins_cell(g, e, r, c) && seq_min(ws) == g.edges@[e].weight;
        if p == MultiedgePolicy::SumWeight {
            assert(ws.take(ws.len() as int) =~= ws);
            assert(i64::MIN <= seq_total(group_weights(g, r, c).take(ws.len() as int)) <= i64::MAX);
        }
        if p == MultiedgePolicy::ErrorOnMultiedge {
            assert(ws.len() < 2);
            assert forall|e2: int| 0 <= e2 < len && #[trigger] joins_cell(g, e2, r, c) implies e2 == e0 by {
                if e2 < e0 {
                    assert(joins_cell(g, e2, r, c) && joins_cell(g, e0, r, c));
                } else if e2 > e0 {
                    assert(joins_cell(g, e0, r, c) && joins_cell(g, e2, r, c));
                }
            }
        }
    }
}

/// The incidence value at the source of a non-loop edge: `+1` when
/// undirected, `-1` when directed.
pub open spec fn source_sign<N, W>(g: &Graph<N, W>) -> i64 {
    if g.undirected() { 1i64 } else { -1i64 }
}

/// Counting non-loop edges is monotone, and each non-loop edge adds one.
proof fn lemma_loop_free_mono<N, W>(g: &Graph<N, W>, a: nat, b: nat)
    requires
        a <= b,
    ensures
        loop_free_count(g, a) <= loop_free_count(g, b),
        a < b && g.edges@[a as int].source != g.edges@[a as int].target ==> loop_free_count(g, a) < loop_free_count(g, b),
    decreases b,
{
    if a < b {
        lemma_loop_free_mono(g, a, (b - 1) as nat);
    }
}

/// At most `m` of the first `m` edges are non-loop.
proof fn lemma_loop_free_count_le<N, W>(g: &Graph<N, W>, m: nat)
    ensures
        loop_free_count(g, m) <= m,
    decreases m,
{
    if m > 0 {
        lemma_loop_free_count_le(g, (m - 1) as nat);
    }
}

/// The column index of the first `k` edges' non-loop count fits a `usize`.
proof fn lemma_col_fits<N, W>(g: &Graph<N, W>, k: nat)
    requires
        k <= g.edges@.len(),
    ensures
        loop_free_count(g, k) as usize as int == loop_free_count(g, k),
{
    assert(g.edges.len() == g.edges@.len());
    lemma_loop_free_count_le(g, k);
}

/// Merging at a coordinate ignores an appended entry elsewhere.
proof fn lemma_merged_push_other(prev: Seq<SparseEntry<IntRing>>, x: SparseEntry<IntRing>, r: usize, c: usize)
    requires
        !(x.row == r && x.col == c),
    ensures
        merged::<IntRing>(prev.push(x), r, c) == merged::<IntRing>(prev, r, c),
{
    assert(prev.push(x).drop_last() =~= prev);
}

/// Merging at the coordinate of an appended entry, with nothing there
/// before, gives its value.
proof fn lemma_merged_push_same(prev: Seq<SparseEntry<IntRing>>, x: SparseEntry<IntRing>)
    requires
        merged::<IntRing>(prev, x.row, x.col) is None,
    ensures
        merged::<IntRing>(prev.push(x), x.row, x.col) == Some(x.value@),
{
    assert(prev.push(x).drop_last() =~= prev);
}

/// No raw incidence entry of the first `m` edges lies at or beyond the
/// column count so far.
proof fn lemma_incidence_beyond<N, W>(g: &Graph<N, W>, m: nat, r: usize, c: usize)
    requires
        m <= g.edges@.len(),
        c >= loop_free_count(g, m),
    ensures
        merged::<IntRing>(incidence_entries(g, m), r, c) is None,
    decreases m,
{
    if m > 0 {
        let k = (m - 1) as nat;
        lemma_loop_free_mono(g, k, m);
        lemma_col_fits(g, k);
        lemma_incidence_beyond(g, k, r, c);
        let prev = incidence_entries(g, k);
        let e = g.edges@[m - 1];
        if e.source != e.target {
            let col = loop_free_count(g, k) as usize;
            let a = SparseEntry { row: e.source, col, value: IntRing(source_sign(g)) };
            let b = SparseEntry { row: e.target, col, value: IntRing(1i64) };
            assert(incidence_entries(g, m) == prev.push(a).push(b));
            lemma_merged_push_other(prev, a, r, c);
            lemma_merged_push_other(prev.push(a), b, r, c);
        }
    }
}

/// A non-loop edge's column holds its source sign at its source and `+1` at
/// its target.
proof fn lemma_incidence_edge<N, W>(g: &Graph<N, W>, m: nat, e: int)
    requires
        m <= g.edges@.len(),
        0 <= e < m,
        g.edges@[e].source != g.edges@[e].target,
    ensures
        merged::<IntRing>(incidence_entries(g, m), g.edges@[e].source, loop_free_count(g, e as nat) as usize) == Some(
            source_sign(g),
        ),
        merged::<IntRing>(incidence_entries(g, m), g.edges@[e].target, loop_free_count(g, e as nat) as usize) == Some(
            1i64,
        ),
    decreases m,
{
    let k = (m - 1) as nat;
    let prev = incidence_entries(g, k);
    let x = g.edges@[m - 1];
    let col = loop_free_count(g, k) as usize;
    let a = SparseEntry { row: x.source, col, value: IntRing(source_sign(g)) };
    let b = SparseEntry { row: x.target, col, value: IntRing(1i64) };
    let ce = loop_free_count(g, e as nat) as usize;
    lemma_col_fits(g, k);
    lemma_col_fits(g, e as nat);
    if e < m - 1 {
        lemma_incidence_edge(g, k, e);
        if x.source != x.target {
            lemma_loop_free_mono(g, e as nat, k);
            assert(incidence_entries(g, m) == prev.push(a).push(b));
            lemma_merged_push_other(prev, a, g.edges@[e].source, ce);
            lemma_merged_push_other(prev.push(a), b, g.edges@[e].source, ce);
            lemma_merged_push_other(prev, a, g.edges@[e].target, ce);
            lemma_merged_push_other(prev.push(a), b, g.edges@[e].target, ce);
        }
    } else {
        assert(incidence_entries(g, m) == prev.push(a).push(b));
        lemma_incidence_beyond(g, k, x.source, col);
        lemma_incidence_beyond(g, k, x.target, col);
        lemma_merged_push_same(prev, a);
        lemma_merged_push_other(prev.push(a), b, x.source, col);
        lemma_merged_push_other(prev, a, x.target, col);
        lemma_merged_push_same(prev.push(a), b);
    }
}

/// Every raw incidence value sits at an end of the non-loop edge owning its
/// column, with that end's sign.
proof fn lemma_incidence_owner<N, W>(g: &Graph<N, W>, m: nat, r: usize, c: usize) -> (e: int)
    requires
        m <= g.edges@.len(),
        merged::<IntRing>(incidence_entries(g, m), r, c) is Some,
    ensures
        0 <= e < m,
        g.edges@[e].source != g.edges@[e].target,
        loop_free_count(g, e as nat) == c,
        (r == g.edges@[e].source && merged::<IntRing>(incidence_entries(g, m), r, c) == Some(source_sign(g))) || (r
            == g.edges@[e].target && merged::<IntRing>(incidence_entries(g, m), r, c) == Some(1i64)),
    decreases m,
{
    let k = (m - 1) as nat;
    let prev = incidence_entries(g, k);
    let x = g.edges@[m - 1];
    let col = loop_free_count(g, k) as usize;
    let a = SparseEntry { row: x.source, col, value: IntRing(source_sign(g)) };
    let b = SparseEntry { row: x.target, col, value: IntRing(1i64) };
    lemma_col_fits(g, k);
    if x.source == x.target {
        assert(incidence_entries(g, m) == prev);
        lemma_incidence_owner(g, k, r, c)
    } else {
        assert(incidence_entries(g, m) == prev.push(a).push(b));
        if c == col && (r == x.source || r == x.target) {
            lemma_incidence_edge(g, m, m - 1);
            m - 1
        } else {
            lemma_merged_push_other(prev, a, r, c);
            lemma_merged_push_other(prev.push(a), b, r, c);
            lemma_incidence_owner(g, k, r, c)
        }
    }
}

/// Each stored entry of the incidence matrix lies in the column of a
/// non-loop edge `e` (its rank among the non-loop edges), at the edge's
/// source with `-1` when directed and `+1` when undirected, or at its target
/// with `+1`.
pub proof fn lemma_incidence_entry_owner<N, W>(g: &Graph<N, W>, s: SparseMatrix<IntRing>, t: int) -> (e: int)
    requires
        canonical_of::<IntRing>(s.entries@, incidence_entries(g, g.edges@.len())),
        0 <= t < s.entries@.len(),
    ensures
        0 <= e < g.edges@.len(),
        g.edges@[e].source != g.edges@[e].target,
        loop_free_count(g, e as nat) == s.entries@[t].col,
        (s.entries@[t].row == g.edges@[e].source && s.entries@[t].value == IntRing(source_sign(g))) || (
        s.entries@[t].row == g.edges@[e].target && s.entries@[t].value == IntRing(1i64)),
{
    let out = s.entries@;
    assert(merged::<IntRing>(incidence_entries(g, g.edges@.len()), out[t].row, out[t].col) == Some(out[t].value@));
    lemma_incidence_owner(g, g.edges@.len(), out[t].row, out[t].col)
}

/// A non-loop edge's column holds a stored entry at its source with the
/// source sign, and one at its target with `+1`.
proof fn lemma_incidence_edge_stored<N, W>(g: &Graph<N, W>, s: SparseMatrix<IntRing>, e: int) -> (ts: (int, int))
    requires
        canonical_of::<IntRing>(s.entries@, incidence_entries(g, g.edges@.len())),
        0 <= e < g.edges@.len(),
        g.edges@[e].source != g.edges@[e].target,
    ensures
        0 <= ts.0 < s.entries@.len(),
        s.entries@[ts.0].row == g.edges@[e].source,
        s.entries@[ts.0].col == loop_free_count(g, e as nat),
        s.entries@[ts.0].value == IntRing(source_sign(g)),
        0 <= ts.1 < s.entries@.len(),
        s.entries@[ts.1].row == g.edges@[e].target,
        s.entries@[ts.1].col == loop_free_count(g, e as nat),
        s.entries@[ts.1].value == IntRing(1i64),
{
    let len = g.edges@.len();
    let raw = incidence_entries(g, len);
    let out = s.entries@;
    let col = loop_free_count(g, e as nat) as usize;
    lemma_col_fits(g, e as nat);
    lemma_incidence_edge(g, len, e);
    assert(merged::<IntRing>(raw, g.edges@[e].source, col) == Some(source_sign(g)));
    assert(merged::<IntRing>(raw, g.edges@[e].target, col) == Some(1i64));
    let t1 = choose|t: int| 0 <= t < out.len() && out[t].row == g.edges@[e].source && out[t].col == col;
    let t2 = choose|t: int| 0 <= t < out.len() && out[t].row == g.edges@[e].target && out[t].col == col;
    assert(merged::<IntRing>(raw, out[t1].row, out[t1].col) == Some(out[t1].value@));
    assert(merged::<IntRing>(raw, out[t2].row, out[t2].col) == Some(out[t2].value@));
    (t1, t2)
}

/// In an undirected incidence matrix every stored entry is `+1`.
proof fn lemma_incidence_undirected_positive<N, W>(g: &Graph<N, W>, s: SparseMatrix<IntRing>)
    requires
        canonical_of::<IntRing>(s.entries@, incidence_entries(g, g.edges@.len())),
    ensures
        g.undirected() ==> forall|t: int| 0 <= t < s.entries@.len() ==> (#[trigger] s.entries@[t]).value == IntRing(1i64),
{
    assert forall|t: int| g.undirected() && 0 <= t < s.entries@.len() implies (#[trigger] s.entries@[t]).value
        == IntRing(1i64) by {
        let e = lemma_incidence_entry_owner(g, s, t);
    }
}

/// Every non-loop edge's column holds both of its ends.
proof fn lemma_incidence_edges_stored<N, W>(g: &Graph<N, W>, s: SparseMatrix<IntRing>)
    requires
        canonical_of::<IntRing>(s.entries@, incidence_entries(g, g.edges@.len())),
    ensures
        forall|e: int|
            0 <= e < g.edges@.len() && g.edges@[e].source != g.edges@[e].target ==> (exists|t: int|
                0 <= t < s.entries@.len() && (#[trigger] s.entries@[t]).row == g.edges@[e].source && s.entries@[t].col
                    == loop_free_count(g, e as nat) && s.entries@[t].value == IntRing(
                    if g.undirected() { 1i64 } else { -1i64 },
                )) && (exists|t: int|
                0 <= t < s.entries@.len() && (#[trigger] s.entries@[t]).row == g.edges@[e].target && s.entries@[t].col
                    == loop_free_count(g, e as nat) && s.entries@[t].value == IntRing(1i64)),
{
    assert forall|e: int| 0 <= e < g.edges@.len() && g.edges@[e].source != g.edges@[e].target implies (exists|t: int|
        0 <= t < s.entries@.len() && (#[trigger] s.entries@[t]).row == g.edges@[e].source && s.entries@[t].col
            == loop_free_count(g, e as nat) && s.entries@[t].value == IntRing(
            if g.undirected() { 1i64 } else { -1i64 },
        )) && (exists|t: int|
        0 <= t < s.entries@.len() && (#[trigger] s.entries@[t]).row == g.edges@[e].target && s.entries@[t].col
            == loop_free_count(g, e as nat) && s.entries@[t].value == IntRing(1i64)) by {
        let ts = lemma_incidence_edge_stored(g, s, e);
    }
}

/// Each non-loop edge's column (its rank among the non-loop edges) holds
/// `+1` at both of its ends when the graph is undirected, and `-1` at its
/// source and `+1` at its target when directed; in an undirected incidence
/// matrix every stored entry is `+1`.
pub proof fn lemma_incidence_signs<N, W>(g: &Graph<N, W>, s: SparseMatrix<IntRing>)
    requires
        g.valid(),
        canonical_of::<IntRing>(s.entries@, incidence_entries(g, g.edges@.len())),
    ensures
        g.undirected() ==> forall|t: int| 0 <= t < s.entries@.len() ==> (#[trigger] s.entries@[t]).value == IntRing(1i64),
        forall|e: int|
            0 <= e < g.edges@.len() && g.edges@[e].source != g.edges@[e].target ==> (exists|t: int|
                0 <= t < s.entries@.len() && (#[trigger] s.entries@[t]).row == g.edges@[e].source && s.entries@[t].col
                    == loop_free_count(g, e as nat) && s.entries@[t].value == IntRing(
                    if g.undirected() { 1i64 } else { -1i64 },
                )) && (exists|t: int|
                0 <= t < s.entries@.len() && (#[trigger] s.entries@[t]).row == g.edges@[e].target && s.entries@[t].col
                    == loop_free_count(g, e as nat) && s.entries@[t].value == IntRing(1i64)),
{
    lemma_incidence_undirected_positive(g, s);
    lemma_incidence_edges_stored(g, s);
}

} // verus!
