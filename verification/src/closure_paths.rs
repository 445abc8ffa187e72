//! The min-plus Kleene closure of a graph's adjacency holds its least walk
//! weights: with non-negative weights, each cell bounds every walk between
//! its nodes from below and is the weight of such a walk unless it saturated
//! at `i64::MAX`. All-pairs shortest paths are derived from the closure, not
//! re-implemented, and agree with Dijkstra's distances.

use crate::certificate::min_weight_upto;
use crate::graph::Graph;
use crate::matrix::{closure_model, lemma_cell_div_mod, lemma_cell_index, lemma_split_index, pivots_upto};
use crate::path::{i64_weight, is_shortest_u64, lemma_shortest_u64_is_least, minplus_upto, u64_weight, walk, PathResult};
use crate::semiring::{sat_add, MinPlus, Semiring};
use vstd::prelude::*;

verus! {

/// Every edge weight is non-negative.
pub open spec fn weights_nonneg<N>(g: &Graph<N, i64>) -> bool {
    forall|e: int| 0 <= e < g.edges@.len() ==> #[trigger] g.edges@[e].weight >= 0
}

/// What the lightest weight among the first `m` edges from `u` to `v` is.
proof fn lemma_min_weight_upto<N>(g: &Graph<N, i64>, u: int, v: int, m: nat)
    requires
        m <= g.edges@.len(),
    ensures
        min_weight_upto(g, u, v, m) matches Some(w) ==> exists|e: int|
            0 <= e < m && #[trigger] g.edge_joins(e, u, v) && g.edges@[e].weight == w,
        forall|e: int|
            0 <= e < m && #[trigger] g.edge_joins(e, u, v) ==> (min_weight_upto(g, u, v, m) matches Some(w) && w
                <= g.edges@[e].weight),
    decreases m,
{
    if m > 0 {
        lemma_min_weight_upto(g, u, v, (m - 1) as nat);
        if min_weight_upto(g, u, v, (m - 1) as nat) is Some && !g.edge_joins(m - 1, u, v) {
            let e = choose|e: int|
                0 <= e < m - 1 && #[trigger] g.edge_joins(e, u, v) && g.edges@[e].weight == min_weight_upto(
                    g,
                    u,
                    v,
                    (m - 1) as nat,
                )->0;
            assert(g.edge_joins(e, u, v));
        }
        if min_weight_upto(g, u, v, (m - 1) as nat) is Some && g.edge_joins(m - 1, u, v) {
            let x = min_weight_upto(g, u, v, (m - 1) as nat)->0;
            if x <= g.edges@[m - 1].weight {
                let e = choose|e: int| 0 <= e < m - 1 && #[trigger] g.edge_joins(e, u, v) && g.edges@[e].weight == x;
                assert(g.edge_joins(e, u, v));
            }
        }
    }
}

/// A cell of the min-plus adjacency is the lightest joining weight.
proof fn lemma_minplus_cell<N>(g: &Graph<N, i64>, m: nat, u: int, v: int)
    requires
        g.valid(),
        m <= g.edges@.len(),
        0 <= u < g.n(),
        0 <= v < g.n(),
    ensures
        minplus_upto(g, m).len() == g.n() * g.n(),
        minplus_upto(g, m)[u * g.n() + v] == match min_weight_upto(g, u, v, m) {
            Some(w) => MinPlus::Fin(w),
            None => MinPlus::Inf,
        },
    decreases m,
{
    let n = g.n();
    lemma_cell_index(u, v, n as int, n as int);
    lemma_cell_div_mod(u, v, n as int);
    if m > 0 {
        lemma_minplus_cell(g, (m - 1) as nat, u, v);
        lemma_minplus_len(g, (m - 1) as nat);
        let e = g.edges@[m - 1];
        assert(g.edge_ok(m - 1));
        lemma_cell_index(e.source as int, e.target as int, n as int, n as int);
        lemma_cell_index(e.target as int, e.source as int, n as int, n as int);
        lemma_cell_div_mod(e.source as int, e.target as int, n as int);
        lemma_cell_div_mod(e.target as int, e.source as int, n as int);
    } else {
        assert(minplus_upto(g, 0)[u * n + v] == MinPlus::Inf);
    }
}

/// The min-plus adjacency has one cell per pair of nodes.
proof fn lemma_minplus_len<N>(g: &Graph<N, i64>, m: nat)
    requires
        g.valid(),
        m <= g.edges@.len(),
    ensures
        minplus_upto(g, m).len() == g.n() * g.n(),
    decreases m,
{
    if m > 0 {
        lemma_minplus_len(g, (m - 1) as nat);
        let n = g.n();
        let e = g.edges@[m - 1];
        assert(g.edge_ok(m - 1));
        lemma_cell_index(e.source as int, e.target as int, n as int, n as int);
        lemma_cell_index(e.target as int, e.source as int, n as int, n as int);
    }
}

/// Every finite cell is non-negative.
pub open spec fn mp_nonneg(c: Seq<MinPlus>) -> bool {
    forall|x: int| 0 <= x < c.len() ==> (#[trigger] c[x] matches MinPlus::Fin(v) ==> v >= 0)
}

/// Pivoting keeps non-negative cells non-negative and never diverges; the
/// pivot on `k - 1` takes each cell to the lesser of itself and the route
/// through `k - 1`.
proof fn lemma_pivots_nonneg(a: Seq<MinPlus>, n: nat, k: nat)
    requires
        a.len() == n * n,
        mp_nonneg(a),
        k <= n,
    ensures
        pivots_upto::<MinPlus>(a, n, k) is Some,
        pivots_upto::<MinPlus>(a, n, k)->0.len() == n * n,
        mp_nonneg(pivots_upto::<MinPlus>(a, n, k)->0),
        k > 0 ==> forall|i: int, j: int|
            0 <= i < n && 0 <= j < n ==> #[trigger] pivots_upto::<MinPlus>(a, n, k)->0[i * n + j] == MinPlus::add_v(
                pivots_upto::<MinPlus>(a, n, (k - 1) as nat)->0[i * n + j],
                MinPlus::mul_v(
                    pivots_upto::<MinPlus>(a, n, (k - 1) as nat)->0[i * n + (k - 1)],
                    pivots_upto::<MinPlus>(a, n, (k - 1) as nat)->0[(k - 1) * n + j],
                ),
            ),
    decreases k,
{
    if k > 0 {
        let kk = (k - 1) as nat;
        lemma_pivots_nonneg(a, n, kk);
        let c0 = pivots_upto::<MinPlus>(a, n, kk)->0;
        lemma_cell_index(kk as int, kk as int, n as int, n as int);
        assert(MinPlus::star_v(c0[(kk * n + kk) as int]) == Some(MinPlus::Fin(0)));
        let c = pivots_upto::<MinPlus>(a, n, k)->0;
        assert forall|i: int, j: int| 0 <= i < n && 0 <= j < n implies #[trigger] c[i * n + j] == MinPlus::add_v(
            c0[i * n + j],
            MinPlus::mul_v(c0[i * n + kk], c0[kk * n + j]),
        ) by {
            lemma_cell_index(i, j, n as int, n as int);
            lemma_cell_div_mod(i, j, n as int);
            lemma_cell_index(i, kk as int, n as int, n as int);
            lemma_cell_index(kk as int, j, n as int, n as int);
            let x = c0[i * n + kk];
            if let MinPlus::Fin(v) = x {
                assert(v >= 0);
                assert(MinPlus::mul_v(x, MinPlus::Fin(0)) == x);
            }
        }
        assert forall|x: int| 0 <= x < c.len() implies (#[trigger] c[x] matches MinPlus::Fin(v) ==> v >= 0) by {
            lemma_split_index(x, n as int, n as int);
            let i = x / (n as int);
            let j = x % (n as int);
            assert(c[i * n + j] == c[x]);
            lemma_cell_index(i, kk as int, n as int, n as int);
            lemma_cell_index(kk as int, j, n as int, n as int);
        }
    }
}

/// `w` visits nodes of `g` along the edges `ids`: hop `t` takes edge
/// `ids[t]` from `w[t]` to `w[t + 1]`.
pub open spec fn edge_walk<N>(g: &Graph<N, i64>, w: Seq<int>, ids: Seq<int>) -> bool {
    &&& w.len() == ids.len() + 1
    &&& 0 <= w[0] < g.n()
    &&& forall|t: int| 0 <= t < ids.len() ==> 0 <= #[trigger] ids[t] < g.edges@.len() && g.edge_joins(ids[t], w[t], w[t + 1])
}

/// The total weight of the edges `ids`.
pub open spec fn edge_cost<N>(g: &Graph<N, i64>, ids: Seq<int>) -> int
    decreases ids.len(),
{
    if ids.len() == 0 {
        0
    } else {
        edge_cost(g, ids.drop_last()) + g.edges@[ids.last()].weight
    }
}

/// Every node strictly inside `w` is below `k`.
pub open spec fn inner_below(w: Seq<int>, k: int) -> bool {
    forall|t: int| 0 < t < w.len() - 1 ==> #[trigger] w[t] < k
}

/// The nodes of a walk in a valid graph are nodes.
proof fn lemma_walk_nodes<N>(g: &Graph<N, i64>, w: Seq<int>, ids: Seq<int>)
    requires
        g.valid(),
        edge_walk(g, w, ids),
    ensures
        forall|t: int| 0 <= t < w.len() ==> 0 <= #[trigger] w[t] < g.n(),
{
    assert forall|t: int| 0 <= t < w.len() implies 0 <= #[trigger] w[t] < g.n() by {
        if t > 0 {
            assert(g.edge_joins(ids[t - 1], w[t - 1], w[t - 1 + 1]));
            assert(g.edge_ok(ids[t - 1]));
        }
    }
}

/// Costs add over a split of the edge list.
proof fn lemma_cost_split<N>(g: &Graph<N, i64>, ids: Seq<int>, p: int)
    requires
        0 <= p <= ids.len(),
    ensures
        edge_cost(g, ids) == edge_cost(g, ids.subrange(0, p)) + edge_cost(g, ids.subrange(p, ids.len() as int)),
    decreases ids.len(),
{
    if p < ids.len() {
        lemma_cost_split(g, ids.drop_last(), p);
        assert(ids.drop_last().subrange(0, p) =~= ids.subrange(0, p));
        assert(ids.subrange(p, ids.len() as int).drop_last() =~= ids.drop_last().subrange(p, ids.len() - 1));
    } else {
        assert(ids.subrange(0, p) =~= ids);
    }
}

/// With non-negative weights every cost is non-negative.
proof fn lemma_cost_nonneg<N>(g: &Graph<N, i64>, ids: Seq<int>)
    requires
        weights_nonneg(g),
        forall|t: int| 0 <= t < ids.len() ==> 0 <= #[trigger] ids[t] < g.edges@.len(),
    ensures
        edge_cost(g, ids) >= 0,
    decreases ids.len(),
{
    if ids.len() > 0 {
        lemma_cost_nonneg(g, ids.drop_last());
        assert(g.edges@[ids.last()].weight >= 0);
    }
}

/// The pivot cells bound walks from below: after pivoting on `0..k`, the
/// cell of a walk's ends is finite and at most its cost when every inner
/// node is below `k`.
proof fn lemma_pivot_lower<N>(g: &Graph<N, i64>, k: nat, w: Seq<int>, ids: Seq<int>)
    requires
        g.valid(),
        weights_nonneg(g),
        k <= g.n(),
        edge_walk(g, w, ids),
        ids.len() >= 1,
        inner_below(w, k as int),
    ensures
        pivots_upto::<MinPlus>(minplus_upto(g, g.edges@.len()), g.n(), k)->0[w[0] * g.n() + w.last()] matches MinPlus::Fin(
            x,
        ) && x <= edge_cost(g, ids),
    decreases k, w.len(),
{
    let n = g.n();
    let a = minplus_upto(g, g.edges@.len());
    lemma_minplus_len(g, g.edges@.len());
    lemma_a_nonneg(g);
    lemma_pivots_nonneg(a, n, k);
    lemma_walk_nodes(g, w, ids);
    let i = w[0];
    let j = w.last();
    let c = pivots_upto::<MinPlus>(a, n, k)->0;
    if k == 0 {
        assert(w.len() == 2) by {
            if w.len() > 2 {
                assert(w[1] < 0);
            }
        }
        assert(g.edge_joins(ids[0], w[0], w[1]));
        lemma_min_weight_upto(g, i, j, g.edges@.len());
        lemma_minplus_cell(g, g.edges@.len(), i, j);
        assert(ids.len() == 1);
        assert(ids.drop_last() =~= Seq::<int>::empty());
        assert(edge_cost(g, ids.drop_last()) == 0);
        assert(ids.last() == ids[0]);
        assert(edge_cost(g, ids) == g.edges@[ids[0]].weight);
        assert(c == a);
        assert(c[i * n + j] matches MinPlus::Fin(x) && x <= edge_cost(g, ids));
    } else {
        let kk = k - 1;
        let c0 = pivots_upto::<MinPlus>(a, n, (k - 1) as nat)->0;
        lemma_pivots_nonneg(a, n, (k - 1) as nat);
        if exists|p: int| 0 < p < w.len() - 1 && w[p] == kk {
            let p = choose|p: int| 0 < p < w.len() - 1 && w[p] == kk;
            let w1 = w.subrange(0, p + 1);
            let ids1 = ids.subrange(0, p);
            let w2 = w.subrange(p, w.len() as int);
            let ids2 = ids.subrange(p, ids.len() as int);
            assert(edge_walk(g, w1, ids1)) by {
                assert forall|t: int| 0 <= t < ids1.len() implies 0 <= #[trigger] ids1[t] < g.edges@.len() && g.edge_joins(ids1[t], w1[t], w1[t + 1]) by {
                    assert(ids1[t] == ids[t] && w1[t] == w[t] && w1[t + 1] == w[t + 1]);
                }
            }
            assert(edge_walk(g, w2, ids2)) by {
                assert forall|t: int| 0 <= t < ids2.len() implies 0 <= #[trigger] ids2[t] < g.edges@.len() && g.edge_joins(ids2[t], w2[t], w2[t + 1]) by {
                    assert(ids2[t] == ids[p + t] && w2[t] == w[p + t] && w2[t + 1] == w[p + t + 1]);
                }
            }
            assert(inner_below(w1, k as int)) by {
                assert forall|t: int| 0 < t < w1.len() - 1 implies #[trigger] w1[t] < k by {
                    assert(w1[t] == w[t]);
                }
            }
            assert(inner_below(w2, k as int)) by {
                assert forall|t: int| 0 < t < w2.len() - 1 implies #[trigger] w2[t] < k by {
                    assert(w2[t] == w[p + t]);
                }
            }
            lemma_pivot_lower(g, k, w1, ids1);
            lemma_pivot_lower(g, k, w2, ids2);
            lemma_cost_split(g, ids, p);
            assert(w1[0] == i && w1.last() == kk && w2[0] == kk && w2.last() == j);
            lemma_cell_index(i, kk, n as int, n as int);
            lemma_cell_index(kk, j, n as int, n as int);
            lemma_cell_index(kk, kk, n as int, n as int);
            lemma_cell_index(i, j, n as int, n as int);
            // Pivoting on `kk` leaves the cells into and out of `kk` alone.
            assert(c[i * n + kk] == c0[i * n + kk]) by {
                if let MinPlus::Fin(y) = c0[kk * n + kk] {
                    assert(y >= 0);
                }
            }
            assert(c[kk * n + j] == c0[kk * n + j]) by {
                if let MinPlus::Fin(y) = c0[kk * n + kk] {
                    assert(y >= 0);
                }
            }
            let x1 = c[i * n + kk]->Fin_0;
            let x2 = c[kk * n + j]->Fin_0;
            assert(c[i * n + j] == MinPlus::add_v(c0[i * n + j], MinPlus::mul_v(c0[i * n + kk], c0[kk * n + j])));
            assert(MinPlus::mul_v(c0[i * n + kk], c0[kk * n + j]) == MinPlus::Fin(sat_add(x1, x2)));
            assert(sat_add(x1, x2) <= x1 + x2);
            assert(c[i * n + j] matches MinPlus::Fin(x) && x <= sat_add(x1, x2));
        } else {
            assert(inner_below(w, kk as int)) by {
                assert forall|t: int| 0 < t < w.len() - 1 implies #[trigger] w[t] < kk by {
                    assert(w[t] < k);
                    assert(w[t] != kk);
                }
            }
            lemma_pivot_lower(g, (k - 1) as nat, w, ids);
            lemma_cell_index(i, j, n as int, n as int);
            lemma_cell_index(i, kk, n as int, n as int);
            lemma_cell_index(kk, j, n as int, n as int);
            assert(c[i * n + j] == MinPlus::add_v(c0[i * n + j], MinPlus::mul_v(c0[i * n + kk], c0[kk * n + j])));
        }
    }
}

/// The min-plus adjacency of a graph with non-negative weights is
/// non-negative.
proof fn lemma_a_nonneg<N>(g: &Graph<N, i64>)
    requires
        g.valid(),
        weights_nonneg(g),
    ensures
        mp_nonneg(minplus_upto(g, g.edges@.len())),
{
    let n = g.n();
    let a = minplus_upto(g, g.edges@.len());
    lemma_minplus_len(g, g.edges@.len());
    assert forall|x: int| 0 <= x < a.len() implies (#[trigger] a[x] matches MinPlus::Fin(v) ==> v >= 0) by {
        lemma_split_index(x, n as int, n as int);
        let u = x / (n as int);
        let v = x % (n as int);
        lemma_minplus_cell(g, g.edges@.len(), u, v);
        lemma_min_weight_upto(g, u, v, g.edges@.len());
        if let Some(wt) = min_weight_upto(g, u, v, g.edges@.len()) {
            let e = choose|e: int| 0 <= e < g.edges@.len() && #[trigger] g.edge_joins(e, u, v) && g.edges@[e].weight == wt;
            assert(g.edges@[e].weight >= 0);
        }
    }
}

/// Joining two walks at a shared node gives a walk whose cost is the sum.
proof fn lemma_concat<N>(g: &Graph<N, i64>, w1: Seq<int>, ids1: Seq<int>, w2: Seq<int>, ids2: Seq<int>) -> (r: (
    Seq<int>,
    Seq<int>,
))
    requires
        edge_walk(g, w1, ids1),
        edge_walk(g, w2, ids2),
        w1.last() == w2[0],
    ensures
        edge_walk(g, r.0, r.1),
        r.0 == w1 + w2.subrange(1, w2.len() as int),
        r.1 == ids1 + ids2,
        edge_cost(g, r.1) == edge_cost(g, ids1) + edge_cost(g, ids2),
{
    let w = w1 + w2.subrange(1, w2.len() as int);
    let ids = ids1 + ids2;
    let l = ids1.len() as int;
    assert forall|t: int| 0 <= t < ids.len() implies 0 <= #[trigger] ids[t] < g.edges@.len() && g.edge_joins(ids[t], w[t], w[t + 1]) by {
        if t < l {
            assert(ids[t] == ids1[t] && w[t] == w1[t] && w[t + 1] == w1[t + 1]);
        } else {
            assert(ids[t] == ids2[t - l]);
            assert(w[t + 1] == w2[t - l + 1]);
            if t == l {
                assert(w[t] == w1[l]);
            } else {
                assert(w[t] == w2[t - l]);
            }
        }
    }
    lemma_cost_split(g, ids, l);
    assert(ids.subrange(0, l) =~= ids1);
    assert(ids.subrange(l, ids.len() as int) =~= ids2);
    (w, ids)
}

/// Finite pivot cells are the costs of walks: after pivoting on `0..k`, a
/// finite cell `x` of `(i, j)` has a walk from `i` to `j` with inner nodes
/// below `k` costing at least `x`, and exactly `x` unless `x` saturated at
/// `i64::MAX`.
proof fn lemma_pivot_attained<N>(g: &Graph<N, i64>, k: nat, i: int, j: int) -> (r: (Seq<int>, Seq<int>))
    requires
        g.valid(),
        weights_nonneg(g),
        k <= g.n(),
        0 <= i < g.n(),
        0 <= j < g.n(),
        pivots_upto::<MinPlus>(minplus_upto(g, g.edges@.len()), g.n(), k)->0[i * g.n() + j] is Fin,
    ensures
        edge_walk(g, r.0, r.1),
        r.1.len() >= 1,
        r.0[0] == i,
        r.0.last() == j,
        inner_below(r.0, k as int),
        ({
            let x = pivots_upto::<MinPlus>(minplus_upto(g, g.edges@.len()), g.n(), k)->0[i * g.n() + j]->Fin_0;
            edge_cost(g, r.1) >= x && (x < i64::MAX ==> edge_cost(g, r.1) == x)
        }),
    decreases k,
{
    let n = g.n();
    let a = minplus_upto(g, g.edges@.len());
    lemma_minplus_len(g, g.edges@.len());
    lemma_a_nonneg(g);
    lemma_pivots_nonneg(a, n, k);
    let c = pivots_upto::<MinPlus>(a, n, k)->0;
    lemma_cell_index(i, j, n as int, n as int);
    let x = c[i * n + j]->Fin_0;
    if k == 0 {
        lemma_minplus_cell(g, g.edges@.len(), i, j);
        lemma_min_weight_upto(g, i, j, g.edges@.len());
        let e = choose|e: int| 0 <= e < g.edges@.len() && #[trigger] g.edge_joins(e, i, j) && g.edges@[e].weight == x;
        let w = seq![i, j];
        let ids = seq![e];
        assert(ids.drop_last() =~= Seq::<int>::empty());
        assert(edge_cost(g, ids.drop_last()) == 0);
        assert(edge_walk(g, w, ids));
        (w, ids)
    } else {
        let kk = k - 1;
        lemma_pivots_nonneg(a, n, (k - 1) as nat);
        let c0 = pivots_upto::<MinPlus>(a, n, (k - 1) as nat)->0;
        lemma_cell_index(i, kk, n as int, n as int);
        lemma_cell_index(kk, j, n as int, n as int);
        assert(c[i * n + j] == MinPlus::add_v(c0[i * n + j], MinPlus::mul_v(c0[i * n + kk], c0[kk * n + j])));
        if c[i * n + j] == c0[i * n + j] {
            let (w, ids) = lemma_pivot_attained(g, (k - 1) as nat, i, j);
            assert(inner_below(w, k as int));
            (w, ids)
        } else {
            let (w1, ids1) = lemma_pivot_attained(g, (k - 1) as nat, i, kk);
            let (w2, ids2) = lemma_pivot_attained(g, (k - 1) as nat, kk, j);
            let x1 = c0[i * n + kk]->Fin_0;
            let x2 = c0[kk * n + j]->Fin_0;
            assert(x1 >= 0 && x2 >= 0);
            assert(x == sat_add(x1, x2));
            let (w, ids) = lemma_concat(g, w1, ids1, w2, ids2);
            assert(inner_below(w, k as int)) by {
                assert forall|t: int| 0 < t < w.len() - 1 implies #[trigger] w[t] < k by {
                    if t < w1.len() - 1 {
                        assert(w[t] == w1[t]);
                    } else if t == w1.len() - 1 {
                        assert(w[t] == w1.last());
                    } else {
                        assert(w[t] == w2[t - w1.len() + 1]);
                    }
                }
            }
            assert(w[0] == w1[0]);
            assert(w.last() == w2.last());
            (w, ids)
        }
    }
}

/// An explicit walk is a walk of as many arcs, weighing its cost.
proof fn lemma_edge_walk_is_walk<N>(g: &Graph<N, i64>, w: Seq<int>, ids: Seq<int>)
    requires
        edge_walk(g, w, ids),
    ensures
        walk(g, i64_weight(), w[0], w.last(), edge_cost(g, ids), ids.len()),
    decreases ids.len(),
{
    if ids.len() > 0 {
        let l = ids.len() as int;
        let w1 = w.drop_last();
        let ids1 = ids.drop_last();
        assert(edge_walk(g, w1, ids1)) by {
            assert forall|t: int| 0 <= t < ids1.len() implies 0 <= #[trigger] ids1[t] < g.edges@.len() && g.edge_joins(ids1[t], w1[t], w1[t + 1]) by {
                assert(ids1[t] == ids[t] && w1[t] == w[t] && w1[t + 1] == w[t + 1]);
            }
        }
        lemma_edge_walk_is_walk(g, w1, ids1);
        let e = ids[l - 1];
        assert(g.edge_joins(e, w[l - 1], w[l]));
        assert(w1.last() == w[l - 1]);
        assert(edge_cost(g, ids) - (i64_weight())(g.edges@[e].weight) == edge_cost(g, ids1));
    }
}

/// A walk of at most `k` arcs is an explicit walk of at most `k` edges with
/// its weight as cost.
proof fn lemma_walk_is_edge_walk<N>(g: &Graph<N, i64>, s: int, v: int, d: int, k: nat) -> (r: (Seq<int>, Seq<int>))
    requires
        0 <= s < g.n(),
        walk(g, i64_weight(), s, v, d, k),
    ensures
        edge_walk(g, r.0, r.1),
        r.0[0] == s,
        r.0.last() == v,
        edge_cost(g, r.1) == d,
        r.1.len() <= k,
    decreases k,
{
    if k == 0 {
        let w = seq![s];
        let ids = Seq::<int>::empty();
        (w, ids)
    } else if walk(g, i64_weight(), s, v, d, (k - 1) as nat) {
        lemma_walk_is_edge_walk(g, s, v, d, (k - 1) as nat)
    } else {
        let (u, e) = choose|u: int, e: int|
            0 <= e < g.edges@.len() && #[trigger] g.edge_joins(e, u, v) && walk(
                g,
                i64_weight(),
                s,
                u,
                d - (i64_weight())(g.edges@[e].weight),
                (k - 1) as nat,
            );
        let (w1, ids1) = lemma_walk_is_edge_walk(g, s, u, d - g.edges@[e].weight, (k - 1) as nat);
        let w = w1.push(v);
        let ids = ids1.push(e);
        assert(ids.drop_last() =~= ids1);
        assert forall|t: int| 0 <= t < ids.len() implies 0 <= #[trigger] ids[t] < g.edges@.len() && g.edge_joins(ids[t], w[t], w[t + 1]) by {
            if t < ids1.len() {
                assert(ids[t] == ids1[t] && w[t] == w1[t] && w[t + 1] == w1[t + 1]);
            } else {
                assert(w[t] == w1.last());
            }
        }
        (w, ids)
    }
}

/// The min-plus closure of a graph's adjacency holds its least walk
/// weights: with non-negative weights the closure exists, and the cell of
/// `(i, j)` is finite and at most the weight of every walk from `i` to `j`
/// (`0` when `i == j`); a finite cell is the weight of some walk from `i` to
/// `j`, unless it saturated at `i64::MAX`, where that walk weighs at least
/// `i64::MAX`. `all_pairs_shortest_paths` returns this closure.
pub proof fn lemma_all_pairs_least_walks<N>(g: &Graph<N, i64>, i: int, j: int, d: int, k: nat)
    requires
        g.valid(),
        weights_nonneg(g),
        0 <= i < g.n(),
        0 <= j < g.n(),
    ensures
        closure_model::<MinPlus>(minplus_upto(g, g.edges@.len()), g.n()) is Some,
        walk(g, i64_weight(), i, j, d, k) ==> (closure_model::<MinPlus>(minplus_upto(g, g.edges@.len()), g.n())->0[i
            * g.n() + j] matches MinPlus::Fin(x) && x <= d),
        closure_model::<MinPlus>(minplus_upto(g, g.edges@.len()), g.n())->0[i * g.n() + j] matches MinPlus::Fin(x)
            ==> exists|d2: int, k2: nat| #[trigger] walk(g, i64_weight(), i, j, d2, k2) && d2 >= x && (x < i64::MAX
            ==> d2 == x),
{
    let n = g.n();
    let a = minplus_upto(g, g.edges@.len());
    lemma_minplus_len(g, g.edges@.len());
    lemma_a_nonneg(g);
    lemma_pivots_nonneg(a, n, n);
    let p = pivots_upto::<MinPlus>(a, n, n)->0;
    let c = closure_model::<MinPlus>(a, n)->0;
    lemma_cell_index(i, j, n as int, n as int);
    lemma_cell_div_mod(i, j, n as int);
    if i == j {
        assert(c[i * n + j] == MinPlus::Fin(0)) by {
            if let MinPlus::Fin(y) = p[i * n + j] {
                assert(y >= 0);
            }
        }
        if walk(g, i64_weight(), i, j, d, k) {
            let (w, ids) = lemma_walk_is_edge_walk(g, i, j, d, k);
            lemma_cost_nonneg(g, ids);
        }
        assert(walk(g, i64_weight(), i, j, 0, 0));
    } else {
        assert(c[i * n + j] == p[i * n + j]);
        if walk(g, i64_weight(), i, j, d, k) {
            let (w, ids) = lemma_walk_is_edge_walk(g, i, j, d, k);
            lemma_walk_nodes(g, w, ids);
            assert(inner_below(w, n as int));
            lemma_pivot_lower(g, n, w, ids);
        }
        if p[i * n + j] is Fin {
            let (w, ids) = lemma_pivot_attained(g, n, i, j);
            lemma_edge_walk_is_walk(g, w, ids);
        }
    }
}

/// `gi` and `gu` have the same nodes, kind and edge endpoints, and equal
/// weights.
pub open spec fn same_graph_weights<N, M>(gi: &Graph<N, i64>, gu: &Graph<M, u64>) -> bool {
    &&& gi.n() == gu.n()
    &&& gi.undirected() == gu.undirected()
    &&& gi.edges@.len() == gu.edges@.len()
    &&& forall|e: int|
        0 <= e < gi.edges@.len() ==> (#[trigger] gi.edges@[e]).source == gu.edges@[e].source && gi.edges@[e].target
            == gu.edges@[e].target && gi.edges@[e].weight == gu.edges@[e].weight
}

/// Walks read the same in both graphs.
proof fn lemma_walk_transfer<N, M>(gi: &Graph<N, i64>, gu: &Graph<M, u64>, s: int, v: int, d: int, k: nat)
    requires
        same_graph_weights(gi, gu),
    ensures
        walk(gi, i64_weight(), s, v, d, k) <==> walk(gu, u64_weight(), s, v, d, k),
    decreases k,
{
    if k > 0 {
        assert forall|u: int, dd: int| #[trigger] walk(gi, i64_weight(), s, u, dd, (k - 1) as nat) <==> walk(
            gu,
            u64_weight(),
            s,
            u,
            dd,
            (k - 1) as nat,
        ) by {
            lemma_walk_transfer(gi, gu, s, u, dd, (k - 1) as nat);
        }
        assert forall|e: int, u: int| 0 <= e < gi.edges@.len() implies (#[trigger] gi.edge_joins(e, u, v) <==> gu.edge_joins(
            e,
            u,
            v,
        )) && (i64_weight())(gi.edges@[e].weight) == (u64_weight())(gu.edges@[e].weight) by {
            assert(gi.edges@[e].source == gu.edges@[e].source);
        }
        lemma_walk_transfer(gi, gu, s, v, d, (k - 1) as nat);
        if walk(gi, i64_weight(), s, v, d, k) && !walk(gi, i64_weight(), s, v, d, (k - 1) as nat) {
            let (u, e) = choose|u: int, e: int|
                0 <= e < gi.edges@.len() && #[trigger] gi.edge_joins(e, u, v) && walk(
                    gi,
                    i64_weight(),
                    s,
                    u,
                    d - (i64_weight())(gi.edges@[e].weight),
                    (k - 1) as nat,
                );
            assert(gi.edges@[e].source == gu.edges@[e].source);
            assert(gu.edge_joins(e, u, v));
            let dd = d - gi.edges@[e].weight;
            lemma_walk_transfer(gi, gu, s, u, dd, (k - 1) as nat);
            assert(d - (u64_weight())(gu.edges@[e].weight) == dd);
            assert(walk(gu, u64_weight(), s, v, d, k));
        }
        if walk(gu, u64_weight(), s, v, d, k) && !walk(gu, u64_weight(), s, v, d, (k - 1) as nat) {
            let (u, e) = choose|u: int, e: int|
                0 <= e < gu.edges@.len() && #[trigger] gu.edge_joins(e, u, v) && walk(
                    gu,
                    u64_weight(),
                    s,
                    u,
                    d - (u64_weight())(gu.edges@[e].weight),
                    (k - 1) as nat,
                );
            assert(gi.edges@[e].source == gu.edges@[e].source);
            assert(gi.edge_joins(e, u, v));
            let dd = d - gu.edges@[e].weight;
            lemma_walk_transfer(gi, gu, s, u, dd, (k - 1) as nat);
            assert(d - (i64_weight())(gi.edges@[e].weight) == dd);
            assert(walk(gi, i64_weight(), s, v, d, k));
        }
    }
}

/// Each all-pairs row is Dijkstra's row: for a graph with non-negative
/// `i64` weights and the same graph over `u64`, the closure cell of
/// `(s, v)` is `Fin(d)` when Dijkstra reaches `v` at distance `d` (clamped
/// to `i64::MAX`), and `Inf` only where Dijkstra does not reach `v`; where
/// Dijkstra does not reach `v`, the cell is `Inf` or saturated at
/// `i64::MAX`.
pub proof fn lemma_dijkstra_row_is_all_pairs_row<N, M>(
    gi: &Graph<N, i64>,
    gu: &Graph<M, u64>,
    s: usize,
    res: PathResult<u64>,
    v: int,
)
    requires
        gi.valid(),
        same_graph_weights(gi, gu),
        weights_nonneg(gi),
        (s as int) < gi.n(),
        0 <= v < gi.n(),
        is_shortest_u64(gu, s, res),
    ensures
        closure_model::<MinPlus>(minplus_upto(gi, gi.edges@.len()), gi.n()) is Some,
        res.distances@[v] matches Some(dv) ==> closure_model::<MinPlus>(minplus_upto(gi, gi.edges@.len()), gi.n())->0[s
            * gi.n() + v] == MinPlus::Fin(if dv <= i64::MAX { dv as i64 } else { i64::MAX }),
        closure_model::<MinPlus>(minplus_upto(gi, gi.edges@.len()), gi.n())->0[s * gi.n() + v] is Inf
            ==> res.distances@[v] is None,
        res.distances@[v] is None ==> closure_model::<MinPlus>(minplus_upto(gi, gi.edges@.len()), gi.n())->0[s * gi.n()
            + v] is Inf || closure_model::<MinPlus>(minplus_upto(gi, gi.edges@.len()), gi.n())->0[s * gi.n() + v]
            == MinPlus::Fin(i64::MAX),
{
    let n = gi.n();
    let si = s as int;
    let c = closure_model::<MinPlus>(minplus_upto(gi, gi.edges@.len()), n)->0;
    assert(gu.endpoints_in_range()) by {
        assert forall|e: int| 0 <= e < gu.edges@.len() implies #[trigger] gu.edges@[e].source < gu.n()
            && gu.edges@[e].target < gu.n() by {
            assert(gi.edge_ok(e));
            assert(gi.edges@[e].source == gu.edges@[e].source);
        }
    }
    lemma_all_pairs_least_walks(gi, si, v, 0, 0);
    if let Some(dv) = res.distances@[v] {
        let k = choose|k: nat| walk(gu, u64_weight(), si, v, dv as int, k);
        lemma_walk_transfer(gi, gu, si, v, dv as int, k);
        lemma_all_pairs_least_walks(gi, si, v, dv as int, k);
        let x = c[si * n + v]->Fin_0;
        let (d2, k2) = choose|d2: int, k2: nat| #[trigger] walk(gi, i64_weight(), si, v, d2, k2) && d2 >= x && (x
            < i64::MAX ==> d2 == x);
        if x < i64::MAX {
            lemma_walk_transfer(gi, gu, si, v, x as int, k2);
            lemma_shortest_u64_is_least(gu, s, res, v, x as int, k2);
        }
    } else {
        if c[si * n + v] matches MinPlus::Fin(x) {
            let x = c[si * n + v]->Fin_0;
            if x < i64::MAX {
                let (d2, k2) = choose|d2: int, k2: nat| #[trigger] walk(gi, i64_weight(), si, v, d2, k2) && d2 >= x
                    && (x < i64::MAX ==> d2 == x);
                lemma_walk_transfer(gi, gu, si, v, x as int, k2);
                lemma_shortest_u64_is_least(gu, s, res, v, x as int, k2);
            }
        }
    }
}

} // verus!
