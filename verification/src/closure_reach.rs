//! The boolean Kleene closure of a graph's adjacency is its reachability
//! relation: reachability is derived from the semiring closure, not
//! re-implemented.

use crate::connectivity::{closed, reaches, step};
use crate::graph::Graph;
use crate::matrix::{closure_model, lemma_cell_div_mod, lemma_cell_index, lemma_split_index, pivots_upto};
use crate::path::bool_adjacency_upto;
use crate::semiring::BoolRing;
use crate::traversal::count_true;
use vstd::prelude::*;

verus! {

/// The step of walk `w` from position `t` to `t + 1` is a cell of `a`.
pub open spec fn hop(a: Seq<bool>, n: nat, w: Seq<int>, t: int) -> bool {
    a[w[t] * n + w[t + 1]]
}

/// `w` is a walk of at least one step from `i` to `j` along the cells of
/// `a`, every node below `n` and every inner node below `k`.
pub open spec fn walk_within(a: Seq<bool>, n: nat, w: Seq<int>, i: int, j: int, k: int) -> bool {
    &&& w.len() >= 2
    &&& w[0] == i
    &&& w[w.len() - 1] == j
    &&& forall|t: int| 0 <= t < w.len() ==> 0 <= #[trigger] w[t] < n
    &&& forall|t: int| 0 <= t < w.len() - 1 ==> #[trigger] hop(a, n, w, t)
    &&& forall|t: int| 0 < t < w.len() - 1 ==> #[trigger] w[t] < k
}

/// The boolean matrix after pivoting on `0..k`.
pub open spec fn bool_pivots(a: Seq<bool>, n: nat, k: nat) -> Seq<bool> {
    pivots_upto::<BoolRing>(a, n, k)->Some_0
}

/// Boolean pivoting never fails, keeps the shape, and pivot `k - 1` adds
/// the cells that pass through node `k - 1`.
proof fn lemma_bool_pivot(a: Seq<bool>, n: nat, k: nat)
    requires
        a.len() == n * n,
        k <= n,
    ensures
        pivots_upto::<BoolRing>(a, n, k) is Some,
        bool_pivots(a, n, k).len() == n * n,
        0 < k ==> forall|i: int, j: int|
            0 <= i < n && 0 <= j < n ==> #[trigger] bool_pivots(a, n, k)[i * n + j] == (bool_pivots(
                a,
                n,
                (k - 1) as nat,
            )[i * n + j] || (bool_pivots(a, n, (k - 1) as nat)[i * n + (k - 1)] && bool_pivots(
                a,
                n,
                (k - 1) as nat,
            )[(k - 1) * n + j])),
    decreases k,
{
    if k > 0 {
        let k0 = (k - 1) as nat;
        lemma_bool_pivot(a, n, k0);
        let c = bool_pivots(a, n, k0);
        assert forall|i: int, j: int| 0 <= i < n && 0 <= j < n implies #[trigger] bool_pivots(a, n, k)[i
            * n + j] == (c[i * n + j] || (c[i * n + k0] && c[k0 * n + j])) by {
            lemma_cell_index(i, j, n as int, n as int);
            lemma_cell_div_mod(i, j, n as int);
        }
    }
}

/// Cells set by the pivots on `0..k` are walks with inner nodes below `k`:
/// pivoting never invents a connection.
proof fn lemma_pivot_cell_walk(a: Seq<bool>, n: nat, k: nat, i: int, j: int)
    requires
        a.len() == n * n,
        k <= n,
        0 <= i < n,
        0 <= j < n,
        bool_pivots(a, n, k)[i * n + j],
    ensures
        exists|w: Seq<int>| #[trigger] walk_within(a, n, w, i, j, k as int),
    decreases k,
{
    if k == 0 {
        let w = seq![i, j];
        assert(hop(a, n, w, 0));
        assert(walk_within(a, n, w, i, j, 0));
    } else {
        let k0 = (k - 1) as nat;
        lemma_bool_pivot(a, n, k);
        let c = bool_pivots(a, n, k0);
        if c[i * n + j] {
            lemma_pivot_cell_walk(a, n, k0, i, j);
            let w = choose|w: Seq<int>| #[trigger] walk_within(a, n, w, i, j, k0 as int);
            assert(walk_within(a, n, w, i, j, k as int));
        } else {
            assert(c[i * n + k0] && c[k0 * n + j]);
            lemma_pivot_cell_walk(a, n, k0, i, k0 as int);
            lemma_pivot_cell_walk(a, n, k0, k0 as int, j);
            let w1 = choose|w: Seq<int>| #[trigger] walk_within(a, n, w, i, k0 as int, k0 as int);
            let w2 = choose|w: Seq<int>| #[trigger] walk_within(a, n, w, k0 as int, j, k0 as int);
            let w = w1 + w2.subrange(1, w2.len() as int);
            let l1 = w1.len() as int;
            assert forall|t: int| 0 <= t < w.len() - 1 implies #[trigger] hop(a, n, w, t) by {
                if t < l1 - 1 {
                    assert(hop(a, n, w1, t));
                } else {
                    assert(hop(a, n, w2, t - l1 + 1));
                }
            }
            assert forall|t: int| 0 <= t < w.len() implies 0 <= #[trigger] w[t] < n by {
                if t >= l1 {
                    assert(w[t] == w2[t - l1 + 1]);
                }
            }
            assert forall|t: int| 0 < t < w.len() - 1 implies #[trigger] w[t] < k by {
                if t < l1 - 1 {
                    assert(w[t] == w1[t]);
                } else if t >= l1 {
                    assert(w[t] == w2[t - l1 + 1]);
                }
            }
            assert(walk_within(a, n, w, i, j, k as int));
        }
    }
}

/// A walk with inner nodes below `k` sets its cell once `0..k` are pivoted:
/// pivoting misses no connection.
proof fn lemma_walk_pivot_cell(a: Seq<bool>, n: nat, k: nat, w: Seq<int>, i: int, j: int)
    requires
        a.len() == n * n,
        k <= n,
        walk_within(a, n, w, i, j, k as int),
    ensures
        bool_pivots(a, n, k)[i * n + j],
    decreases k, w.len(),
{
    lemma_bool_pivot(a, n, k);
    if k == 0 {
        if w.len() > 2 {
            assert(w[1] < 0);
        }
        assert(hop(a, n, w, 0));
    } else {
        let k0 = (k - 1) as nat;
        if forall|t: int| 0 < t < w.len() - 1 ==> #[trigger] w[t] < k0 {
            lemma_walk_pivot_cell(a, n, k0, w, i, j);
        } else {
            let t = choose|t: int| 0 < t < w.len() - 1 && !(#[trigger] w[t] < k0);
            assert(w[t] == k0);
            let w1 = w.subrange(0, t + 1);
            let w2 = w.subrange(t, w.len() as int);
            assert forall|x: int| 0 <= x < w1.len() - 1 implies #[trigger] hop(a, n, w1, x) by {
                assert(hop(a, n, w, x));
            }
            assert forall|x: int| 0 <= x < w2.len() - 1 implies #[trigger] hop(a, n, w2, x) by {
                assert(hop(a, n, w, x + t));
            }
            assert forall|x: int| 0 <= x < w2.len() implies 0 <= #[trigger] w2[x] < n by {
                assert(w2[x] == w[x + t]);
            }
            assert forall|x: int| 0 < x < w2.len() - 1 implies #[trigger] w2[x] < k by {
                assert(w2[x] == w[x + t]);
            }
            lemma_walk_pivot_cell(a, n, k, w1, i, k0 as int);
            lemma_walk_pivot_cell(a, n, k, w2, k0 as int, j);
            let c = bool_pivots(a, n, k0);
            assert(bool_pivots(a, n, k)[i * n + k0] == c[i * n + k0]);
            assert(bool_pivots(a, n, k)[k0 * n + j] == c[k0 * n + j]);
        }
    }
}

/// The boolean adjacency of the first `m` edges holds exactly the pairs
/// that one of those edges leads between.
proof fn lemma_bool_adjacency<N, W>(g: &Graph<N, W>, m: nat)
    requires
        g.valid(),
        m <= g.edges@.len(),
    ensures
        bool_adjacency_upto(g, m).len() == g.n() * g.n(),
        forall|u: int, v: int|
            0 <= u < g.n() && 0 <= v < g.n() ==> (#[trigger] bool_adjacency_upto(g, m)[u * g.n() + v] <==> exists|
                i: int,
            | 0 <= i < m && #[trigger] g.edge_joins(i, u, v)),
    decreases m,
{
    let n = g.n();
    if m > 0 {
        lemma_bool_adjacency(g, (m - 1) as nat);
        let e = g.edges@[m - 1];
        assert(g.edge_ok(m - 1));
        lemma_cell_index(e.source as int, e.target as int, n as int, n as int);
        lemma_cell_index(e.target as int, e.source as int, n as int, n as int);
        assert forall|u: int, v: int| 0 <= u < n && 0 <= v < n implies (#[trigger] bool_adjacency_upto(
            g,
            m,
        )[u * n + v] <==> exists|i: int| 0 <= i < m && #[trigger] g.edge_joins(i, u, v)) by {
            lemma_cell_index(u, v, n as int, n as int);
            lemma_cell_div_mod(u, v, n as int);
            lemma_cell_div_mod(e.source as int, e.target as int, n as int);
            lemma_cell_div_mod(e.target as int, e.source as int, n as int);
            if exists|i: int| 0 <= i < m && #[trigger] g.edge_joins(i, u, v) {
                let i = choose|i: int| 0 <= i < m && #[trigger] g.edge_joins(i, u, v);
                if i < m - 1 {
                    assert(exists|i: int| 0 <= i < m - 1 && #[trigger] g.edge_joins(i, u, v));
                }
            }
            if exists|i: int| 0 <= i < m - 1 && #[trigger] g.edge_joins(i, u, v) {
                let i = choose|i: int| 0 <= i < m - 1 && #[trigger] g.edge_joins(i, u, v);
                assert(0 <= i < m && g.edge_joins(i, u, v));
            }
            if g.edge_joins(m - 1, u, v) {
                assert(0 <= m - 1 < m);
            }
        }
    } else {
        assert forall|u: int, v: int| 0 <= u < n && 0 <= v < n implies !(#[trigger] bool_adjacency_upto(
            g,
            m,
        )[u * n + v]) by {
            lemma_cell_index(u, v, n as int, n as int);
        }
    }
}

/// Reachability composes.
pub proof fn lemma_reaches_trans<N, W>(g: &Graph<N, W>, sym: bool, u: int, v: int, w: int)
    requires
        reaches(g, sym, u, v),
        reaches(g, sym, v, w),
    ensures
        reaches(g, sym, u, w),
{
    assert forall|s: Set<int>| s.contains(u) && #[trigger] closed(g, sym, s) implies s.contains(w) by {
        assert(s.contains(v));
    }
}

/// A node reaches the far end of each arc out of it.
pub(crate) proof fn lemma_arc_reaches<N, W>(g: &Graph<N, W>, u: int, v: int)
    requires
        g.arc(u, v),
        0 <= v < g.n(),
    ensures
        reaches(g, false, u, v),
{
    assert forall|s: Set<int>| s.contains(u) && #[trigger] closed(g, false, s) implies s.contains(v) by {
        assert(step(g, false, u, v));
    }
}

/// A node reaches each other node it can walk to along arcs.
proof fn lemma_reaches_walk<N, W>(g: &Graph<N, W>, i: int, j: int)
    requires
        g.valid(),
        0 <= i < g.n(),
        0 <= j < g.n(),
        i != j,
        reaches(g, false, i, j),
    ensures
        exists|w: Seq<int>| #[trigger] walk_within(
            bool_adjacency_upto(g, g.edges@.len()),
            g.n(),
            w,
            i,
            j,
            g.n() as int,
        ),
{
    let n = g.n();
    let a = bool_adjacency_upto(g, g.edges@.len());
    lemma_bool_adjacency(g, g.edges@.len());
    let s = Set::new(
        |v: int| v == i || exists|w: Seq<int>| #[trigger] walk_within(a, n, w, i, v, n as int),
    );
    assert forall|u: int, v: int| s.contains(u) && 0 <= v < n && #[trigger] step(g, false, u, v) implies s.contains(
        v,
    ) by {
        let e = choose|e: int| 0 <= e < g.edges@.len() && #[trigger] g.edge_joins(e, u, v);
        assert(g.edge_ok(e));
        assert(0 <= u < n) by {
            if u != i {
                let w = choose|w: Seq<int>| #[trigger] walk_within(a, n, w, i, u, n as int);
                assert(0 <= w[w.len() - 1] < n);
            }
        }
        assert(a[u * n + v]);
        if u == i {
            let w = seq![i, v];
            assert(hop(a, n, w, 0));
            assert(walk_within(a, n, w, i, v, n as int));
        } else {
            let w0 = choose|w: Seq<int>| #[trigger] walk_within(a, n, w, i, u, n as int);
            let w = w0.push(v);
            assert forall|t: int| 0 <= t < w.len() - 1 implies #[trigger] hop(a, n, w, t) by {
                if t < w0.len() - 1 {
                    assert(hop(a, n, w0, t));
                }
            }
            assert forall|t: int| 0 <= t < w.len() implies 0 <= #[trigger] w[t] < n by {
                if t < w0.len() {
                    assert(w[t] == w0[t]);
                }
            }
            assert forall|t: int| 0 < t < w.len() - 1 implies #[trigger] w[t] < n by {
                assert(w[t] == w0[t]);
            }
            assert(walk_within(a, n, w, i, v, n as int));
        }
    }
    assert(closed(g, false, s));
    assert(s.contains(i));
    assert(s.contains(j));
}

/// The boolean Kleene closure of a valid graph's adjacency relates `i` to `j`
/// exactly when `j` is reachable from `i` along arcs (every node reaching
/// itself): what `reachability` returns is the graph's reachability.
pub proof fn lemma_closure_is_reachability<N, W>(g: &Graph<N, W>, i: int, j: int)
    requires
        g.valid(),
        0 <= i < g.n(),
        0 <= j < g.n(),
    ensures
        closure_model::<BoolRing>(bool_adjacency_upto(g, g.edges@.len()), g.n()) matches Some(c) && (c[i
            * g.n() + j] <==> reaches(g, false, i, j)),
{
    let n = g.n();
    let a = bool_adjacency_upto(g, g.edges@.len());
    lemma_bool_adjacency(g, g.edges@.len());
    lemma_bool_pivot(a, n, n);
    let t = bool_pivots(a, n, n);
    let c = closure_model::<BoolRing>(a, n)->Some_0;
    lemma_cell_index(i, j, n as int, n as int);
    lemma_cell_div_mod(i, j, n as int);
    assert(c[i * n + j] == (t[i * n + j] || i == j));
    if i == j {
        assert forall|s: Set<int>| s.contains(i) && #[trigger] closed(g, false, s) implies s.contains(j) by {}
    } else {
        if t[i * n + j] {
            lemma_pivot_cell_walk(a, n, n, i, j);
            let w = choose|w: Seq<int>| #[trigger] walk_within(a, n, w, i, j, n as int);
            lemma_walk_reaches(g, w, i, j);
        }
        if reaches(g, false, i, j) {
            lemma_reaches_walk(g, i, j);
            let w = choose|w: Seq<int>| #[trigger] walk_within(a, n, w, i, j, n as int);
            lemma_walk_pivot_cell(a, n, n, w, i, j);
        }
    }
}

/// A walk along the adjacency cells follows arcs, so its start reaches its
/// end.
proof fn lemma_walk_reaches<N, W>(g: &Graph<N, W>, w: Seq<int>, i: int, j: int)
    requires
        g.valid(),
        walk_within(bool_adjacency_upto(g, g.edges@.len()), g.n(), w, i, j, g.n() as int),
    ensures
        reaches(g, false, i, j),
    decreases w.len(),
{
    let n = g.n();
    let a = bool_adjacency_upto(g, g.edges@.len());
    lemma_bool_adjacency(g, g.edges@.len());
    let m = w.len() as int;
    let u = w[m - 2];
    assert(hop(a, n, w, m - 2));
    assert(a[u * n + j]);
    assert(0 <= u < n);
    let e = choose|e: int| 0 <= e < g.edges@.len() && #[trigger] g.edge_joins(e, u, j);
    assert(g.arc(u, j));
    lemma_arc_reaches(g, u, j);
    if m > 2 {
        let w0 = w.drop_last();
        assert forall|t: int| 0 <= t < w0.len() - 1 implies #[trigger] hop(a, n, w0, t) by {
            assert(hop(a, n, w, t));
        }
        assert(walk_within(a, n, w0, i, u, n as int));
        lemma_walk_reaches(g, w0, i, u);
        lemma_reaches_trans(g, false, i, u, j);
    } else {
        assert(u == i);
    }
}

/// Reachability as the closure computes it is transitive.
pub proof fn lemma_closure_reachability_transitive<N, W>(g: &Graph<N, W>, i: int, j: int, k: int)
    requires
        g.valid(),
        0 <= i < g.n(),
        0 <= j < g.n(),
        0 <= k < g.n(),
        closure_model::<BoolRing>(bool_adjacency_upto(g, g.edges@.len()), g.n()) matches Some(c) && c[i
            * g.n() + j] && c[j * g.n() + k],
    ensures
        closure_model::<BoolRing>(bool_adjacency_upto(g, g.edges@.len()), g.n()) matches Some(c) && c[i
            * g.n() + k],
{
    lemma_closure_is_reachability(g, i, j);
    lemma_closure_is_reachability(g, j, k);
    lemma_closure_is_reachability(g, i, k);
    lemma_reaches_trans(g, false, i, j, k);
}

/// Reachability grows with the arcs: a graph on the same nodes whose arcs
/// include another's reaches at least as much.
proof fn lemma_reaches_more_arcs<N, W, M, X>(g1: &Graph<N, W>, g2: &Graph<M, X>, i: int, j: int)
    requires
        g1.n() == g2.n(),
        forall|u: int, v: int| #[trigger] g1.arc(u, v) ==> g2.arc(u, v),
        reaches(g1, false, i, j),
    ensures
        reaches(g2, false, i, j),
{
    assert forall|s: Set<int>| s.contains(i) && #[trigger] closed(g2, false, s) implies s.contains(j) by {
        assert forall|u: int, v: int| s.contains(u) && 0 <= v < g1.n() && #[trigger] step(g1, false, u, v) implies s.contains(v) by {
            assert(step(g2, false, u, v));
        }
        assert(closed(g1, false, s));
    }
}

/// Counting `true` cells is monotone under pointwise implication.
proof fn lemma_count_true_mono(a: Seq<bool>, b: Seq<bool>, m: nat)
    requires
        forall|k: int| 0 <= k < m && #[trigger] a[k] ==> b[k],
    ensures
        count_true(a, m) <= count_true(b, m),
    decreases m,
{
    if m > 0 {
        lemma_count_true_mono(a, b, (m - 1) as nat);
        assert(a[m - 1] ==> b[m - 1]);
    }
}

/// The closure density does not decrease when arcs are added: of two valid
/// graphs on the same nodes, where every arc of the first is an arc of the
/// second, the second's Kleene closure holds at least as many reachable pairs.
pub proof fn lemma_closure_density_monotone<N, W, M, X>(g1: &Graph<N, W>, g2: &Graph<M, X>)
    requires
        g1.valid(),
        g2.valid(),
        g1.n() == g2.n(),
        forall|u: int, v: int| #[trigger] g1.arc(u, v) ==> g2.arc(u, v),
    ensures
        closure_model::<BoolRing>(bool_adjacency_upto(g1, g1.edges@.len()), g1.n()) matches Some(c1)
            && closure_model::<BoolRing>(bool_adjacency_upto(g2, g2.edges@.len()), g2.n()) matches Some(c2)
            && c1.len() == c2.len() && count_true(c1, c1.len()) <= count_true(c2, c2.len()),
{
    let n = g1.n();
    let a1 = bool_adjacency_upto(g1, g1.edges@.len());
    let a2 = bool_adjacency_upto(g2, g2.edges@.len());
    lemma_bool_adjacency(g1, g1.edges@.len());
    lemma_bool_adjacency(g2, g2.edges@.len());
    lemma_bool_pivot(a1, n, n);
    lemma_bool_pivot(a2, n, n);
    let c1 = closure_model::<BoolRing>(a1, n)->Some_0;
    let c2 = closure_model::<BoolRing>(a2, n)->Some_0;
    assert forall|k: int| 0 <= k < c1.len() && #[trigger] c1[k] implies c2[k] by {
        lemma_split_index(k, n as int, n as int);
        let i = k / (n as int);
        let j = k % (n as int);
        lemma_closure_is_reachability(g1, i, j);
        lemma_closure_is_reachability(g2, i, j);
        lemma_reaches_more_arcs(g1, g2, i, j);
    }
    lemma_count_true_mono(c1, c2, c1.len());
}

} // verus!
