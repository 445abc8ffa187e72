//! Optimality of spanning trees with the cycle property: exchanging, one at
//! a time, an edge of another spanning tree for a no-heavier tree edge that
//! crosses the same cut shows that no spanning tree is lighter.

use crate::certificate::{closed_under_light, cycle_property, joined_light, tree_edge_list, SpanningTree};
use crate::graph::Graph;
use crate::mst::{
    closed_under_edges, joined_by, lemma_coarsen, lemma_joined_edge, lemma_joined_more, lemma_joined_sym,
    is_tree_shape, lemma_joined_trans, lemma_two_sets_not_spanning, spans, weight_sum,
};
use crate::unionfind::{lemma_root_count_identity, root_count};
use crate::weight::MstWeight;
use vstd::prelude::*;

verus! {

/// Fewer than `n - 1` edges do not join every node to node `0`.
proof fn lemma_short_not_spanning<N, W>(g: &Graph<N, W>, ids: Seq<usize>)
    requires
        g.valid(),
        g.n() <= usize::MAX,
        ids.len() + 2 <= g.n(),
        forall|a: int| 0 <= a < ids.len() ==> (#[trigger] ids[a] as int) < g.edges@.len(),
    ensures
        !spans(g, ids),
{
    let n = g.n();
    let rep = Seq::new(n, |i: int| i as usize);
    lemma_root_count_identity(n, n);
    let f = lemma_coarsen(g, rep, ids);
    assert forall|a: int| 0 <= a < ids.len() implies g.edges@[#[trigger] ids[a] as int].source < g.n()
        && g.edges@[ids[a] as int].target < g.n() by {
        assert(g.edge_ok(ids[a] as int));
    }
    lemma_two_sets_not_spanning(g, ids, f);
}

/// Dropping position `q` takes its weight out of the total.
proof fn lemma_weight_remove<N, W: MstWeight>(g: &Graph<N, W>, s: Seq<usize>, q: int)
    requires
        0 <= q < s.len(),
    ensures
        weight_sum(g, s) == weight_sum(g, s.remove(q)) + g.edges@[s[q] as int].weight.wv(),
    decreases s.len(),
{
    let l = s.len() - 1;
    if q == l {
        assert(s.remove(q) =~= s.drop_last());
    } else {
        lemma_weight_remove(g, s.drop_last(), q);
        assert(s.remove(q).drop_last() =~= s.drop_last().remove(q));
        assert(s.remove(q).last() == s.last());
    }
}

/// Two duplicate-free lists of equal length, the first's edges all in the
/// second, have the same total weight.
proof fn lemma_same_edges_same_sum<N, W: MstWeight>(g: &Graph<N, W>, t: Seq<usize>, k: Seq<usize>)
    requires
        t.len() == k.len(),
        forall|a: int, b: int| 0 <= a < b < t.len() ==> #[trigger] t[a] != #[trigger] t[b],
        forall|a: int, b: int| 0 <= a < b < k.len() ==> #[trigger] k[a] != #[trigger] k[b],
        forall|a: int| 0 <= a < t.len() ==> k.contains(#[trigger] t[a]),
    ensures
        weight_sum(g, t) == weight_sum(g, k),
    decreases t.len(),
{
    if t.len() > 0 {
        let l = t.len() - 1;
        assert(k.contains(t[l]));
        let q = choose|q: int| 0 <= q < k.len() && k[q] == t[l];
        let k2 = k.remove(q);
        let t2 = t.drop_last();
        lemma_weight_remove(g, k, q);
        assert forall|a: int, b: int| 0 <= a < b < k2.len() implies #[trigger] k2[a] != #[trigger] k2[b] by {
            let a1 = if a < q { a } else { a + 1 };
            let b1 = if b < q { b } else { b + 1 };
            assert(k2[a] == k[a1] && k2[b] == k[b1]);
        }
        assert forall|a: int, b: int| 0 <= a < b < t2.len() implies #[trigger] t2[a] != #[trigger] t2[b] by {
            assert(t2[a] == t[a] && t2[b] == t[b]);
        }
        assert forall|a: int| 0 <= a < t2.len() implies k2.contains(#[trigger] t2[a]) by {
            assert(t2[a] == t[a]);
            assert(k.contains(t[a]));
            let j = choose|j: int| 0 <= j < k.len() && k[j] == t[a];
            assert(t[a] != t[l]);
            if j < q {
                assert(k2[j] == k[j]);
            } else {
                assert(j != q);
                assert(k2[j - 1] == k[j]);
            }
        }
        lemma_same_edges_same_sum(g, t2, k2);
    }
}

/// The number of positions below `m` whose edge `k` does not list.
pub open spec fn outside_count(t: Seq<usize>, k: Seq<usize>, m: nat) -> nat
    decreases m,
{
    if m == 0 {
        0
    } else {
        outside_count(t, k, (m - 1) as nat) + if k.contains(t[m - 1]) { 0nat } else { 1nat }
    }
}

/// A position whose edge `k` misses, when some is counted.
proof fn lemma_outside_some(t: Seq<usize>, k: Seq<usize>, m: nat) -> (p: int)
    requires
        outside_count(t, k, m) > 0,
    ensures
        0 <= p < m,
        !k.contains(t[p]),
    decreases m,
{
    if !k.contains(t[m - 1]) {
        m - 1
    } else {
        lemma_outside_some(t, k, (m - 1) as nat)
    }
}

/// With none counted, `k` lists every edge below `m`.
proof fn lemma_outside_none(t: Seq<usize>, k: Seq<usize>, m: nat)
    requires
        outside_count(t, k, m) == 0,
    ensures
        forall|a: int| 0 <= a < m ==> k.contains(#[trigger] t[a]),
    decreases m,
{
    if m > 0 {
        lemma_outside_none(t, k, (m - 1) as nat);
    }
}

/// Replacing a missed edge by a listed one counts one fewer.
proof fn lemma_outside_update(t: Seq<usize>, k: Seq<usize>, p: int, f: usize, m: nat)
    requires
        0 <= p < t.len(),
        m <= t.len(),
        !k.contains(t[p]),
        k.contains(f),
    ensures
        outside_count(t.update(p, f), k, m) + (if p < m { 1nat } else { 0nat }) == outside_count(t, k, m),
    decreases m,
{
    if m > 0 {
        lemma_outside_update(t, k, p, f, (m - 1) as nat);
    }
}

/// A set closed under all listed edges but position `p`, and holding both
/// or neither endpoint of the edge there, is closed under all of them.
proof fn lemma_closed_with_edge<N, W>(g: &Graph<N, W>, t: Seq<usize>, p: int, s: Set<int>)
    requires
        0 <= p < t.len(),
        closed_under_edges(g, t.remove(p), s),
        s.contains(g.edges@[t[p] as int].source as int) <==> s.contains(g.edges@[t[p] as int].target as int),
    ensures
        closed_under_edges(g, t, s),
{
    let r = t.remove(p);
    assert forall|a: int| 0 <= a < t.len() implies (s.contains(g.edges@[#[trigger] t[a] as int].source as int)
        <==> s.contains(g.edges@[t[a] as int].target as int)) by {
        if a < p {
            assert(r[a] == t[a]);
        } else if a > p {
            assert(r[a - 1] == t[a]);
        }
    }
}

/// Removing an edge from a spanning tree leaves its endpoints apart.
proof fn lemma_tree_edge_split<N, W>(g: &Graph<N, W>, t: Seq<usize>, p: int)
    requires
        g.valid(),
        g.n() <= usize::MAX,
        tree_edge_list(g, t),
        spans(g, t),
        0 <= p < t.len(),
    ensures
        !joined_by(g, t.remove(p), g.edges@[t[p] as int].source as int, g.edges@[t[p] as int].target as int),
{
    let r = t.remove(p);
    let u = g.edges@[t[p] as int].source as int;
    let v = g.edges@[t[p] as int].target as int;
    if joined_by(g, r, u, v) {
        lemma_joined_sym(g, r, u, v);
        assert forall|x: int| 0 <= x < g.n() implies #[trigger] joined_by(g, r, 0, x) by {
            assert forall|s: Set<int>| #[trigger] closed_under_edges(g, r, s) implies (s.contains(0) ==> s.contains(x)) by {
                lemma_closed_with_edge(g, t, p, s);
                assert(joined_by(g, t, 0, x));
            }
        }
        assert forall|a: int| 0 <= a < r.len() implies (#[trigger] r[a] as int) < g.edges@.len() by {
            if a < p {
                assert(r[a] == t[a]);
            } else {
                assert(r[a] == t[a + 1]);
            }
        }
        lemma_short_not_spanning(g, r);
    }
}

/// The nodes joined to `u` by the listed edges form a set closed under them.
proof fn lemma_joined_set_closed<N, W>(g: &Graph<N, W>, r: Seq<usize>, u: int)
    ensures
        closed_under_edges(g, r, Set::new(|x: int| joined_by(g, r, u, x))),
{
    let st = Set::new(|x: int| joined_by(g, r, u, x));
    assert forall|a: int| 0 <= a < r.len() implies (st.contains(g.edges@[#[trigger] r[a] as int].source as int)
        <==> st.contains(g.edges@[r[a] as int].target as int)) by {
        let x = g.edges@[r[a] as int].source as int;
        let y = g.edges@[r[a] as int].target as int;
        lemma_joined_edge(g, r, a);
        lemma_joined_sym(g, r, x, y);
        if joined_by(g, r, u, x) {
            lemma_joined_trans(g, r, u, x, y);
        }
        if joined_by(g, r, u, y) {
            lemma_joined_trans(g, r, u, y, x);
        }
    }
}

/// Exchange: an edge of a spanning tree `t` that the cycle-property tree
/// `k` lacks can be swapped for an edge of `k`, no heavier, that `t` lacks,
/// leaving a spanning tree.
proof fn lemma_exchange<N, W: MstWeight>(g: &Graph<N, W>, k: Seq<usize>, t: Seq<usize>, p: int) -> (f: usize)
    requires
        g.valid(),
        g.n() <= usize::MAX,
        tree_edge_list(g, k),
        cycle_property(g, k),
        tree_edge_list(g, t),
        spans(g, t),
        0 <= p < t.len(),
        !k.contains(t[p]),
    ensures
        k.contains(f),
        !t.contains(f),
        g.edges@[f as int].weight.wv() <= g.edges@[t[p] as int].weight.wv(),
        tree_edge_list(g, t.update(p, f)),
        spans(g, t.update(p, f)),
{
    let e = t[p] as int;
    let u = g.edges@[e].source as int;
    let v = g.edges@[e].target as int;
    let m = g.edges@[e].weight.wv();
    let r = t.remove(p);
    lemma_tree_edge_split(g, t, p);
    let st = Set::new(|x: int| joined_by(g, r, u, x));
    lemma_joined_set_closed(g, r, u);
    assert(joined_by(g, r, u, u));
    assert(st.contains(u) && !st.contains(v));
    assert(joined_light(g, k, m, u, v));
    assert(!closed_under_light(g, k, m, st));
    let a = choose|a: int|
        0 <= a < k.len() && g.edges@[#[trigger] k[a] as int].weight.wv() <= m && !(st.contains(
            g.edges@[k[a] as int].source as int,
        ) <==> st.contains(g.edges@[k[a] as int].target as int));
    let f = k[a];
    let fs = g.edges@[f as int].source as int;
    let ft = g.edges@[f as int].target as int;
    let (x, y) = if st.contains(fs) { (fs, ft) } else { (ft, fs) };
    assert(st.contains(x) && !st.contains(y));
    assert(g.edge_ok(f as int));
    assert(0 <= y < g.n());
    // `f` is not an edge of `t`: not `e`, which `k` lacks, and not a remaining edge, none of which leaves `st`.
    assert(!t.contains(f)) by {
        if t.contains(f) {
            let b = choose|b: int| 0 <= b < t.len() && t[b] == f;
            assert(k.contains(f));
            if b < p {
                assert(r[b] == f);
            } else if b > p {
                assert(r[b - 1] == f);
            }
        }
    }
    // Every node sits on `u`'s side or is joined to `v` without `e`.
    let side = Set::new(|z: int| st.contains(z) || joined_by(g, r, v, z));
    lemma_joined_set_closed(g, r, v);
    assert(joined_by(g, r, v, v));
    assert(closed_under_edges(g, r, side)) by {
        let sv = Set::new(|z: int| joined_by(g, r, v, z));
        assert forall|b: int| 0 <= b < r.len() implies (side.contains(g.edges@[#[trigger] r[b] as int].source as int)
            <==> side.contains(g.edges@[r[b] as int].target as int)) by {
            assert(closed_under_edges(g, r, st));
            assert(closed_under_edges(g, r, sv));
        }
    }
    lemma_closed_with_edge(g, t, p, side);
    assert(g.edge_ok(e));
    assert(joined_by(g, t, 0, u));
    assert(joined_by(g, t, 0, y));
    lemma_joined_sym(g, t, 0, u);
    lemma_joined_trans(g, t, u, 0, y);
    assert(side.contains(y));
    assert(joined_by(g, r, v, y));
    // The new list joins `u` to `v`, hence everything `t` joined.
    let t2 = t.update(p, f);
    assert forall|z: usize| r.contains(z) implies #[trigger] t2.contains(z) by {
        let b = choose|b: int| 0 <= b < r.len() && r[b] == z;
        if b < p {
            assert(t2[b] == z);
        } else {
            assert(t2[b + 1] == z);
        }
    }
    lemma_joined_more(g, r, t2, u, x);
    lemma_joined_sym(g, r, v, y);
    lemma_joined_more(g, r, t2, y, v);
    lemma_joined_edge(g, t2, p);
    lemma_joined_sym(g, t2, fs, ft);
    lemma_joined_trans(g, t2, u, x, y);
    lemma_joined_trans(g, t2, u, y, v);
    lemma_joined_sym(g, t2, u, v);
    assert(t2.remove(p) =~= r);
    assert forall|z: int| 0 <= z < g.n() implies #[trigger] joined_by(g, t2, 0, z) by {
        assert forall|s: Set<int>| #[trigger] closed_under_edges(g, t2, s) implies (s.contains(0) ==> s.contains(z)) by {
            assert(closed_under_edges(g, r, s)) by {
                assert forall|b: int| 0 <= b < r.len() implies (s.contains(g.edges@[#[trigger] r[b] as int].source as int)
                    <==> s.contains(g.edges@[r[b] as int].target as int)) by {
                    if b < p {
                        assert(t2[b] == r[b]);
                    } else {
                        assert(t2[b + 1] == r[b]);
                    }
                }
            }
            lemma_closed_with_edge(g, t, p, s);
            assert(joined_by(g, t, 0, z));
        }
    }
    assert forall|b: int, c: int| 0 <= b < c < t2.len() implies #[trigger] t2[b] != #[trigger] t2[c] by {
        if b != p && c != p {
            assert(t2[b] == t[b] && t2[c] == t[c]);
        } else if b == p {
            assert(t2[c] == t[c]);
        } else {
            assert(t2[b] == t[b]);
        }
    }
    assert forall|b: int| 0 <= b < t2.len() implies #[trigger] t2[b] < g.edges@.len() && g.edges@[t2[b] as int].source
        != g.edges@[t2[b] as int].target by {
        if b != p {
            assert(t2[b] == t[b]);
        }
    }
    f
}

/// A spanning tree with the cycle property is a minimum spanning tree: no
/// list of `n - 1` distinct non-loop edges joining every node weighs less.
/// Kruskal's and Prim's trees have the cycle property, so each is a minimum
/// spanning tree.
pub proof fn lemma_cycle_property_minimum<N, W: MstWeight>(g: &Graph<N, W>, k: Seq<usize>, t: Seq<usize>)
    requires
        g.valid(),
        g.n() <= usize::MAX,
        tree_edge_list(g, k),
        cycle_property(g, k),
        tree_edge_list(g, t),
        spans(g, t),
    ensures
        weight_sum(g, k) <= weight_sum(g, t),
    decreases outside_count(t, k, t.len()),
{
    if outside_count(t, k, t.len()) == 0 {
        lemma_outside_none(t, k, t.len());
        lemma_same_edges_same_sum(g, t, k);
    } else {
        let p = lemma_outside_some(t, k, t.len());
        let f = lemma_exchange(g, k, t, p);
        let t2 = t.update(p, f);
        lemma_outside_update(t, k, p, f, t.len());
        lemma_weight_remove(g, t, p);
        lemma_weight_remove(g, t2, p);
        assert(t2.remove(p) =~= t.remove(p));
        lemma_cycle_property_minimum(g, k, t2);
    }
}

/// No spanning list of `n - 1` distinct non-loop edges weighs less than
/// `ids`.
pub open spec fn lightest_spanning<N, W: MstWeight>(g: &Graph<N, W>, ids: Seq<usize>) -> bool {
    forall|t: Seq<usize>| #[trigger] tree_edge_list(g, t) && spans(g, t) ==> weight_sum(g, ids) <= weight_sum(g, t)
}

/// A tree-shaped list with the cycle property is lightest.
pub(crate) proof fn lemma_tree_lightest<N, W: MstWeight>(g: &Graph<N, W>, t: SpanningTree<W>)
    requires
        g.valid(),
        g.n() <= usize::MAX,
        is_tree_shape(g, t),
        cycle_property(g, t.edges@),
    ensures
        lightest_spanning(g, t.edges@),
{
    let k = t.edges@;
    assert forall|a: int, b: int| 0 <= a < b < k.len() implies #[trigger] k[a] != #[trigger] k[b] by {
        assert(k[a] < k[b]);
    }
    assert(tree_edge_list(g, k));
    assert forall|s: Seq<usize>| #[trigger] tree_edge_list(g, s) && spans(g, s) implies weight_sum(g, k) <= weight_sum(g, s) by {
        lemma_cycle_property_minimum(g, k, s);
    }
}

/// A list of `n - 1` distinct non-loop edges with the cycle property is
/// lightest.
pub(crate) proof fn lemma_edges_lightest<N, W: MstWeight>(g: &Graph<N, W>, k: Seq<usize>)
    requires
        g.valid(),
        g.n() <= usize::MAX,
        tree_edge_list(g, k),
        cycle_property(g, k),
    ensures
        lightest_spanning(g, k),
{
    assert forall|s: Seq<usize>| #[trigger] tree_edge_list(g, s) && spans(g, s) implies weight_sum(g, k) <= weight_sum(g, s) by {
        lemma_cycle_property_minimum(g, k, s);
    }
}

/// Totals grow with the weights.
proof fn lemma_weight_sum_mono<N, M, W: MstWeight>(g1: &Graph<N, W>, g2: &Graph<M, W>, ids: Seq<usize>)
    requires
        forall|i: int| 0 <= i < ids.len() ==> g1.edges@[#[trigger] ids[i] as int].weight.wv() <= g2.edges@[ids[i] as int].weight.wv(),
    ensures
        weight_sum(g1, ids) <= weight_sum(g2, ids),
    decreases ids.len(),
{
    if ids.len() > 0 {
        let d = ids.drop_last();
        assert forall|i: int| 0 <= i < d.len() implies g1.edges@[#[trigger] d[i] as int].weight.wv() <= g2.edges@[d[i] as int].weight.wv() by {
            assert(d[i] == ids[i]);
        }
        lemma_weight_sum_mono(g1, g2, d);
        assert(ids.last() == ids[ids.len() - 1]);
    }
}

/// The minimum spanning tree weight does not decrease when edge weights
/// grow: of two graphs on the same nodes with the same edge endpoints, each
/// edge of the second no lighter, a lightest spanning tree of the first
/// weighs no more than any spanning tree of the second.
pub proof fn lemma_mst_weight_monotone<N, M, W: MstWeight>(
    g1: &Graph<N, W>,
    g2: &Graph<M, W>,
    t1: Seq<usize>,
    t2: Seq<usize>,
)
    requires
        g1.n() == g2.n(),
        g1.edges@.len() == g2.edges@.len(),
        forall|i: int|
            0 <= i < g1.edges@.len() ==> (#[trigger] g1.edges@[i]).source == g2.edges@[i].source && g1.edges@[i].target
                == g2.edges@[i].target && g1.edges@[i].weight.wv() <= g2.edges@[i].weight.wv(),
        lightest_spanning(g1, t1),
        tree_edge_list(g2, t2),
        spans(g2, t2),
    ensures
        weight_sum(g1, t1) <= weight_sum(g2, t2),
{
    assert forall|a: int| 0 <= a < t2.len() implies #[trigger] t2[a] < g1.edges@.len() && g1.edges@[t2[a] as int].source
        != g1.edges@[t2[a] as int].target by {
        assert(g1.edges@[t2[a] as int].source == g2.edges@[t2[a] as int].source);
    }
    assert(tree_edge_list(g1, t2));
    assert forall|s: Set<int>| #[trigger] closed_under_edges(g1, t2, s) == closed_under_edges(g2, t2, s) by {
        if closed_under_edges(g1, t2, s) {
            assert forall|a: int| 0 <= a < t2.len() implies (s.contains(g2.edges@[#[trigger] t2[a] as int].source as int)
                <==> s.contains(g2.edges@[t2[a] as int].target as int)) by {
                assert(g1.edges@[t2[a] as int].source == g2.edges@[t2[a] as int].source);
            }
        }
        if closed_under_edges(g2, t2, s) {
            assert forall|a: int| 0 <= a < t2.len() implies (s.contains(g1.edges@[#[trigger] t2[a] as int].source as int)
                <==> s.contains(g1.edges@[t2[a] as int].target as int)) by {
                assert(g1.edges@[t2[a] as int].source == g2.edges@[t2[a] as int].source);
            }
        }
    }
    assert forall|v: int| 0 <= v < g1.n() implies #[trigger] joined_by(g1, t2, 0, v) by {
        assert(joined_by(g2, t2, 0, v));
    }
    assert(spans(g1, t2));
    assert forall|i: int| 0 <= i < t2.len() implies g1.edges@[#[trigger] t2[i] as int].weight.wv() <= g2.edges@[t2[i] as int].weight.wv() by {
        assert(g1.edges@[t2[i] as int].weight.wv() <= g2.edges@[t2[i] as int].weight.wv());
    }
    lemma_weight_sum_mono(g1, g2, t2);
}

} // verus!
