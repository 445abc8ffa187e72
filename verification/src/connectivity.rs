//! Connected components (undirected / weak) and strongly connected components.
//!
//! Each result lists the blocks of a partition of the nodes: every block is
//! sorted ascending, and blocks are ordered by their smallest node. Two nodes
//! share a block exactly when each reaches the other, following arcs (strong
//! components) or following edges either way (connected and weak components).

use crate::error::GraphError;
use crate::graph::{Directedness, Edge, Graph};
use crate::traversal::{bfs, is_search, Traversal};
use vstd::prelude::*;

verus! {

/// One step from `u` to `v`: an arc, or (when `sym`) an arc either way.
pub open spec fn step<N, W>(g: &Graph<N, W>, sym: bool, u: int, v: int) -> bool {
    g.arc(u, v) || (sym && g.arc(v, u))
}

/// The node set `s` is closed under steps.
pub open spec fn closed<N, W>(g: &Graph<N, W>, sym: bool, s: Set<int>) -> bool {
    forall|u: int, v: int| s.contains(u) && 0 <= v < g.n() && #[trigger] step(g, sym, u, v) ==> s.contains(v)
}

/// `v` is reachable from `u`: it lies in every step-closed set holding `u`.
pub open spec fn reaches<N, W>(g: &Graph<N, W>, sym: bool, u: int, v: int) -> bool {
    forall|s: Set<int>| s.contains(u) && #[trigger] closed(g, sym, s) ==> s.contains(v)
}

/// `u` and `v` reach each other.
pub open spec fn mutual<N, W>(g: &Graph<N, W>, sym: bool, u: int, v: int) -> bool {
    reaches(g, sym, u, v) && reaches(g, sym, v, u)
}

/// Some block of `c` holds `v`.
pub open spec fn in_some_block(c: Seq<Vec<usize>>, v: int) -> bool {
    exists|i: int, a: int| 0 <= i < c.len() && 0 <= a < c[i]@.len() && #[trigger] c[i]@[a] == v
}

/// `c` lists the blocks of a partition of `0..n` into the classes of `rel`:
/// blocks are non-empty and strictly ascending, ordered by their first
/// member; every node lies in exactly one block; members of one block are
/// related, members of different blocks are not.
pub open spec fn is_block_partition(c: Seq<Vec<usize>>, n: nat, rel: spec_fn(int, int) -> bool) -> bool {
    &&& forall|i: int| 0 <= i < c.len() ==> (#[trigger] c[i])@.len() >= 1
    &&& forall|i: int, a: int, b: int|
        0 <= i < c.len() && 0 <= a < b < c[i]@.len() ==> #[trigger] c[i]@[a] < #[trigger] c[i]@[b]
    &&& forall|i: int, a: int| 0 <= i < c.len() && 0 <= a < c[i]@.len() ==> #[trigger] c[i]@[a] < n
    &&& forall|i: int, j: int| 0 <= i < j < c.len() ==> #[trigger] c[i]@[0] < #[trigger] c[j]@[0]
    &&& forall|v: int| 0 <= v < n ==> #[trigger] in_some_block(c, v)
    &&& forall|i: int, a: int, j: int, b: int|
        0 <= i < c.len() && 0 <= a < c[i]@.len() && 0 <= j < c.len() && 0 <= b < c[j]@.len() && #[trigger] c[i]@[a]
            == #[trigger] c[j]@[b] ==> i == j
    &&& forall|i: int, a: int, b: int|
        0 <= i < c.len() && 0 <= a < c[i]@.len() && 0 <= b < c[i]@.len() ==> rel(#[trigger] c[i]@[a] as int, #[trigger] c[i]@[b] as int)
    &&& forall|i: int, a: int, j: int, b: int|
        0 <= i < c.len() && 0 <= a < c[i]@.len() && 0 <= j < c.len() && 0 <= b < c[j]@.len() && i != j ==> !rel(
            #[trigger] c[i]@[a] as int,
            #[trigger] c[j]@[b] as int,
        )
}

/// A search from `s` lists exactly the nodes reachable from `s`.
proof fn lemma_search_reaches<N, W>(g: &Graph<N, W>, s: usize, t: Traversal)
    requires
        is_search(g, s, t),
        g.n() <= usize::MAX,
    ensures
        forall|v: int| 0 <= v < g.n() ==> (t.order@.contains(v as usize) <==> #[trigger] reaches(g, false, s as int, v)),
{
    let order = t.order@;
    let n = g.n();
    let o = Set::new(|x: int| 0 <= x < n && order.contains(x as usize));
    assert forall|u: int, v: int| o.contains(u) && 0 <= v < n && #[trigger] step(g, false, u, v) implies o.contains(v) by {
        let i = choose|i: int| 0 <= i < order.len() && order[i] == u as usize;
        assert(g.arc(order[i] as int, v));
    }
    assert(o.contains(s as int)) by {
        assert(order[0] == s);
    }
    assert forall|v: int| 0 <= v < n implies (order.contains(v as usize) <==> #[trigger] reaches(g, false, s as int, v)) by {
        if reaches(g, false, s as int, v) {
            assert(closed(g, false, o));
            assert(o.contains(v));
        }
        if order.contains(v as usize) {
            let j = choose|j: int| 0 <= j < order.len() && order[j] == v as usize;
            assert forall|c: Set<int>| c.contains(s as int) && #[trigger] closed(g, false, c) implies c.contains(v) by {
                lemma_order_in_closed(g, s, t, c, j);
                assert(order[j] as int == v);
            }
        }
    }
}

proof fn lemma_order_in_closed<N, W>(g: &Graph<N, W>, s: usize, t: Traversal, c: Set<int>, j: int)
    requires
        is_search(g, s, t),
        c.contains(s as int),
        closed(g, false, c),
        0 <= j < t.order@.len(),
    ensures
        c.contains(t.order@[j] as int),
    decreases j,
{
    let order = t.order@;
    if j > 0 {
        let v = order[j];
        assert(order[0] != order[j]);
        assert(order.contains(v));
        let w = t.predecessor@[v as int]->0;
        let (i, k) = choose|i: int, k: int| 0 <= i < k < order.len() && order[i] == w && order[k] == v;
        if k != j {
            assert(order[k] == order[j]);
        }
        lemma_order_in_closed(g, s, t, c, i);
        assert(step(g, false, w as int, v as int));
    }
}

/// A copy of the graph's edges with unit labels, directed as given.
fn skeleton<N, W>(g: &Graph<N, W>, directedness: Directedness) -> (h: Graph<(), ()>)
    ensures
        h.n() == g.n(),
        h.edges@.len() == g.edges@.len(),
        h.directedness == directedness,
        forall|i: int| 0 <= i < g.edges@.len() ==> (#[trigger] h.edges@[i]).source == g.edges@[i].source
            && h.edges@[i].target == g.edges@[i].target && h.edges@[i].id == g.edges@[i].id,
{
    let mut nodes: Vec<()> = Vec::new();
    let mut i: usize = 0;
    while i < g.nodes.len()
        invariant
            i <= g.nodes@.len(),
            nodes@.len() == i,
        decreases g.nodes@.len() - i,
    {
        nodes.push(());
        i += 1;
    }
    let mut edges: Vec<Edge<()>> = Vec::new();
    let mut k: usize = 0;
    while k < g.edges.len()
        invariant
            k <= g.edges@.len(),
            edges@.len() == k,
            forall|j: int| 0 <= j < k ==> (#[trigger] edges@[j]).source == g.edges@[j].source
                && edges@[j].target == g.edges@[j].target && edges@[j].id == g.edges@[j].id,
        decreases g.edges@.len() - k,
    {
        let e = &g.edges[k];
        edges.push(Edge { id: e.id, source: e.source, target: e.target, weight: () });
        k += 1;
    }
    Graph { nodes, edges, directedness }
}

/// Row `u` holds whether `v` is reachable from `u`, for every node pair.
fn reach_table<N, W>(g: &Graph<N, W>, sym: bool) -> (r: Vec<Vec<bool>>)
    requires
        g.valid(),
    ensures
        r@.len() == g.n(),
        forall|u: int| 0 <= u < g.n() ==> (#[trigger] r@[u])@.len() == g.n(),
        forall|u: int, v: int| 0 <= u < g.n() && 0 <= v < g.n() ==> (#[trigger] r@[u]@[v] <==> reaches(g, sym, u, v)),
{
    let d = if sym {
        Directedness::Undirected
    } else {
        g.directedness
    };
    let h = skeleton(g, d);
    let n = g.node_count();
    proof {
        assert forall|u: int, v: int| #[trigger] step(&h, false, u, v) == step(g, sym, u, v) by {
            if h.arc(u, v) {
                let i = choose|i: int| 0 <= i < h.edges@.len() && #[trigger] h.edge_joins(i, u, v);
                assert(h.edges@[i].source == g.edges@[i].source);
                if !g.edge_joins(i, u, v) {
                    assert(g.edge_joins(i, v, u));
                }
            }
            if g.arc(u, v) {
                let i = choose|i: int| 0 <= i < g.edges@.len() && #[trigger] g.edge_joins(i, u, v);
                assert(h.edges@[i].source == g.edges@[i].source);
                assert(h.edge_joins(i, u, v));
            }
            if sym && g.arc(v, u) {
                let i = choose|i: int| 0 <= i < g.edges@.len() && #[trigger] g.edge_joins(i, v, u);
                assert(h.edges@[i].source == g.edges@[i].source);
                assert(h.edge_joins(i, u, v));
            }
        }
        assert forall|s: Set<int>| #[trigger] closed(&h, false, s) == closed(g, sym, s) by {
            if closed(&h, false, s) {
                assert forall|u: int, v: int| s.contains(u) && 0 <= v < g.n() && #[trigger] step(g, sym, u, v) implies s.contains(v) by {
                    assert(step(&h, false, u, v));
                }
            }
            if closed(g, sym, s) {
                assert forall|u: int, v: int| s.contains(u) && 0 <= v < h.n() && #[trigger] step(&h, false, u, v) implies s.contains(v) by {
                    assert(step(g, sym, u, v));
                }
            }
        }
        assert forall|i: int| 0 <= i < h.edges@.len() implies #[trigger] h.edges@[i].source < h.n() && h.edges@[i].target < h.n() by {
            assert(g.edge_ok(i));
        }
    }
    let mut table: Vec<Vec<bool>> = Vec::new();
    let mut u: usize = 0;
    while u < n
        invariant
            n == g.n(),
            h.n() == n,
            h.endpoints_in_range(),
            u <= n,
            table@.len() == u,
            forall|s: Set<int>| #[trigger] closed(&h, false, s) == closed(g, sym, s),
            forall|a: int| 0 <= a < u ==> (#[trigger] table@[a])@.len() == n,
            forall|a: int, v: int| 0 <= a < u && 0 <= v < n ==> (#[trigger] table@[a]@[v] <==> reaches(g, sym, a, v)),
        decreases n - u,
    {
        let t = match bfs(&h, u) {
            Ok(t) => t,
            Err(_) => {
                proof {
                    assert(false);
                }
                return table;
            },
        };
        proof {
            lemma_search_reaches(&h, u, t);
        }
        let mut row: Vec<bool> = Vec::new();
        let mut v: usize = 0;
        while v < n
            invariant
                v <= n,
                row@.len() == v,
                forall|x: int| 0 <= x < v ==> (#[trigger] row@[x] <==> t.order@.contains(x as usize)),
            decreases n - v,
        {
            let mut found = false;
            let mut k: usize = 0;
            while k < t.order.len()
                invariant
                    k <= t.order@.len(),
                    found <==> exists|j: int| 0 <= j < k && t.order@[j] == v,
                decreases t.order@.len() - k,
            {
                if t.order[k] == v {
                    found = true;
                }
                k += 1;
            }
            row.push(found);
            v += 1;
        }
        proof {
            lemma_reaches_same(&h, g, sym);
            assert forall|x: int| 0 <= x < n implies (#[trigger] row@[x] <==> reaches(g, sym, u as int, x)) by {
                assert(reaches(&h, false, u as int, x) == reaches(g, sym, u as int, x));
            }
        }
        table.push(row);
        u += 1;
    }
    table
}

/// `u` and `v` reach each other according to the table.
pub open spec fn tb_rel(tb: Seq<Vec<bool>>, u: int, v: int) -> bool {
    tb[u]@[v] && tb[v]@[u]
}

/// The table is square and reflexive-transitive.
pub open spec fn tb_preorder(tb: Seq<Vec<bool>>, n: nat) -> bool {
    &&& tb.len() == n
    &&& forall|u: int| 0 <= u < n ==> (#[trigger] tb[u])@.len() == n
    &&& forall|u: int| 0 <= u < n ==> #[trigger] tb[u]@[u]
    &&& forall|u: int, v: int, w: int|
        0 <= u < n && 0 <= v < n && 0 <= w < n && #[trigger] tb[u]@[v] && #[trigger] tb[v]@[w] ==> tb[u]@[w]
}

/// The blocks found so far: each is the ascending list of the class of its
/// first member, and first members ascend and stay below `s`.
pub open spec fn blocks_so_far(tb: Seq<Vec<bool>>, n: nat, c: Seq<Vec<usize>>, s: int) -> bool {
    &&& forall|i: int| 0 <= i < c.len() ==> (#[trigger] c[i])@.len() >= 1 && c[i]@[0] < s
    &&& forall|i: int, a: int, b: int|
        0 <= i < c.len() && 0 <= a < b < c[i]@.len() ==> #[trigger] c[i]@[a] < #[trigger] c[i]@[b]
    &&& forall|i: int, a: int| 0 <= i < c.len() && 0 <= a < c[i]@.len() ==> #[trigger] c[i]@[a] < n
    &&& forall|i: int, j: int| 0 <= i < j < c.len() ==> #[trigger] c[i]@[0] < #[trigger] c[j]@[0]
    &&& forall|i: int, x: int|
        0 <= i < c.len() && 0 <= x < n ==> (#[trigger] c[i]@.contains(x as usize) <==> tb_rel(tb, c[i]@[0] as int, x))
}

/// Some block holds `x`.
pub open spec fn in_block_list(c: Seq<Vec<usize>>, x: int) -> bool {
    exists|i: int| 0 <= i < c.len() && #[trigger] c[i]@.contains(x as usize)
}

proof fn lemma_tb_rel_trans(tb: Seq<Vec<bool>>, n: nat, u: int, v: int, w: int)
    requires
        tb_preorder(tb, n),
        0 <= u < n && 0 <= v < n && 0 <= w < n,
        tb_rel(tb, u, v),
        tb_rel(tb, v, w),
    ensures
        tb_rel(tb, u, w),
{
    assert(tb[u]@[v] && tb[v]@[w]);
    assert(tb[w]@[v] && tb[v]@[u]);
}

/// A fresh node `s` outside every block gives a new block disjoint from them.
proof fn lemma_new_block(tb: Seq<Vec<bool>>, n: nat, c: Seq<Vec<usize>>, s: int, block: Seq<usize>)
    requires
        n <= usize::MAX,
        tb_preorder(tb, n),
        0 <= s < n,
        blocks_so_far(tb, n, c, s),
        forall|x: int| 0 <= x < s ==> #[trigger] in_block_list(c, x),
        !in_block_list(c, s),
        forall|a: int, b: int| 0 <= a < b < block.len() ==> #[trigger] block[a] < #[trigger] block[b],
        forall|a: int| 0 <= a < block.len() ==> #[trigger] block[a] < n,
        forall|x: int| 0 <= x < n ==> (#[trigger] block.contains(x as usize) <==> tb_rel(tb, s, x)),
    ensures
        block.len() >= 1,
        block[0] == s,
        forall|x: int| 0 <= x < n && #[trigger] block.contains(x as usize) ==> !in_block_list(c, x),
{
    assert forall|x: int| 0 <= x < s implies !#[trigger] tb_rel(tb, s, x) by {
        if tb_rel(tb, s, x) {
            assert(in_block_list(c, x));
            let i = choose|i: int| 0 <= i < c.len() && #[trigger] c[i]@.contains(x as usize);
            let l = c[i]@[0] as int;
            assert(c[i]@.contains(x as usize));
            assert(tb_rel(tb, l, x));
            assert(tb_rel(tb, x, s));
            lemma_tb_rel_trans(tb, n, l, x, s);
            assert(c[i]@.contains(s as usize));
            assert(in_block_list(c, s));
        }
    }
    assert(tb[s]@[s]);
    assert(block.contains(s as usize));
    let k = choose|k: int| 0 <= k < block.len() && block[k] == s;
    if k > 0 {
        assert(block[0] < block[k]);
        let x = block[0] as int;
        assert(x < n);
        assert(block.contains(x as usize));
        assert(tb_rel(tb, s, x));
    }
    assert forall|x: int| 0 <= x < n && #[trigger] block.contains(x as usize) implies !in_block_list(c, x) by {
        if in_block_list(c, x) {
            let i = choose|i: int| 0 <= i < c.len() && #[trigger] c[i]@.contains(x as usize);
            let l = c[i]@[0] as int;
            assert(tb_rel(tb, l, x));
            assert(tb_rel(tb, s, x));
            assert(tb_rel(tb, x, s));
            lemma_tb_rel_trans(tb, n, l, x, s);
            assert(c[i]@.contains(s as usize));
        }
    }
}

/// Blocks covering every node form the partition into classes.
proof fn lemma_blocks_partition(tb: Seq<Vec<bool>>, n: nat, c: Seq<Vec<usize>>, rel: spec_fn(int, int) -> bool)
    requires
        n <= usize::MAX,
        tb_preorder(tb, n),
        blocks_so_far(tb, n, c, n as int),
        forall|x: int| 0 <= x < n ==> #[trigger] in_block_list(c, x),
        forall|u: int, v: int| 0 <= u < n && 0 <= v < n ==> (rel(u, v) <==> #[trigger] tb_rel(tb, u, v)),
    ensures
        is_block_partition(c, n, rel),
{
    assert forall|v: int| 0 <= v < n implies #[trigger] in_some_block(c, v) by {
        assert(in_block_list(c, v));
        let i = choose|i: int| 0 <= i < c.len() && #[trigger] c[i]@.contains(v as usize);
        let a = choose|a: int| 0 <= a < c[i]@.len() && c[i]@[a] == v as usize;
        assert(c[i]@[a] == v);
    }
    assert forall|i: int, a: int, j: int, b: int|
        0 <= i < c.len() && 0 <= a < c[i]@.len() && 0 <= j < c.len() && 0 <= b < c[j]@.len() && #[trigger] c[i]@[a]
            == #[trigger] c[j]@[b] implies i == j by {
        let x = c[i]@[a] as int;
        assert(x < n);
        assert(c[i]@.contains(x as usize) && c[j]@.contains(x as usize));
        let li = c[i]@[0] as int;
        let lj = c[j]@[0] as int;
        assert(li < n && lj < n);
        assert(tb_rel(tb, li, x));
        assert(tb_rel(tb, lj, x));
        assert(tb_rel(tb, x, lj));
        assert(tb_rel(tb, x, li));
        lemma_tb_rel_trans(tb, n, li, x, lj);
        lemma_tb_rel_trans(tb, n, lj, x, li);
        assert(c[i]@.contains(lj as usize));
        assert(c[j]@.contains(li as usize));
        let k = choose|k: int| 0 <= k < c[i]@.len() && c[i]@[k] == lj as usize;
        let k2 = choose|k2: int| 0 <= k2 < c[j]@.len() && c[j]@[k2] == li as usize;
        if k > 0 {
            assert(c[i]@[0] < c[i]@[k]);
        }
        if k2 > 0 {
            assert(c[j]@[0] < c[j]@[k2]);
        }
        assert(li == lj);
        if i < j {
            assert(c[i]@[0] < c[j]@[0]);
        } else if j < i {
            assert(c[j]@[0] < c[i]@[0]);
        }
    }
    assert forall|i: int, a: int, b: int|
        0 <= i < c.len() && 0 <= a < c[i]@.len() && 0 <= b < c[i]@.len() implies rel(#[trigger] c[i]@[a] as int, #[trigger] c[i]@[b] as int) by {
        let x = c[i]@[a] as int;
        let y = c[i]@[b] as int;
        let l = c[i]@[0] as int;
        assert(x < n && y < n && l < n);
        assert(c[i]@.contains(x as usize) && c[i]@.contains(y as usize));
        assert(tb_rel(tb, l, x));
        assert(tb_rel(tb, l, y));
        assert(tb_rel(tb, x, l));
        lemma_tb_rel_trans(tb, n, x, l, y);
    }
    assert forall|i: int, a: int, j: int, b: int|
        0 <= i < c.len() && 0 <= a < c[i]@.len() && 0 <= j < c.len() && 0 <= b < c[j]@.len() && i != j implies !rel(
            #[trigger] c[i]@[a] as int,
            #[trigger] c[j]@[b] as int,
        ) by {
        let x = c[i]@[a] as int;
        let y = c[j]@[b] as int;
        assert(x < n && y < n);
        if rel(x, y) {
            let l = c[i]@[0] as int;
            assert(tb_rel(tb, x, y));
            assert(c[i]@.contains(x as usize));
            assert(tb_rel(tb, l, x));
            lemma_tb_rel_trans(tb, n, l, x, y);
            assert(c[i]@.contains(y as usize));
            let k = choose|k: int| 0 <= k < c[i]@.len() && c[i]@[k] == y as usize;
            assert(c[i]@[k] == c[j]@[b]);
        }
    }
}

/// The classes of mutual reachability in `table`, each sorted ascending,
/// ordered by their smallest member.
fn classes(table: &Vec<Vec<bool>>, n: usize, rel: Ghost<spec_fn(int, int) -> bool>) -> (r: Vec<Vec<usize>>)
    requires
        tb_preorder(table@, n as nat),
        forall|u: int, v: int| 0 <= u < n && 0 <= v < n ==> (rel@(u, v) <==> #[trigger] tb_rel(table@, u, v)),
    ensures
        is_block_partition(r@, n as nat, rel@),
{
    let ghost tb = table@;
    let mut assigned: Vec<bool> = Vec::new();
    let mut z: usize = 0;
    while z < n
        invariant
            z <= n,
            assigned@.len() == z,
            forall|x: int| 0 <= x < z ==> !#[trigger] assigned@[x],
        decreases n - z,
    {
        assigned.push(false);
        z += 1;
    }
    let mut comps: Vec<Vec<usize>> = Vec::new();
    let mut s: usize = 0;
    while s < n
        invariant
            tb == table@,
            tb_preorder(tb, n as nat),
            s <= n,
            assigned@.len() == n,
            blocks_so_far(tb, n as nat, comps@, s as int),
            forall|v: int| 0 <= v < n ==> (#[trigger] assigned@[v] <==> in_block_list(comps@, v)),
            forall|v: int| 0 <= v < s ==> #[trigger] in_block_list(comps@, v),
        decreases n - s,
    {
        if assigned[s] {
            proof {
                assert(in_block_list(comps@, s as int));
            }
            s += 1;
            continue;
        }
        let ghost a0 = assigned@;
        let mut block: Vec<usize> = Vec::new();
        let mut v: usize = 0;
        while v < n
            invariant
                tb == table@,
                tb_preorder(tb, n as nat),
                s < n,
                v <= n,
                a0.len() == n,
                assigned@.len() == n,
                forall|a: int, b: int| 0 <= a < b < block@.len() ==> #[trigger] block@[a] < #[trigger] block@[b],
                forall|a: int| 0 <= a < block@.len() ==> #[trigger] block@[a] < v,
                forall|x: int| 0 <= x < v ==> (#[trigger] block@.contains(x as usize) <==> tb_rel(tb, s as int, x)),
                forall|x: int| 0 <= x < n ==> (#[trigger] assigned@[x] <==> a0[x] || (x < v && tb_rel(tb, s as int, x))),
            decreases n - v,
        {
            let ghost b0 = block@;
            if table[s][v] && table[v][s] {
                block.push(v);
                assigned.set(v, true);
            }
            proof {
                assert forall|x: int| 0 <= x < v + 1 implies (#[trigger] block@.contains(x as usize) <==> tb_rel(tb, s as int, x)) by {
                    if block@.contains(x as usize) {
                        let k = choose|k: int| 0 <= k < block@.len() && block@[k] == x as usize;
                        if k < b0.len() {
                            assert(b0[k] == x as usize);
                            assert(b0[k] < v);
                            assert(b0.contains(x as usize));
                        }
                    }
                    if x < v && tb_rel(tb, s as int, x) {
                        assert(b0.contains(x as usize));
                        let k = choose|k: int| 0 <= k < b0.len() && b0[k] == x as usize;
                        assert(block@[k] == x as usize);
                    }
                    if x == v && tb_rel(tb, s as int, x) {
                        assert(block@[block@.len() - 1] == v);
                    }
                }
            }
            v += 1;
        }
        let ghost c0 = comps@;
        proof {
            assert(!in_block_list(c0, s as int));
            assert forall|a: int| 0 <= a < block@.len() implies #[trigger] block@[a] < n by {}
            lemma_new_block(tb, n as nat, c0, s as int, block@);
        }
        comps.push(block);
        proof {
            let c = comps@;
            assert(c[c0.len() as int] == block);
            assert forall|i: int| 0 <= i < c.len() implies (#[trigger] c[i])@.len() >= 1 && c[i]@[0] < s + 1 by {
                if i < c0.len() {
                    assert(c[i] == c0[i]);
                }
            }
            assert forall|i: int, a: int, b: int|
                0 <= i < c.len() && 0 <= a < b < c[i]@.len() implies #[trigger] c[i]@[a] < #[trigger] c[i]@[b] by {
                if i < c0.len() {
                    assert(c[i] == c0[i]);
                }
            }
            assert forall|i: int, a: int| 0 <= i < c.len() && 0 <= a < c[i]@.len() implies #[trigger] c[i]@[a] < n by {
                if i < c0.len() {
                    assert(c[i] == c0[i]);
                }
            }
            assert forall|i: int, j: int| 0 <= i < j < c.len() implies #[trigger] c[i]@[0] < #[trigger] c[j]@[0] by {
                assert(c[i] == c0[i]);
                if j < c0.len() {
                    assert(c[j] == c0[j]);
                }
            }
            assert forall|i: int, x: int|
                0 <= i < c.len() && 0 <= x < n implies (#[trigger] c[i]@.contains(x as usize) <==> tb_rel(tb, c[i]@[0] as int, x)) by {
                if i < c0.len() {
                    assert(c[i] == c0[i]);
                }
            }
            assert forall|x: int| 0 <= x < n implies (#[trigger] assigned@[x] <==> in_block_list(c, x)) by {
                if assigned@[x] {
                    if a0[x] {
                        let i = choose|i: int| 0 <= i < c0.len() && #[trigger] c0[i]@.contains(x as usize);
                        assert(c[i] == c0[i]);
                        assert(c[i]@.contains(x as usize));
                    } else {
                        assert(block@.contains(x as usize));
                        assert(c[c0.len() as int]@.contains(x as usize));
                    }
                }
                if in_block_list(c, x) {
                    let i = choose|i: int| 0 <= i < c.len() && #[trigger] c[i]@.contains(x as usize);
                    if i < c0.len() {
                        assert(c[i] == c0[i]);
                        assert(in_block_list(c0, x));
                    } else {
                        assert(block@.contains(x as usize));
                    }
                }
            }
            assert forall|x: int| 0 <= x < s + 1 implies #[trigger] in_block_list(c, x) by {
                if x < s {
                    assert(in_block_list(c0, x));
                    let i = choose|i: int| 0 <= i < c0.len() && #[trigger] c0[i]@.contains(x as usize);
                    assert(c[i] == c0[i]);
                    assert(c[i]@.contains(x as usize));
                } else {
                    assert(block@[0] == s);
                    assert(block@.contains(s));
                    assert(c[c0.len() as int]@.contains(x as usize));
                }
            }
        }
        s += 1;
    }
    proof {
        lemma_blocks_partition(tb, n as nat, comps@, rel@);
    }
    comps
}

/// Graphs with the same closed sets have the same reachability.
proof fn lemma_reaches_same<N, W, M, V>(h: &Graph<M, V>, g: &Graph<N, W>, sym: bool)
    requires
        forall|s: Set<int>| #[trigger] closed(h, false, s) == closed(g, sym, s),
    ensures
        forall|u: int, v: int| #[trigger] reaches(h, false, u, v) == reaches(g, sym, u, v),
{
    assert forall|u: int, v: int| #[trigger] reaches(h, false, u, v) == reaches(g, sym, u, v) by {
        if reaches(h, false, u, v) {
            assert forall|s: Set<int>| s.contains(u) && #[trigger] closed(g, sym, s) implies s.contains(v) by {
                assert(closed(h, false, s));
            }
        }
        if reaches(g, sym, u, v) {
            assert forall|s: Set<int>| s.contains(u) && #[trigger] closed(h, false, s) implies s.contains(v) by {
                assert(closed(g, sym, s));
            }
        }
    }
}

/// Reachability is reflexive and transitive.
proof fn lemma_reaches_preorder<N, W>(g: &Graph<N, W>, sym: bool)
    ensures
        forall|u: int| #[trigger] reaches(g, sym, u, u),
        forall|u: int, v: int, w: int| #[trigger] reaches(g, sym, u, v) && #[trigger] reaches(g, sym, v, w) ==> reaches(g, sym, u, w),
{
    assert forall|u: int, v: int, w: int| #[trigger] reaches(g, sym, u, v) && #[trigger] reaches(g, sym, v, w) implies reaches(g, sym, u, w) by {
        assert forall|s: Set<int>| s.contains(u) && #[trigger] closed(g, sym, s) implies s.contains(w) by {
            assert(s.contains(v));
        }
    }
}

/// The blocks of the graph's components when edges are followed both ways.
fn components_undirected<N, W>(graph: &Graph<N, W>) -> (r: Result<Vec<Vec<usize>>, GraphError>)
    ensures
        r is Ok <==> graph.valid(),
        r matches Err(e) ==> graph.reports(e),
        r matches Ok(c) ==> is_block_partition(c@, graph.n(), |u: int, v: int| mutual(graph, true, u, v)),
{
    graph.validate()?;
    components_of(graph, true)
}

fn components_of<N, W>(graph: &Graph<N, W>, sym: bool) -> (r: Result<Vec<Vec<usize>>, GraphError>)
    requires
        graph.valid(),
    ensures
        r matches Ok(c) && is_block_partition(c@, graph.n(), |u: int, v: int| mutual(graph, sym, u, v)),
{
    let table = reach_table(graph, sym);
    let n = graph.node_count();
    proof {
        lemma_reaches_preorder(graph, sym);
    }
    let rel = Ghost(|u: int, v: int| mutual(graph, sym, u, v));
    Ok(classes(&table, n, rel))
}

/// Connected components, treating every edge as joining its endpoints both
/// ways. Fails with the validation error on a malformed graph.
pub fn connected_components<N, W>(graph: &Graph<N, W>) -> (r: Result<Vec<Vec<usize>>, GraphError>)
    ensures
        r is Ok <==> graph.valid(),
        r matches Err(e) ==> graph.reports(e),
        r matches Ok(c) ==> is_block_partition(c@, graph.n(), |u: int, v: int| mutual(graph, true, u, v)),
{
    components_undirected(graph)
}

/// Weakly connected components: the components of the graph with arc
/// directions ignored.
pub fn weakly_connected_components<N, W>(graph: &Graph<N, W>) -> (r: Result<Vec<Vec<usize>>, GraphError>)
    ensures
        r is Ok <==> graph.valid(),
        r matches Err(e) ==> graph.reports(e),
        r matches Ok(c) ==> is_block_partition(c@, graph.n(), |u: int, v: int| mutual(graph, true, u, v)),
{
    components_undirected(graph)
}

/// Strongly connected components: nodes share a block exactly when each
/// reaches the other along arcs.
pub fn strongly_connected_components<N, W>(graph: &Graph<N, W>) -> (r: Result<Vec<Vec<usize>>, GraphError>)
    ensures
        r is Ok <==> graph.valid(),
        r matches Err(e) ==> graph.reports(e),
        r matches Ok(c) ==> is_block_partition(c@, graph.n(), |u: int, v: int| mutual(graph, false, u, v)),
{
    graph.validate()?;
    components_of(graph, false)
}

} // verus!
