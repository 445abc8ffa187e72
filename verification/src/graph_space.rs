//! The simple undirected graph rank space: a labeled graph on `n` nodes is the
//! bitmask over the `C(n, 2)` upper-triangle adjacency slots.

use crate::bignat::{decimal, nat_bit, BigNat};
use crate::bit_vector::mask_value;
use crate::descriptor::{describes, param_is, SpaceDescriptor};
use crate::error::RankAdapterError;
use crate::subset::{member_set, prefix_valid, subset_rank};
use vstd::arithmetic::power2::pow2;
use crate::text::{push_num, text_cat, text_nums};
use crate::traversal::falses;
use vstd::prelude::*;

verus! {

/// The slot of the first pair `(i, i + 1)` of row `i`: rows `0..i` hold
/// `n - 1`, `n - 2`, ... pairs.
pub open spec fn row_start(n: nat, i: nat) -> nat
    decreases i,
{
    if i == 0 {
        0
    } else {
        row_start(n, (i - 1) as nat) + (n - i) as nat
    }
}

/// The number of adjacency slots on `n` nodes, `C(n, 2)`.
pub open spec fn slot_total(n: nat) -> nat {
    row_start(n, n)
}

/// The slot of the pair `(lo, hi)`, `lo < hi < n`, in row-major order.
pub open spec fn pair_slot(n: nat, lo: nat, hi: nat) -> nat {
    row_start(n, lo) + (hi - lo - 1) as nat
}

/// The pair `(lo, hi)`, `lo < hi < n`, held by slot `p`.
pub open spec fn slot_pair(n: nat, p: nat) -> (usize, usize) {
    choose|e: (usize, usize)| e.0 < e.1 < n && pair_slot(n, e.0 as nat, e.1 as nat) == p
}

/// Whether an edge joins two distinct nodes below `n`.
pub open spec fn edge_ok(n: nat, e: (usize, usize)) -> bool {
    e.0 != e.1 && e.0 < n && e.1 < n
}

/// An edge with its endpoints in ascending order.
pub open spec fn canon(e: (usize, usize)) -> (usize, usize) {
    if e.0 <= e.1 {
        e
    } else {
        (e.1, e.0)
    }
}

/// The slot of an edge.
pub open spec fn edge_slot(n: nat, e: (usize, usize)) -> nat {
    pair_slot(n, canon(e).0 as nat, canon(e).1 as nat)
}

/// Whether every edge is valid and no two name the same unordered pair.
pub open spec fn edges_ok(n: nat, es: Seq<(usize, usize)>) -> bool {
    &&& forall|k: int| 0 <= k < es.len() ==> edge_ok(n, #[trigger] es[k])
    &&& forall|a: int, b: int| 0 <= a < b < es.len() ==> canon(#[trigger] es[a]) != canon(#[trigger] es[b])
}

/// The slots occupied by a list of edges.
pub open spec fn edge_slot_set(n: nat, es: Seq<(usize, usize)>) -> Set<nat> {
    Set::new(|p: nat| exists|k: int| 0 <= k < es.len() && edge_slot(n, #[trigger] es[k]) == p)
}

/// The pairs of the slots below `m` whose bit is set in `v`, in slot order.
pub open spec fn slot_pick(n: nat, v: nat, m: nat) -> Seq<(usize, usize)>
    decreases m,
{
    if m == 0 {
        Seq::empty()
    } else if nat_bit(v, (m - 1) as nat) {
        slot_pick(n, v, (m - 1) as nat).push(slot_pair(n, (m - 1) as nat))
    } else {
        slot_pick(n, v, (m - 1) as nat)
    }
}

/// Slots below `m` set in exactly one of `a` and `b`.
pub open spec fn slot_mismatches(a: nat, b: nat, m: nat) -> nat
    decreases m,
{
    if m == 0 {
        0
    } else {
        slot_mismatches(a, b, (m - 1) as nat) + if nat_bit(a, (m - 1) as nat) != nat_bit(
            b,
            (m - 1) as nat,
        ) {
            1nat
        } else {
            0nat
        }
    }
}

/// Row starts grow by the row lengths.
proof fn lemma_row_start_mono(n: nat, i: nat, j: nat)
    requires
        i <= j <= n,
    ensures
        row_start(n, i) <= row_start(n, j),
        i < j ==> row_start(n, i) + (n - i - 1) as nat <= row_start(n, j),
    decreases j - i,
{
    if i < j {
        lemma_row_start_mono(n, i, (j - 1) as nat);
    }
}

/// Distinct pairs hold distinct slots, all below the slot total.
proof fn lemma_pair_slot(n: nat, lo: nat, hi: nat, lo2: nat, hi2: nat)
    requires
        lo < hi < n,
        lo2 < hi2 < n,
    ensures
        pair_slot(n, lo, hi) < slot_total(n),
        pair_slot(n, lo, hi) == pair_slot(n, lo2, hi2) ==> lo == lo2 && hi == hi2,
{
    lemma_row_start_mono(n, lo, n);
    if lo < lo2 {
        lemma_row_start_mono(n, lo, lo2);
    } else if lo2 < lo {
        lemma_row_start_mono(n, lo2, lo);
    }
}

/// A slot held by a pair names that pair.
proof fn lemma_slot_pair(n: nat, lo: usize, hi: usize)
    requires
        lo < hi < n,
    ensures
        slot_pair(n, pair_slot(n, lo as nat, hi as nat)) == (lo, hi),
{
    let p = pair_slot(n, lo as nat, hi as nat);
    assert((lo, hi).0 < (lo, hi).1 < n && pair_slot(n, (lo, hi).0 as nat, (lo, hi).1 as nat) == p);
    let e = slot_pair(n, p);
    lemma_pair_slot(n, lo as nat, hi as nat, e.0 as nat, e.1 as nat);
}

/// `usize`'s decimal numeral.
fn usize_text(v: usize) -> (r: String)
    ensures
        r@ == decimal(v as nat),
{
    BigNat::from_usize(v).to_decimal()
}

/// `rank/discrete/simple-graph`: labeled simple undirected graphs on `n`
/// nodes, ranked by the bitmask over the upper-triangle adjacency slots.
#[derive(Debug, Clone, PartialEq, Eq)]
pub struct SimpleGraphSpace {
    /// Number of nodes.
    pub n: usize,
    /// The pairs `(i, j)`, `i < j < n`, in row-major order.
    pairs: Vec<(usize, usize)>,
}

impl SimpleGraphSpace {
    /// The number of nodes.
    pub closed spec fn nodes(&self) -> nat {
        self.n as nat
    }

    /// The slot table lists every pair `(i, j)`, `i < j < n`, at its slot.
    pub closed spec fn wf(&self) -> bool {
        let n = self.n as nat;
        &&& self.pairs@.len() == slot_total(n)
        &&& forall|p: int| 0 <= p < self.pairs@.len() ==> #[trigger] self.pairs@[p] == slot_pair(n, p as nat)
        &&& forall|p: int| 0 <= p < self.pairs@.len() ==> (#[trigger] self.pairs@[p]).0 < self.pairs@[p].1 < n
            && pair_slot(n, self.pairs@[p].0 as nat, self.pairs@[p].1 as nat) == p
    }

    /// Build the space for `n` nodes.
    pub fn new(n: usize) -> (r: Self)
        ensures
            r.nodes() == n,
            r.wf(),
    {
        let ghost nn = n as nat;
        let mut pairs: Vec<(usize, usize)> = Vec::new();
        let mut i: usize = 0;
        while i < n
            invariant
                nn == n,
                i <= n,
                pairs@.len() == row_start(nn, i as nat),
                forall|p: int| 0 <= p < pairs@.len() ==> (#[trigger] pairs@[p]).0 < pairs@[p].1 < n
                    && pair_slot(nn, pairs@[p].0 as nat, pairs@[p].1 as nat) == p,
            decreases n - i,
        {
            let mut j: usize = i + 1;
            while j < n
                invariant
                    nn == n,
                    i < n,
                    i + 1 <= j <= n,
                    pairs@.len() == pair_slot(nn, i as nat, j as nat),
                    forall|p: int| 0 <= p < pairs@.len() ==> (#[trigger] pairs@[p]).0 < pairs@[p].1 < n
                        && pair_slot(nn, pairs@[p].0 as nat, pairs@[p].1 as nat) == p,
                decreases n - j,
            {
                pairs.push((i, j));
                j += 1;
            }
            i += 1;
        }
        proof {
            assert forall|p: int| 0 <= p < pairs@.len() implies #[trigger] pairs@[p] == slot_pair(
                nn,
                p as nat,
            ) by {
                lemma_slot_pair(nn, pairs@[p].0, pairs@[p].1);
            }
        }
        SimpleGraphSpace { n, pairs }
    }

    /// The space descriptor.
    pub fn descriptor(&self) -> (r: SpaceDescriptor)
        ensures
            describes(r, "rank/discrete/simple-graph", "adjacency-upper-triangle", "edge-symmetric-difference"),
            r.params@.len() == 1,
            param_is(r, 0, "n", decimal(self.nodes())),
    {
        SpaceDescriptor {
            id: "rank/discrete/simple-graph",
            version: 1,
            params: vec![("n", usize_text(self.n))],
            order: "adjacency-upper-triangle",
            metric: "edge-symmetric-difference",
        }
    }

    /// Number of possible edges, `C(n, 2)`.
    pub fn edge_slots(&self) -> (r: usize)
        requires
            self.wf(),
        ensures
            r == slot_total(self.nodes()),
    {
        self.pairs.len()
    }

    /// Total cardinality `2^C(n, 2)`.
    pub fn cardinality(&self) -> (r: BigNat)
        requires
            self.wf(),
        ensures
            r@ == pow2(slot_total(self.nodes())),
    {
        BigNat::pow2(self.pairs.len())
    }

    /// The slot of the pair `(lo, hi)`, found in the slot table.
    fn find_slot(&self, lo: usize, hi: usize) -> (r: usize)
        requires
            self.wf(),
            lo < hi < self.nodes(),
        ensures
            r == pair_slot(self.nodes(), lo as nat, hi as nat),
            r < self.pairs@.len(),
    {
        let ghost n = self.n as nat;
        let ghost target = pair_slot(n, lo as nat, hi as nat);
        proof {
            lemma_pair_slot(n, lo as nat, hi as nat, lo as nat, hi as nat);
            lemma_slot_pair(n, lo, hi);
            assert(self.pairs@[target as int] == slot_pair(n, target));
        }
        let len = self.pairs.len();
        let mut p: usize = 0;
        while !(self.pairs[p].0 == lo && self.pairs[p].1 == hi)
            invariant
                self.wf(),
                len == self.pairs@.len(),
                n == self.n,
                lo < hi < n,
                target == pair_slot(n, lo as nat, hi as nat),
                target < self.pairs@.len(),
                self.pairs@[target as int] == (lo, hi),
                p <= target,
            decreases target - p,
        {
            proof {
                if p == target {
                    assert(false);
                }
            }
            p += 1;
        }
        proof {
            lemma_pair_slot(n, lo as nat, hi as nat, self.pairs@[p as int].0 as nat, self.pairs@[p as int].1 as nat);
        }
        p
    }

    /// Rank an edge set, each edge an unordered pair of distinct nodes.
    pub fn rank(&self, edges: &[(usize, usize)]) -> (r: Result<BigNat, RankAdapterError>)
        requires
            self.wf(),
        ensures
            r is Ok <==> edges_ok(self.nodes(), edges@),
            match r {
                Ok(v) => v@ == mask_value(
                    edge_slot_set(self.nodes(), edges@),
                    slot_total(self.nodes()),
                ),
                Err(e) => e is Invalid,
            },
    {
        let ghost n = self.n as nat;
        let mut slots: Vec<usize> = Vec::new();
        let mut seen = falses(self.pairs.len());
        let mut k: usize = 0;
        while k < edges.len()
            invariant
                self.wf(),
                n == self.n,
                k <= edges@.len(),
                slots@.len() == k,
                seen@.len() == self.pairs@.len(),
                forall|a: int| 0 <= a < k ==> edge_ok(n, #[trigger] edges@[a]),
                forall|a: int| 0 <= a < k ==> #[trigger] slots@[a] == edge_slot(n, edges@[a]),
                forall|p: int| 0 <= p < seen@.len() ==> (#[trigger] seen@[p] <==> slots@.contains(p as usize)),
                forall|a: int, b: int| 0 <= a < b < k ==> #[trigger] slots@[a] != #[trigger] slots@[b],
            decreases edges@.len() - k,
        {
            let (i, j) = edges[k];
            let lo = if i <= j {
                i
            } else {
                j
            };
            let hi = if i <= j {
                j
            } else {
                i
            };
            if i == j || hi >= self.n {
                let mut m = text_nums("edge (", i as u64, ",", j as u64, ") invalid for n=");
                push_num(&mut m, self.n as u64);
                return Err(RankAdapterError::Invalid(m));
            }
            let p = self.find_slot(lo, hi);
            if seen[p] {
                proof {
                    let a = choose|a: int| 0 <= a < slots@.len() && slots@[a] == p;
                    let ea = canon(edges@[a]);
                    lemma_pair_slot(n, ea.0 as nat, ea.1 as nat, lo as nat, hi as nat);
                    assert(canon(edges@[a]) == canon(edges@[k as int]));
                }
                let mut m = text_nums("duplicate edge (", lo as u64, ",", hi as u64, ") for n=");
                push_num(&mut m, self.n as u64);
                return Err(RankAdapterError::Invalid(m));
            }
            let ghost s0 = slots@;
            seen.set(p, true);
            slots.push(p);
            proof {
                assert forall|q: int| 0 <= q < seen@.len() implies (#[trigger] seen@[q] <==> slots@.contains(q as usize)) by {
                    if q != p {
                        if slots@.contains(q as usize) {
                            let a = choose|a: int| 0 <= a < slots@.len() && slots@[a] == q as usize;
                            assert(a < s0.len());
                            assert(s0[a] == q as usize);
                        }
                        if s0.contains(q as usize) {
                            let a = choose|a: int| 0 <= a < s0.len() && s0[a] == q as usize;
                            assert(slots@[a] == q as usize);
                        }
                    } else {
                        assert(slots@[k as int] == p);
                    }
                }
                assert forall|a: int, b: int| 0 <= a < b < k + 1 implies #[trigger] slots@[a] != #[trigger] slots@[b] by {
                    if b == k {
                        assert(slots@[a] == s0[a]);
                        assert(s0.contains(s0[a]));
                    } else {
                        assert(slots@[a] == s0[a] && slots@[b] == s0[b]);
                    }
                }
            }
            k += 1;
        }
        proof {
            assert forall|a: int, b: int| 0 <= a < b < slots@.len() implies (#[trigger] slots@[a]
                != #[trigger] slots@[b] <==> canon(edges@[a]) != canon(edges@[b])) by {
                let ea = canon(edges@[a]);
                let eb = canon(edges@[b]);
                lemma_pair_slot(n, ea.0 as nat, ea.1 as nat, eb.0 as nat, eb.1 as nat);
            }
            assert forall|a: int| 0 <= a < slots@.len() implies #[trigger] slots@[a] < slot_total(n) by {
                let ea = canon(edges@[a]);
                lemma_pair_slot(n, ea.0 as nat, ea.1 as nat, ea.0 as nat, ea.1 as nat);
            }
            assert(member_set(slots@) =~= edge_slot_set(n, edges@)) by {
                assert forall|p: nat| member_set(slots@).contains(p) implies edge_slot_set(n, edges@).contains(p) by {
                    let a = choose|a: int| 0 <= a < slots@.len() && slots@[a] == p;
                    assert(edge_slot(n, edges@[a]) == p);
                }
                assert forall|p: nat| edge_slot_set(n, edges@).contains(p) implies member_set(slots@).contains(p) by {
                    let a = choose|a: int| 0 <= a < edges@.len() && edge_slot(n, #[trigger] edges@[a]) == p;
                    assert(slots@[a] == p);
                }
            }
        }
        proof {
            let total = slot_total(n);
            assert(prefix_valid(slots@, total, slots@.len() as int) <==> edges_ok(n, edges@)) by {
                if edges_ok(n, edges@) {
                    assert forall|a: int, b: int| 0 <= a < b < slots@.len() implies #[trigger] slots@[a]
                        != #[trigger] slots@[b] by {
                        assert(canon(edges@[a]) != canon(edges@[b]));
                    }
                }
                if prefix_valid(slots@, total, slots@.len() as int) {
                    assert forall|a: int, b: int| 0 <= a < b < edges@.len() implies canon(
                        #[trigger] edges@[a],
                    ) != canon(#[trigger] edges@[b]) by {
                        assert(slots@[a] != slots@[b]);
                    }
                }
            }
        }
        match subset_rank(slots.as_slice(), self.pairs.len()) {
            Ok(v) => Ok(v),
            Err(e) => Err(RankAdapterError::from_comb(e)),
        }
    }

    /// Unrank an ordinal into its edges, in slot order.
    pub fn unrank(&self, ordinal: &BigNat) -> (r: Result<Vec<(usize, usize)>, RankAdapterError>)
        requires
            self.wf(),
        ensures
            r is Ok <==> ordinal@ < pow2(slot_total(self.nodes())),
            match r {
                Ok(es) => es@ == slot_pick(self.nodes(), ordinal@, slot_total(self.nodes())),
                Err(e) => e is Invalid,
            },
    {
        let ghost n = self.n as nat;
        let bound = BigNat::pow2(self.pairs.len());
        if !ordinal.lt(&bound) {
            let od = ordinal.to_decimal();
            let bd = bound.to_decimal();
            let mut m = text_cat("simple graph ordinal ", od.as_str());
            m.append(" >= cardinality ");
            m.append(bd.as_str());
            return Err(RankAdapterError::Invalid(m));
        }
        let mut edges: Vec<(usize, usize)> = Vec::new();
        let mut p: usize = 0;
        while p < self.pairs.len()
            invariant
                self.wf(),
                n == self.n,
                p <= self.pairs@.len(),
                edges@ == slot_pick(n, ordinal@, p as nat),
            decreases self.pairs@.len() - p,
        {
            if ordinal.bit(p as u64) {
                edges.push(self.pairs[p]);
            }
            p += 1;
        }
        Ok(edges)
    }

    /// Edge symmetric-difference distance between the graphs at two
    /// ordinals: the slots whose edge exactly one of the two graphs has.
    pub fn distance(&self, a: &BigNat, b: &BigNat) -> (r: Result<BigNat, RankAdapterError>)
        requires
            self.wf(),
        ensures
            r is Ok <==> a@ < pow2(slot_total(self.nodes())) && b@ < pow2(slot_total(self.nodes())),
            match r {
                Ok(d) => d@ == slot_mismatches(a@, b@, slot_total(self.nodes())),
                Err(e) => e is Invalid,
            },
    {
        self.unrank(a)?;
        self.unrank(b)?;
        let mut count: usize = 0;
        let mut p: usize = 0;
        while p < self.pairs.len()
            invariant
                p <= self.pairs@.len(),
                count <= p,
                count == slot_mismatches(a@, b@, p as nat),
            decreases self.pairs@.len() - p,
        {
            if a.bit(p as u64) != b.bit(p as u64) {
                count += 1;
            }
            p += 1;
        }
        Ok(BigNat::from_usize(count))
    }
}

} // verus!
