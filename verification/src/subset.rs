//! Subsets of `{0, ..., n-1}` in bitmask order, with rank/unrank.
//!
//! A subset is represented as its sorted member indices. Ordinal `r` is the
//! bitmask whose bit `i` indicates membership of element `i`.

use crate::bignat::{decimal, nat_bit, BigNat};
use crate::bit_vector::{lemma_mask_bit, lemma_mask_bound, lemma_mask_empty, lemma_mask_ext, lemma_mask_insert, lemma_mask_of_bits, lemma_u128_bit, lemma_u128_shl_one, mask_value};
use crate::error::CombError;
use std::collections::BTreeSet;
use vstd::arithmetic::power2::{lemma_pow2_pos, pow2};
use crate::text::{text_num, text_nums};
use vstd::prelude::*;

verus! {

/// The largest ground-set size whose `2^n` cardinality fits a `u128` cursor.
pub const MAX_N: usize = 127;

/// The members of an index list, as a set of naturals.
pub open spec fn member_set(s: Seq<usize>) -> Set<nat> {
    Set::new(|j: nat| exists|i: int| 0 <= i < s.len() && s[i] == j)
}

/// Whether `s` is strictly ascending with every member below `n`.
pub open spec fn is_sorted_subset(s: Seq<usize>, n: nat) -> bool {
    &&& forall|i: int, j: int| 0 <= i < j < s.len() ==> #[trigger] s[i] < #[trigger] s[j]
    &&& forall|i: int| 0 <= i < s.len() ==> #[trigger] s[i] < n
}

/// Whether `s` holds the members `j < n` with bit `j` of `r` set, ascending.
pub open spec fn lists_bits(s: Seq<usize>, r: nat, n: nat) -> bool {
    &&& is_sorted_subset(s, n)
    &&& forall|j: nat| j < n ==> (#[trigger] member_set(s).contains(j) <==> nat_bit(r, j))
}

/// Iterator over all `2^n` subsets of `{0, ..., n-1}` in bitmask order.
#[derive(Debug, Clone)]
pub struct SubsetIter {
    n: usize,
    next: u128,
    total: u128,
}

impl SubsetIter {
    /// The ground-set size.
    pub closed spec fn size(&self) -> nat {
        self.n as nat
    }

    /// The next ordinal to emit.
    pub closed spec fn cursor(&self) -> nat {
        self.next as nat
    }

    /// The number of subsets in the domain.
    pub closed spec fn total_spec(&self) -> nat {
        self.total as nat
    }

    /// The size is in range and the total is `2^n`.
    pub closed spec fn wf(&self) -> bool {
        self.n <= MAX_N && self.total == pow2(self.n as nat)
    }

    /// Total number of subsets in this iterator's finite domain.
    pub fn total_ordinals(&self) -> (r: u128)
        ensures
            r == self.total_spec(),
    {
        self.total
    }

    /// Number of subsets not yet emitted.
    pub fn remaining_ordinals(&self) -> (r: u128)
        ensures
            r == if self.cursor() <= self.total_spec() {
                (self.total_spec() - self.cursor()) as nat
            } else {
                0
            },
    {
        self.total.saturating_sub(self.next)
    }

    /// The next subset in bitmask order, or `None` when exhausted.
    pub fn next(&mut self) -> (r: Option<Vec<usize>>)
        requires
            old(self).wf(),
        ensures
            final(self).wf(),
            final(self).size() == old(self).size(),
            final(self).total_spec() == old(self).total_spec(),
            if old(self).cursor() >= old(self).total_spec() {
                r is None && final(self).cursor() == old(self).cursor()
            } else {
                r matches Some(s) && final(self).cursor() == old(self).cursor() + 1 && lists_bits(
                    s@,
                    old(self).cursor(),
                    old(self).size(),
                )
            },
    {
        if self.next >= self.total {
            return None;
        }
        let r = self.next;
        self.next = self.next + 1;
        let mut out: Vec<usize> = Vec::new();
        let mut i: usize = 0;
        while i < self.n
            invariant
                self.n <= MAX_N,
                i <= self.n,
                is_sorted_subset(out@, i as nat),
                forall|j: nat| j < i ==> (#[trigger] member_set(out@).contains(j) <==> nat_bit(r as nat, j)),
                forall|j: nat| #[trigger] member_set(out@).contains(j) ==> j < i,
            decreases self.n - i,
        {
            let ii = i as u128;
            proof {
                lemma_u128_bit(r, ii);
            }
            if (r >> ii) & 1 == 1 {
                let ghost before = out@;
                out.push(i);
                proof {
                    lemma_member_push(before, i);
                }
            }
            i += 1;
        }
        Some(out)
    }
}

/// Pushing `x` adds exactly `x` to the member set.
pub proof fn lemma_member_push(s: Seq<usize>, x: usize)
    ensures
        member_set(s.push(x)) == member_set(s).insert(x as nat),
{
    assert forall|j: nat| member_set(s.push(x)).contains(j) <==> member_set(s).insert(x as nat).contains(j) by {
        if member_set(s.push(x)).contains(j) {
            let i = choose|i: int| 0 <= i < s.push(x).len() && s.push(x)[i] == j;
            if i < s.len() {
                assert(s[i] == j);
            }
        }
        if member_set(s).contains(j) {
            let i = choose|i: int| 0 <= i < s.len() && s[i] == j;
            assert(s.push(x)[i] == j);
        }
        if j == x {
            assert(s.push(x)[s.len() as int] == j);
        }
    }
    assert(member_set(s.push(x)) =~= member_set(s).insert(x as nat));
}

/// Construct a subset iterator, rejecting `n` too large for the `u128` cursor.
pub fn subsets(n: usize) -> (r: Result<SubsetIter, CombError>)
    ensures
        match r {
            Ok(it) => n <= MAX_N && it.wf() && it.size() == n && it.cursor() == 0 && it.total_spec() == pow2(
                n as nat,
            ),
            Err(e) => n > MAX_N && e is LimitExceeded,
        },
{
    if n > MAX_N {
        return Err(CombError::LimitExceeded(text_nums("subset cardinality ", n as u64, " exceeds ", MAX_N as u64, "")));
    }
    let w = n as u128;
    proof {
        lemma_u128_shl_one(w);
    }
    let total = 1u128 << w;
    Ok(SubsetIter { n, next: 0, total })
}

/// Whether the first `k` members of `s` are below `n` and pairwise distinct.
pub open spec fn prefix_valid(s: Seq<usize>, n: nat, k: int) -> bool {
    &&& forall|i: int| 0 <= i < k ==> #[trigger] s[i] < n
    &&& forall|i: int, j: int| 0 <= i < j < k ==> #[trigger] s[i] != #[trigger] s[j]
}

/// `usize` keys obey the total-order laws that ordered sets rely on.
proof fn lemma_usize_ordered()
    ensures
        vstd::laws_cmp::obeys_cmp::<usize>(),
{
    broadcast use vstd::laws_cmp::group_laws_cmp;
}

/// The bitmask ordinal of `subset` (a list of distinct indices `< n`).
pub fn subset_rank(subset: &[usize], n: usize) -> (r: Result<BigNat, CombError>)
    ensures
        r is Ok <==> prefix_valid(subset@, n as nat, subset@.len() as int),
        match r {
            Ok(v) => v@ == mask_value(member_set(subset@), n as nat),
            Err(e) => exists|i: int|
                0 <= i < subset@.len() && prefix_valid(subset@, n as nat, i) && if #[trigger] subset@[i] >= n {
                    e is OutOfRange
                } else {
                    e is InvalidParameters && exists|j: int| 0 <= j < i && subset@[j] == subset@[i]
                },
        },
{
    let mut rank = BigNat::zero();
    let mut seen: BTreeSet<usize> = BTreeSet::new();
    let mut k: usize = 0;
    proof {
        assert(member_set(subset@.subrange(0, 0)) =~= Set::empty());
        lemma_mask_empty(member_set(subset@.subrange(0, 0)), n as nat);
    }
    while k < subset.len()
        invariant
            k <= subset@.len(),
            prefix_valid(subset@, n as nat, k as int),
            forall|x: usize| seen@.contains(x) <==> member_set(subset@.subrange(0, k as int)).contains(x as nat),
            rank@ == mask_value(member_set(subset@.subrange(0, k as int)), n as nat),
            forall|j: nat| #[trigger] member_set(subset@.subrange(0, k as int)).contains(j) ==> j < n,
        decreases subset@.len() - k,
    {
        let i = subset[k];
        let ghost pre = subset@.subrange(0, k as int);
        proof {
            assert(subset@.subrange(0, k + 1) =~= pre.push(i));
            lemma_member_push(pre, i);
        }
        if i >= n {
            return Err(CombError::OutOfRange { value: i.to_string(), bound: n.to_string() });
        }
        proof {
            lemma_usize_ordered();
        }
        if !seen.insert(i) {
            proof {
                assert(member_set(pre).contains(i as nat));
                let j = choose|j: int| 0 <= j < pre.len() && pre[j] == i;
                assert(subset@[j] == subset@[k as int]);
            }
            return Err(CombError::InvalidParameters(text_num("subset member ", i as u64, " appears more than once")));
        }
        proof {
            assert(!member_set(pre).contains(i as nat));
            lemma_mask_insert(member_set(pre), i as nat, n as nat);
            lemma_mask_bound(member_set(pre), n as nat);
            assert forall|a: int, b: int| 0 <= a < b < k + 1 implies #[trigger] subset@[a] != #[trigger] subset@[b] by {
                if b == k {
                    if subset@[a] == subset@[b] {
                        assert(pre[a] == i);
                    }
                }
            }
        }
        let ghost old_rank = rank@;
        proof {
            lemma_mask_bit(member_set(pre), i as nat, n as nat);
        }
        rank.set_bit(i as u64);
        k += 1;
    }
    proof {
        assert(subset@.subrange(0, subset@.len() as int) =~= subset@);
    }
    Ok(rank)
}

/// The subset (sorted member indices) for bitmask ordinal `rank` over `n`.
pub fn subset_unrank(rank: &BigNat, n: usize) -> (r: Result<Vec<usize>, CombError>)
    ensures
        r is Ok <==> rank@ < pow2(n as nat),
        match r {
            Ok(s) => lists_bits(s@, rank@, n as nat) && mask_value(member_set(s@), n as nat) == rank@,
            Err(e) => e matches CombError::OutOfRange { value, bound } && value@ == decimal(rank@)
                && bound@ == decimal(pow2(n as nat)),
        },
{
    let bound = BigNat::pow2(n);
    if !rank.lt(&bound) {
        return Err(CombError::OutOfRange { value: rank.to_decimal(), bound: bound.to_decimal() });
    }
    let mut out: Vec<usize> = Vec::new();
    let mut i: usize = 0;
    while i < n
        invariant
            i <= n,
            is_sorted_subset(out@, i as nat),
            forall|j: nat| j < i ==> (#[trigger] member_set(out@).contains(j) <==> nat_bit(rank@, j)),
            forall|j: nat| #[trigger] member_set(out@).contains(j) ==> j < i,
        decreases n - i,
    {
        if rank.bit(i as u64) {
            let ghost before = out@;
            out.push(i);
            proof {
                lemma_member_push(before, i);
            }
        }
        i += 1;
    }
    proof {
        lemma_mask_of_bits(rank@, n as nat);
        lemma_mask_ext(member_set(out@), Set::new(|j: nat| nat_bit(rank@, j)), n as nat);
    }
    Ok(out)
}

} // verus!
