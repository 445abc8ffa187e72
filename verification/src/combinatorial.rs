//! Combination, permutation and bounded-integer-vector rank spaces.

use crate::bignat::{decimal, BigNat};
use crate::combination::{
    combination_rank, combination_unrank, comb_rank, is_combination, lemma_comb_rank_injective,
};
use crate::count::{binom, fact};
use crate::descriptor::{describes, param_is, SpaceDescriptor};
use crate::error::RankAdapterError;
use crate::metric::{kendall, kendall_tau, l1_sum_u64, l1_u64, sym_diff_size, symmetric_difference};
use crate::mixed_radix::{
    digits_in_range, lemma_mixed_radix_injective, mixed_radix_rank, mixed_radix_unrank,
    mixed_radix_value, radices_positive, radix_product,
};
use crate::permutation::{
    is_permutation, lehmer_rank, lemma_lehmer_rank_injective, permutation_rank, permutation_unrank,
};
use crate::text::push_num;
use vstd::prelude::*;

verus! {

/// The `k`-combination of `n` with lexicographic rank `r`.
pub open spec fn comb_at(n: nat, k: nat, r: nat) -> Seq<usize> {
    choose|c: Seq<usize>| c.len() == k && is_combination(c, n) && comb_rank(c, n) == r
}

/// The permutation of `{0, ..., n-1}` with Lehmer rank `r`.
pub open spec fn perm_at(n: nat, r: nat) -> Seq<usize> {
    choose|p: Seq<usize>| p.len() == n && is_permutation(p) && lehmer_rank(p) == r
}

/// The digit vector under radices `radices` with mixed-radix value `r`.
pub open spec fn digits_at(radices: Seq<u64>, r: nat) -> Seq<u64> {
    choose|d: Seq<u64>| digits_in_range(d, radices) && mixed_radix_value(d, radices) == r
}

/// `usize`'s decimal numeral.
fn usize_text(v: usize) -> (r: String)
    ensures
        r@ == decimal(v as nat),
{
    BigNat::from_usize(v).to_decimal()
}

/// `rank/discrete/combination`: `k`-subsets of `n` in combinadic order.
#[derive(Debug, Clone, Copy, PartialEq, Eq)]
pub struct CombinationSpace {
    /// Ground-set size.
    pub n: usize,
    /// Combination size.
    pub k: usize,
}

impl CombinationSpace {
    /// The space descriptor.
    pub fn descriptor(&self) -> (r: SpaceDescriptor)
        ensures
            describes(r, "rank/discrete/combination", "combinadic", "symmetric-difference"),
            r.params@.len() == 2,
            param_is(r, 0, "n", decimal(self.n as nat)),
            param_is(r, 1, "k", decimal(self.k as nat)),
    {
        SpaceDescriptor {
            id: "rank/discrete/combination",
            version: 1,
            params: vec![("n", usize_text(self.n)), ("k", usize_text(self.k))],
            order: "combinadic",
            metric: "symmetric-difference",
        }
    }

    /// Rank an ascending combination of elements below `n`.
    pub fn rank(&self, combo: &[usize]) -> (r: Result<BigNat, RankAdapterError>)
        ensures
            r is Ok <==> is_combination(combo@, self.n as nat),
            match r {
                Ok(v) => v@ == comb_rank(combo@, self.n as nat),
                Err(e) => e is Invalid,
            },
    {
        match combination_rank(combo, self.n) {
            Ok(v) => Ok(v),
            Err(e) => Err(RankAdapterError::from_comb(e)),
        }
    }

    /// Unrank an ordinal into the combination that ranks back to it.
    pub fn unrank(&self, ordinal: &BigNat) -> (r: Result<Vec<usize>, RankAdapterError>)
        ensures
            r is Ok <==> ordinal@ < binom(self.n as nat, self.k as nat),
            match r {
                Ok(c) => c@ == comb_at(self.n as nat, self.k as nat, ordinal@) && c@.len() == self.k
                    && is_combination(c@, self.n as nat) && comb_rank(c@, self.n as nat) == ordinal@,
                Err(e) => e is Invalid,
            },
    {
        match combination_unrank(ordinal, self.n, self.k) {
            Ok(c) => {
                proof {
                    let w = comb_at(self.n as nat, self.k as nat, ordinal@);
                    lemma_comb_rank_injective(c@, w, self.n as nat);
                }
                Ok(c)
            },
            Err(e) => Err(RankAdapterError::from_comb(e)),
        }
    }

    /// Symmetric-difference distance between the combinations at two ordinals.
    pub fn distance(&self, a: &BigNat, b: &BigNat) -> (r: Result<BigNat, RankAdapterError>)
        ensures
            r is Ok <==> a@ < binom(self.n as nat, self.k as nat) && b@ < binom(
                self.n as nat,
                self.k as nat,
            ),
            match r {
                Ok(d) => d@ == sym_diff_size(
                    comb_at(self.n as nat, self.k as nat, a@),
                    comb_at(self.n as nat, self.k as nat, b@),
                ),
                Err(e) => e is Invalid,
            },
    {
        let ca = self.unrank(a)?;
        let cb = self.unrank(b)?;
        Ok(symmetric_difference(&ca, &cb))
    }
}

/// `rank/discrete/permutation`: permutations of `{0, ..., n-1}` in Lehmer order.
#[derive(Debug, Clone, Copy, PartialEq, Eq)]
pub struct PermutationSpace {
    /// Permutation size.
    pub n: usize,
}

impl PermutationSpace {
    /// The space descriptor.
    pub fn descriptor(&self) -> (r: SpaceDescriptor)
        ensures
            describes(r, "rank/discrete/permutation", "lehmer", "kendall-tau"),
            r.params@.len() == 1,
            param_is(r, 0, "n", decimal(self.n as nat)),
    {
        SpaceDescriptor {
            id: "rank/discrete/permutation",
            version: 1,
            params: vec![("n", usize_text(self.n))],
            order: "lehmer",
            metric: "kendall-tau",
        }
    }

    /// Rank a permutation by its Lehmer code.
    pub fn rank(&self, perm: &[usize]) -> (r: Result<BigNat, RankAdapterError>)
        ensures
            r is Ok <==> is_permutation(perm@),
            match r {
                Ok(v) => v@ == lehmer_rank(perm@),
                Err(e) => e is Invalid,
            },
    {
        match permutation_rank(perm) {
            Ok(v) => Ok(v),
            Err(e) => Err(RankAdapterError::from_comb(e)),
        }
    }

    /// Unrank an ordinal into a permutation of `{0, ..., n-1}`.
    pub fn unrank(&self, ordinal: &BigNat) -> (r: Result<Vec<usize>, RankAdapterError>)
        ensures
            r is Ok <==> ordinal@ < fact(self.n as nat),
            match r {
                Ok(p) => p@ == perm_at(self.n as nat, ordinal@) && p@.len() == self.n && is_permutation(p@)
                    && lehmer_rank(p@) == ordinal@,
                Err(e) => e is Invalid,
            },
    {
        match permutation_unrank(ordinal, self.n) {
            Ok(p) => {
                proof {
                    let w = perm_at(self.n as nat, ordinal@);
                    lemma_lehmer_rank_injective(p@, w);
                }
                Ok(p)
            },
            Err(e) => Err(RankAdapterError::from_comb(e)),
        }
    }

    /// Kendall-tau distance between the permutations at two ordinals.
    pub fn distance(&self, a: &BigNat, b: &BigNat) -> (r: Result<BigNat, RankAdapterError>)
        ensures
            r is Ok <==> a@ < fact(self.n as nat) && b@ < fact(self.n as nat),
            match r {
                Ok(d) => d@ == kendall(perm_at(self.n as nat, a@), perm_at(self.n as nat, b@)),
                Err(e) => e is Invalid,
            },
    {
        let pa = self.unrank(a)?;
        let pb = self.unrank(b)?;
        Ok(kendall_tau(&pa, &pb))
    }
}

/// `rank/discrete/bounded-int-vector`: mixed-radix integer vectors, L1 metric.
#[derive(Debug, Clone, PartialEq, Eq)]
pub struct BoundedIntVectorSpace {
    /// Per-position radices; digit `i` ranges over `0..radices[i]`.
    pub radices: Vec<u64>,
}

/// The decimals of the first `k` radices, each after the first preceded by
/// `", "`.
pub open spec fn radix_items(radices: Seq<u64>, k: nat) -> Seq<char>
    decreases k,
{
    if k == 0 {
        Seq::empty()
    } else if k == 1 {
        decimal(radices[0] as nat)
    } else {
        radix_items(radices, (k - 1) as nat) + ", "@ + decimal(radices[k - 1] as nat)
    }
}

/// A radix list written as `Vec<u64>`'s `Debug` shows it, such as
/// `[3, 2, 4]`.
pub open spec fn radix_list_text(radices: Seq<u64>) -> Seq<char> {
    "["@ + radix_items(radices, radices.len()) + "]"@
}

/// Write a radix list as `[3, 2, 4]`.
fn radix_list_debug(radices: &Vec<u64>) -> (r: String)
    ensures
        r@ == radix_list_text(radices@),
{
    let mut items = String::new();
    let mut i: usize = 0;
    while i < radices.len()
        invariant
            i <= radices@.len(),
            items@ == radix_items(radices@, i as nat),
        decreases radices@.len() - i,
    {
        if i > 0 {
            items.append(", ");
        }
        push_num(&mut items, radices[i]);
        proof {
            if i == 0 {
                assert(items@ =~= decimal(radices@[0] as nat));
            }
        }
        i += 1;
    }
    let mut r = String::from_str("[");
    r.append(items.as_str());
    r.append("]");
    r
}

impl BoundedIntVectorSpace {
    /// The space descriptor.
    pub fn descriptor(&self) -> (r: SpaceDescriptor)
        ensures
            describes(r, "rank/discrete/bounded-int-vector", "mixed-radix", "l1"),
            r.params@.len() == 1,
            param_is(r, 0, "radices", radix_list_text(self.radices@)),
    {
        SpaceDescriptor {
            id: "rank/discrete/bounded-int-vector",
            version: 1,
            params: vec![("radices", radix_list_debug(&self.radices))],
            order: "mixed-radix",
            metric: "l1",
        }
    }

    /// Rank a digit vector.
    pub fn rank(&self, digits: &[u64]) -> (r: Result<BigNat, RankAdapterError>)
        ensures
            r is Ok <==> radices_positive(self.radices@) && digits_in_range(digits@, self.radices@),
            match r {
                Ok(v) => v@ == mixed_radix_value(digits@, self.radices@),
                Err(e) => e is Invalid,
            },
    {
        match mixed_radix_rank(digits, self.radices.as_slice()) {
            Ok(v) => Ok(v),
            Err(e) => Err(RankAdapterError::from_comb(e)),
        }
    }

    /// Unrank an ordinal into the digit vector that ranks back to it.
    pub fn unrank(&self, ordinal: &BigNat) -> (r: Result<Vec<u64>, RankAdapterError>)
        ensures
            r is Ok <==> radices_positive(self.radices@) && ordinal@ < radix_product(self.radices@, 0),
            match r {
                Ok(d) => d@ == digits_at(self.radices@, ordinal@) && digits_in_range(d@, self.radices@)
                    && mixed_radix_value(d@, self.radices@) == ordinal@,
                Err(e) => e is Invalid,
            },
    {
        match mixed_radix_unrank(ordinal, self.radices.as_slice()) {
            Ok(d) => {
                proof {
                    let w = digits_at(self.radices@, ordinal@);
                    lemma_mixed_radix_injective(d@, w, self.radices@);
                }
                Ok(d)
            },
            Err(e) => Err(RankAdapterError::from_comb(e)),
        }
    }

    /// L1 distance between the digit vectors at two ordinals.
    pub fn distance(&self, a: &BigNat, b: &BigNat) -> (r: Result<BigNat, RankAdapterError>)
        ensures
            r is Ok <==> radices_positive(self.radices@) && a@ < radix_product(self.radices@, 0) && b@
                < radix_product(self.radices@, 0),
            match r {
                Ok(d) => d@ == l1_sum_u64(
                    digits_at(self.radices@, a@),
                    digits_at(self.radices@, b@),
                    self.radices@.len(),
                ),
                Err(e) => e is Invalid,
            },
    {
        let da = self.unrank(a)?;
        let db = self.unrank(b)?;
        Ok(l1_u64(&da, &db))
    }
}

} // verus!
