//! Deterministic cookbook builder for the combination/permutation rank recipe.

use crate::bignat::decimal;
use crate::combination::{
    combination_rank, combination_unrank, comb_rank, floor_at, is_combination,
    lemma_comb_rank_injective, rank_prefix, skip_count,
};
use crate::count::{binom, fact};
use crate::error::CombError;
use crate::permutation::{
    count_below, is_permutation, lehmer_digit, lehmer_prefix, lehmer_rank, permutation_rank,
    permutation_unrank,
};
use vstd::prelude::*;

verus! {

/// Report produced by the rankable values cookbook recipe.
#[derive(Clone, Debug, PartialEq, Eq)]
pub struct RankableValuesDemo {
    /// Combination value used by the recipe.
    pub combination: Vec<usize>,
    /// Combination rank rendered as a decimal ordinal.
    pub combination_rank: String,
    /// Combination recovered from the ordinal.
    pub combination_unranked: Vec<usize>,
    /// Permutation value used by the recipe.
    pub permutation: Vec<usize>,
    /// Permutation rank rendered as a decimal ordinal.
    pub permutation_rank: String,
    /// Permutation recovered from the ordinal.
    pub permutation_unranked: Vec<usize>,
}

proof fn lemma_demo_comb_rank()
    ensures
        comb_rank(seq![0usize, 2, 4], 5) == 4,
{
    let c = seq![0usize, 2, 4];
    assert(binom(0, 0) == 1 && binom(0, 1) == 0);
    assert(binom(1, 0) == 1 && binom(1, 1) == 1);
    assert(binom(2, 0) == 1 && binom(2, 1) == 2);
    assert(binom(3, 1) == 3);
    assert(skip_count(5, 2, 0, 0) == 0);
    assert(skip_count(5, 1, 1, 1) == 0);
    assert(skip_count(5, 1, 1, 2) == 3);
    assert(skip_count(5, 0, 3, 3) == 0);
    assert(skip_count(5, 0, 3, 4) == 1);
    assert(floor_at(c, 0) == 0 && floor_at(c, 1) == 1 && floor_at(c, 2) == 3);
    assert(rank_prefix(c, 5, 3, 0) == 0);
    assert(rank_prefix(c, 5, 3, 1) == 0);
    assert(rank_prefix(c, 5, 3, 2) == 3);
    assert(rank_prefix(c, 5, 3, 3) == 4);
}

proof fn lemma_demo_perm_rank()
    ensures
        lehmer_rank(seq![2usize, 0, 1]) == 4,
        fact(3) == 6,
{
    let p = seq![2usize, 0, 1];
    assert(fact(0) == 1);
    assert(fact(1) == 1);
    assert(fact(2) == 2);
    assert(fact(3) == 6);
    assert(count_below(p, 2, 1, 1) == 0);
    assert(count_below(p, 2, 1, 2) == 1);
    assert(count_below(p, 2, 1, 3) == 2);
    assert(count_below(p, 0, 2, 2) == 0);
    assert(count_below(p, 0, 2, 3) == 0);
    assert(count_below(p, 1, 3, 3) == 0);
    assert(lehmer_digit(p, 0) == 2 && lehmer_digit(p, 1) == 0 && lehmer_digit(p, 2) == 0);
    assert(lehmer_prefix(p, 0) == 0);
    assert(lehmer_prefix(p, 1) == lehmer_prefix(p, 0) + lehmer_digit(p, 0) * fact(2));
    assert(lehmer_prefix(p, 1) == 4);
    assert(lehmer_prefix(p, 2) == 4);
    assert(lehmer_prefix(p, 3) == 4);
}

/// Rank the combination `[0, 2, 4]` of 5 and the permutation `[2, 0, 1]`,
/// then unrank both ordinals.
pub fn rankable_values_demo() -> (r: Result<RankableValuesDemo, CombError>)
    ensures
        r matches Ok(d) && d.combination@ == seq![0usize, 2, 4] && d.combination_rank@ == decimal(4)
            && d.combination_unranked@ == seq![0usize, 2, 4] && d.permutation@ == seq![2usize, 0, 1]
            && d.permutation_rank@ == decimal(4) && d.permutation_unranked@ == seq![2usize, 0, 1],
{
    let combination: Vec<usize> = vec![0, 2, 4];
    proof {
        assert(is_combination(combination@, 5));
        lemma_demo_comb_rank();
        assert(combination@ == seq![0usize, 2, 4]);
        crate::combination::lemma_comb_rank_bound(combination@, 5);
    }
    let c_rank = combination_rank(combination.as_slice(), 5)?;
    let combination_unranked = combination_unrank(&c_rank, 5, 3)?;
    proof {
        lemma_comb_rank_injective(combination_unranked@, combination@, 5);
    }
    let permutation: Vec<usize> = vec![2, 0, 1];
    proof {
        assert(is_permutation(permutation@));
        lemma_demo_perm_rank();
        assert(permutation@ == seq![2usize, 0, 1]);
    }
    let p_rank = permutation_rank(permutation.as_slice())?;
    let permutation_unranked = permutation_unrank(&p_rank, 3)?;
    proof {
        crate::permutation::lemma_lehmer_rank_injective(permutation_unranked@, permutation@);
    }
    Ok(
        RankableValuesDemo {
            combination,
            combination_rank: c_rank.to_decimal(),
            combination_unranked,
            permutation,
            permutation_rank: p_rank.to_decimal(),
            permutation_unranked,
        },
    )
}

} // verus!
