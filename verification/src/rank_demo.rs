//! Deterministic cookbook builder for the combination rank-space recipe.

use crate::bignat::decimal;
use crate::combination::{comb_rank, floor_at, is_combination, rank_prefix, skip_count};
use crate::combinatorial::CombinationSpace;
use crate::count::binom;
use crate::descriptor::SpaceDescriptor;
use crate::error::RankAdapterError;
use vstd::prelude::*;

verus! {

/// Report produced by the combination-space cookbook recipe.
#[derive(Clone, Debug, PartialEq, Eq)]
pub struct CombinationSpaceDemo {
    /// Rank-space descriptor id.
    pub descriptor_id: &'static str,
    /// Ground-set size.
    pub n: usize,
    /// Combination size.
    pub k: usize,
    /// Combination selected by the recipe.
    pub combination: Vec<usize>,
    /// Rank rendered as a decimal ordinal.
    pub rank: String,
    /// Combination recovered from the ordinal.
    pub unranked: Vec<usize>,
}

proof fn lemma_demo_rank()
    ensures
        comb_rank(seq![0usize, 2, 4], 6) == 5,
{
    let c = seq![0usize, 2, 4];
    assert(binom(0, 0) == 1 && binom(0, 1) == 0);
    assert(binom(1, 0) == 1 && binom(1, 1) == 1);
    assert(binom(2, 0) == 1 && binom(2, 1) == 2);
    assert(binom(3, 0) == 1 && binom(3, 1) == 3);
    assert(binom(4, 1) == 4);
    assert(skip_count(6, 2, 0, 0) == 0);
    assert(skip_count(6, 1, 1, 1) == 0);
    assert(skip_count(6, 1, 1, 2) == 4);
    assert(skip_count(6, 0, 3, 3) == 0);
    assert(skip_count(6, 0, 3, 4) == 1);
    assert(floor_at(c, 0) == 0 && floor_at(c, 1) == 1 && floor_at(c, 2) == 3);
    assert(rank_prefix(c, 6, 3, 0) == 0);
    assert(rank_prefix(c, 6, 3, 1) == 0);
    assert(rank_prefix(c, 6, 3, 2) == 4);
    assert(rank_prefix(c, 6, 3, 3) == 5);
}

/// Rank the combination `[0, 2, 4]` in the space of 3-combinations of 6,
/// then unrank the ordinal.
pub fn combination_space_demo() -> (r: Result<CombinationSpaceDemo, RankAdapterError>)
    ensures
        r matches Ok(d) && d.descriptor_id@ == "rank/discrete/combination"@ && d.n == 6 && d.k == 3
            && d.combination@ == seq![0usize, 2, 4] && d.rank@ == decimal(5)
            && d.unranked@ == seq![0usize, 2, 4],
{
    let space = CombinationSpace { n: 6, k: 3 };
    let descriptor: SpaceDescriptor = space.descriptor();
    let combination: Vec<usize> = vec![0, 2, 4];
    proof {
        assert(is_combination(combination@, 6));
        lemma_demo_rank();
        assert(combination@ == seq![0usize, 2, 4]);
        crate::combination::lemma_comb_rank_bound(combination@, 6);
    }
    let rank = space.rank(combination.as_slice())?;
    let unranked = space.unrank(&rank)?;
    proof {
        crate::combination::lemma_comb_rank_injective(unranked@, combination@, 6);
    }
    Ok(
        CombinationSpaceDemo {
            descriptor_id: descriptor.id,
            n: space.n,
            k: space.k,
            combination,
            rank: rank.to_decimal(),
            unranked,
        },
    )
}

} // verus!
