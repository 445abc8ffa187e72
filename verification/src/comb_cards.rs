//! Browse/help card content for the combinatorics family.

use vstd::prelude::*;

verus! {

/// A browse/help card descriptor for the combinatorics family.
#[derive(Debug, Clone, PartialEq, Eq)]
pub struct CardSpec {
    /// Stable card key.
    pub key: &'static str,
    /// One-line summary.
    pub summary: &'static str,
    /// Operation names exposed by this family.
    pub operations: Vec<&'static str>,
    /// Data forms / value types this family deals in.
    pub data_forms: Vec<&'static str>,
    /// Known limits and capability needs.
    pub limits: &'static str,
}

/// The combinatorics family cards: one card, keyed `discrete/combinatorics`.
pub fn combinatorics_cards() -> (r: Vec<CardSpec>)
    ensures
        r@.len() == 1,
        r@[0].key@ == "discrete/combinatorics"@,
        r@[0].summary@ == "Exact counts, lazy enumerators, and canonical ordinals."@,
        r@[0].operations@.len() == 10,
        r@[0].operations@[0]@ == "factorial"@,
        r@[0].operations@[9]@ == "rank-unrank"@,
        r@[0].data_forms@.len() == 5,
        r@[0].data_forms@[0]@ == "bit-vector"@,
        r@[0].data_forms@[4]@ == "partition"@,
{
    let operations = vec![
        "factorial",
        "binomial",
        "stirling2",
        "bell-number",
        "integer-partition-count",
        "subsets",
        "combinations",
        "permutations",
        "integer-partitions",
        "rank-unrank",
    ];
    let data_forms = vec!["bit-vector", "subset", "combination", "permutation", "partition"];
    let card = CardSpec {
        key: "discrete/combinatorics",
        summary: "Exact counts, lazy enumerators, and canonical ordinals.",
        operations,
        data_forms,
        limits: "Counts are exact BigUint. Bitmask iterators cap cardinality at 127; explosive enumerations require explicit bounds from the caller via take/limit.",
    };
    vec![card]
}

} // verus!
