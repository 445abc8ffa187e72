//! Card content for the discrete rank spaces.

use crate::descriptor::CardSpec;
use vstd::prelude::*;

verus! {

/// Whether `c` is the card with the given key, summary, order and metric.
pub open spec fn card_is(c: CardSpec, key: &str, summary: &str, order: &str, metric: &str) -> bool {
    &&& c.key@ == key@
    &&& c.summary@ == summary@
    &&& c.order@ == order@
    &&& c.metric@ == metric@
}

/// The discrete rank-space cards: one per rank space, seven in all.
pub fn discrete_rank_cards() -> (r: Vec<CardSpec>)
    ensures
        r@.len() == 7,
        card_is(r@[0], "rank/discrete/bit-vector", "Fixed-width bit vectors.", "natural-binary", "hamming"),
        card_is(r@[1], "rank/discrete/subset", "Subsets of a finite ground set.", "bitmask", "symmetric-difference"),
        card_is(r@[2], "rank/discrete/combination", "k-subsets of n.", "combinadic", "symmetric-difference"),
        card_is(r@[3], "rank/discrete/permutation", "Permutations of n elements.", "lehmer", "kendall-tau"),
        card_is(r@[4], "rank/discrete/bounded-int-vector", "Mixed-radix integer vectors.", "mixed-radix", "l1"),
        card_is(
            r@[5],
            "rank/discrete/simple-graph",
            "Labeled simple undirected graphs on n nodes.",
            "adjacency-upper-triangle",
            "edge-symmetric-difference",
        ),
        card_is(r@[6], "rank/discrete/fwht-signal", "Finite-alphabet integer signals.", "mixed-radix", "coefficient-l1"),
{
    vec![
        CardSpec {
            key: "rank/discrete/bit-vector",
            summary: "Fixed-width bit vectors.",
            order: "natural-binary",
            metric: "hamming",
        },
        CardSpec {
            key: "rank/discrete/subset",
            summary: "Subsets of a finite ground set.",
            order: "bitmask",
            metric: "symmetric-difference",
        },
        CardSpec {
            key: "rank/discrete/combination",
            summary: "k-subsets of n.",
            order: "combinadic",
            metric: "symmetric-difference",
        },
        CardSpec {
            key: "rank/discrete/permutation",
            summary: "Permutations of n elements.",
            order: "lehmer",
            metric: "kendall-tau",
        },
        CardSpec {
            key: "rank/discrete/bounded-int-vector",
            summary: "Mixed-radix integer vectors.",
            order: "mixed-radix",
            metric: "l1",
        },
        CardSpec {
            key: "rank/discrete/simple-graph",
            summary: "Labeled simple undirected graphs on n nodes.",
            order: "adjacency-upper-triangle",
            metric: "edge-symmetric-difference",
        },
        CardSpec {
            key: "rank/discrete/fwht-signal",
            summary: "Finite-alphabet integer signals.",
            order: "mixed-radix",
            metric: "coefficient-l1",
        },
    ]
}

} // verus!
