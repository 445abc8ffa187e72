//! Browse/help card content for the graph family.

use vstd::prelude::*;

verus! {

/// A browse/help card descriptor for the graph family.
#[derive(Debug, Clone, PartialEq, Eq)]
pub struct CardSpec {
    /// Stable card key.
    pub key: &'static str,
    /// One-line summary.
    pub summary: &'static str,
    /// Operation names exposed by this family.
    pub operations: Vec<&'static str>,
    /// Data forms / value types this family deals in.
    pub data_forms: Vec<&'static str>,
    /// Known limits and capability needs.
    pub limits: &'static str,
}

/// The graph family cards: one card, keyed `discrete/graph`.
pub fn graph_cards() -> (r: Vec<CardSpec>)
    ensures
        r@.len() == 1,
        r@[0].key@ == "discrete/graph"@,
        r@[0].summary@ == "Weighted graphs with traversal and connectivity."@,
        r@[0].operations@.len() == 5,
        r@[0].operations@[0]@ == "bfs"@,
        r@[0].operations@[4]@ == "strongly-connected-components"@,
        r@[0].data_forms@.len() == 2,
        r@[0].data_forms@[0]@ == "graph"@,
        r@[0].data_forms@[1]@ == "edge"@,
{
    let operations = vec![
        "bfs",
        "dfs",
        "connected-components",
        "weakly-connected-components",
        "strongly-connected-components",
    ];
    let data_forms = vec!["graph", "edge"];
    let card = CardSpec {
        key: "discrete/graph",
        summary: "Weighted graphs with traversal and connectivity.",
        operations,
        data_forms,
        limits: "Node identity is index-based; multiedges and self-loops are representable. Connectivity validates endpoints and fails closed on out-of-range nodes.",
    };
    vec![card]
}

} // verus!
