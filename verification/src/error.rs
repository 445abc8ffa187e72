//! Error types for the algebra spine, combinatorics, graph algorithms, and
//! rank adapters.

use crate::bignat::decimal;
use crate::text::{push_num, text_cat, text_nums};
use vstd::prelude::*;

verus! {

/// Errors raised by semiring construction and matrix operations.
#[derive(Debug, Clone, PartialEq, Eq)]
pub enum AlgebraError {
    /// Operand shapes are incompatible for the requested operation.
    ShapeMismatch(String),
    /// A `from_rows` input had rows of unequal length.
    Ragged,
    /// Closure is undefined: a diagonal entry's Kleene star does not converge.
    NoStar,
    /// An explicit size or iteration limit was exceeded.
    LimitExceeded(String),
    /// A matrix dimension product overflowed `usize`.
    DimensionOverflow {
        /// The requested row count.
        rows: usize,
        /// The requested column count.
        cols: usize,
    },
    /// A public matrix value violated `data.len() == rows * cols`.
    InvalidMatrix {
        /// The declared row count.
        rows: usize,
        /// The declared column count.
        cols: usize,
        /// The expected row-major entry count.
        expected: usize,
        /// The actual row-major entry count.
        actual: usize,
    },
    /// An index was out of bounds.
    IndexOutOfBounds {
        /// The offending index.
        index: usize,
        /// The valid length.
        len: usize,
    },
}

/// Errors raised by combinatorial counts, enumerators, and ordinals.
#[derive(Debug, Clone, PartialEq, Eq)]
pub enum CombError {
    /// An explicit enumeration limit was exceeded.
    LimitExceeded(String),
    /// An ordinal or index fell outside the valid range of its family.
    OutOfRange {
        /// The offending value, in decimal.
        value: String,
        /// The exclusive upper bound, in decimal.
        bound: String,
    },
    /// The supplied parameters do not describe a valid combinatorial family.
    InvalidParameters(String),
}

/// Errors raised by graph construction, algorithms, and verifiers.
#[derive(Debug, Clone, PartialEq, Eq)]
pub enum GraphError {
    /// The graph is disconnected, so the requested result does not exist.
    Disconnected,
    /// A negative-weight cycle makes shortest paths undefined.
    NegativeCycle,
    /// A negative edge weight was supplied to an algorithm that forbids it.
    NegativeWeight,
    /// The algorithm was called on the wrong kind of graph.
    WrongGraphKind(String),
    /// An edge referenced a node index outside the node range.
    InvalidEndpoint {
        /// The offending edge id.
        edge: usize,
        /// The out-of-range node index.
        node: usize,
        /// The number of nodes.
        len: usize,
    },
    /// An edge's id does not match its position in the edge list.
    InvalidEdgeId {
        /// The position of the edge record.
        index: usize,
        /// The id stored in the record.
        id: usize,
        /// The number of edge records.
        len: usize,
    },
    /// A node index passed to an algorithm was outside the node range.
    NodeOutOfRange {
        /// The out-of-range node index.
        node: usize,
        /// The number of nodes.
        count: usize,
    },
    /// A weight computation overflowed.
    WeightOverflow(String),
    /// A submitted certificate failed verification.
    CertificateInvalid(String),
    /// A staged feature is not yet implemented.
    Unsupported(String),
}

/// Errors raised by discrete rank spaces, metrics, and grade compilers.
#[derive(Debug, Clone, PartialEq, Eq)]
pub enum RankAdapterError {
    /// A staged rank adapter is not yet implemented.
    Unsupported(String),
    /// A rank / unrank round-trip invariant was violated.
    RoundTrip(String),
    /// An explicit enumeration or search limit was exceeded.
    LimitExceeded(String),
    /// A value was invalid for the space (wrong shape, out of range, etc.).
    Invalid(String),
}

/// The `Display` text of an algebra error.
pub open spec fn algebra_text(err: AlgebraError) -> Seq<char> {
    match err {
        AlgebraError::ShapeMismatch(m) => "shape mismatch: "@ + m@,
        AlgebraError::Ragged => "ragged matrix input: rows have unequal length"@,
        AlgebraError::NoStar => "closure undefined: a diagonal entry has no convergent star"@,
        AlgebraError::LimitExceeded(m) => "limit exceeded: "@ + m@,
        AlgebraError::DimensionOverflow { rows, cols } => "matrix dimensions overflow: "@ + decimal(
            rows as nat,
        ) + "x"@ + decimal(cols as nat),
        AlgebraError::InvalidMatrix { rows, cols, expected, actual } => "matrix invariant violation: "@
            + decimal(rows as nat) + "x"@ + decimal(cols as nat) + " requires "@ + decimal(expected as nat)
            + " entries, found "@ + decimal(actual as nat),
        AlgebraError::IndexOutOfBounds { index, len } => "index out of bounds: index "@ + decimal(
            index as nat,
        ) + ", len "@ + decimal(len as nat),
    }
}

/// The message of an algebra error, as its `Display` shows it.
pub fn algebra_error_text(err: &AlgebraError) -> (r: String)
    ensures
        r@ == algebra_text(*err),
{
    match err {
        AlgebraError::ShapeMismatch(m) => text_cat("shape mismatch: ", m.as_str()),
        AlgebraError::Ragged => String::from_str("ragged matrix input: rows have unequal length"),
        AlgebraError::NoStar => String::from_str("closure undefined: a diagonal entry has no convergent star"),
        AlgebraError::LimitExceeded(m) => text_cat("limit exceeded: ", m.as_str()),
        AlgebraError::DimensionOverflow { rows, cols } => {
            let s = text_nums("matrix dimensions overflow: ", *rows as u64, "x", *cols as u64, "");
            assert(s@ == "matrix dimensions overflow: "@ + decimal(*rows as nat) + "x"@ + decimal(*cols as nat)) by {
                reveal_strlit("");
                assert(""@ =~= Seq::<char>::empty());
            }
            s
        },
        AlgebraError::InvalidMatrix { rows, cols, expected, actual } => {
            let mut s = text_nums("matrix invariant violation: ", *rows as u64, "x", *cols as u64, " requires ");
            push_num(&mut s, *expected as u64);
            s.append(" entries, found ");
            push_num(&mut s, *actual as u64);
            s
        },
        AlgebraError::IndexOutOfBounds { index, len } => {
            let s = text_nums("index out of bounds: index ", *index as u64, ", len ", *len as u64, "");
            assert(s@ == "index out of bounds: index "@ + decimal(*index as nat) + ", len "@ + decimal(*len as nat)) by {
                reveal_strlit("");
                assert(""@ =~= Seq::<char>::empty());
            }
            s
        },
    }
}

/// The `Display` text of a combinatorics error.
pub open spec fn comb_text(err: CombError) -> Seq<char> {
    match err {
        CombError::LimitExceeded(m) => "limit exceeded: "@ + m@,
        CombError::OutOfRange { value, bound } => "out of range: "@ + value@ + " >= bound "@ + bound@,
        CombError::InvalidParameters(m) => "invalid parameters: "@ + m@,
    }
}

/// The message of a combinatorics error, as its `Display` shows it.
pub fn comb_error_text(err: &CombError) -> (r: String)
    ensures
        r@ == comb_text(*err),
{
    match err {
        CombError::LimitExceeded(m) => text_cat("limit exceeded: ", m.as_str()),
        CombError::OutOfRange { value, bound } => {
            let mut s = text_cat("out of range: ", value.as_str());
            s.append(" >= bound ");
            s.append(bound.as_str());
            s
        },
        CombError::InvalidParameters(m) => text_cat("invalid parameters: ", m.as_str()),
    }
}

/// The `Display` text of a graph error.
pub open spec fn graph_text(err: GraphError) -> Seq<char> {
    match err {
        GraphError::Disconnected => "graph is disconnected"@,
        GraphError::NegativeCycle => "graph has a negative-weight cycle"@,
        GraphError::NegativeWeight => "negative edge weight is not allowed here"@,
        GraphError::WrongGraphKind(m) => "wrong graph kind: "@ + m@,
        GraphError::InvalidEndpoint { edge, node, len } => "invalid endpoint on edge "@ + decimal(
            edge as nat,
        ) + ": node "@ + decimal(node as nat) + " >= node count "@ + decimal(len as nat),
        GraphError::InvalidEdgeId { index, id, len } => "invalid edge id at index "@ + decimal(
            index as nat,
        ) + ": id "@ + decimal(id as nat) + ", edge count "@ + decimal(len as nat),
        GraphError::NodeOutOfRange { node, count } => "node "@ + decimal(node as nat)
            + " out of range: node count "@ + decimal(count as nat),
        GraphError::WeightOverflow(m) => "weight overflow: "@ + m@,
        GraphError::CertificateInvalid(m) => "certificate invalid: "@ + m@,
        GraphError::Unsupported(m) => "unsupported: "@ + m@,
    }
}

/// The message of a graph error, as its `Display` shows it.
pub fn graph_error_text(err: &GraphError) -> (r: String)
    ensures
        r@ == graph_text(*err),
{
    match err {
        GraphError::Disconnected => String::from_str("graph is disconnected"),
        GraphError::NegativeCycle => String::from_str("graph has a negative-weight cycle"),
        GraphError::NegativeWeight => String::from_str("negative edge weight is not allowed here"),
        GraphError::WrongGraphKind(m) => text_cat("wrong graph kind: ", m.as_str()),
        GraphError::InvalidEndpoint { edge, node, len } => {
            let mut s = text_nums("invalid endpoint on edge ", *edge as u64, ": node ", *node as u64, " >= node count ");
            push_num(&mut s, *len as u64);
            s
        },
        GraphError::InvalidEdgeId { index, id, len } => {
            let mut s = text_nums("invalid edge id at index ", *index as u64, ": id ", *id as u64, ", edge count ");
            push_num(&mut s, *len as u64);
            s
        },
        GraphError::NodeOutOfRange { node, count } => {
            let s = text_nums("node ", *node as u64, " out of range: node count ", *count as u64, "");
            assert(s@ == "node "@ + decimal(*node as nat) + " out of range: node count "@ + decimal(*count as nat)) by {
                reveal_strlit("");
                assert(""@ =~= Seq::<char>::empty());
            }
            s
        },
        GraphError::WeightOverflow(m) => text_cat("weight overflow: ", m.as_str()),
        GraphError::CertificateInvalid(m) => text_cat("certificate invalid: ", m.as_str()),
        GraphError::Unsupported(m) => text_cat("unsupported: ", m.as_str()),
    }
}

impl GraphError {
    /// The graph error an algebra error stands for: a divergent closure star of
    /// a min-plus adjacency matrix means a negative-weight cycle.
    pub fn from_algebra(err: AlgebraError) -> (r: GraphError)
        ensures
            err is NoStar ==> r is NegativeCycle,
            !(err is NoStar) ==> (r matches GraphError::Unsupported(m) && m@ == algebra_text(err)),
    {
        match err {
            AlgebraError::NoStar => GraphError::NegativeCycle,
            other => GraphError::Unsupported(algebra_error_text(&other)),
        }
    }
}

impl RankAdapterError {
    /// A combinatorics error seen through a rank space: `Invalid`, carrying
    /// the error's message.
    pub fn from_comb(err: CombError) -> (r: RankAdapterError)
        ensures
            r matches RankAdapterError::Invalid(m) && m@ == comb_text(err),
    {
        RankAdapterError::Invalid(comb_error_text(&err))
    }

    /// A graph error seen through a rank space: `Invalid`, carrying the
    /// error's message.
    pub fn from_graph(err: GraphError) -> (r: RankAdapterError)
        ensures
            r matches RankAdapterError::Invalid(m) && m@ == graph_text(err),
    {
        RankAdapterError::Invalid(graph_error_text(&err))
    }
}

} // verus!
