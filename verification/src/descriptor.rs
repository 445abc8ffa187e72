//! Versioned descriptors and card content for the discrete rank spaces.
//!
//! A descriptor's parameters are part of the space identity: two spaces with
//! the same `id` but different parameters are different spaces.

use vstd::prelude::*;

verus! {

/// A versioned descriptor for a finite discrete rank space.
#[derive(Debug, Clone, PartialEq, Eq)]
pub struct SpaceDescriptor {
    /// Stable rank-space symbol, e.g. `rank/discrete/subset`.
    pub id: &'static str,
    /// Descriptor version; bumped on any identity-affecting change.
    pub version: u32,
    /// Identity-defining parameters as `(name, value)` pairs.
    pub params: Vec<(&'static str, String)>,
    /// The canonical order name.
    pub order: &'static str,
    /// The default metric name.
    pub metric: &'static str,
}

/// A browse/help card descriptor for a discrete rank space.
#[derive(Debug, Clone, Copy, PartialEq, Eq)]
pub struct CardSpec {
    /// Stable card key (the rank-space symbol).
    pub key: &'static str,
    /// One-line summary.
    pub summary: &'static str,
    /// The canonical order.
    pub order: &'static str,
    /// The default metric.
    pub metric: &'static str,
}

/// Whether `d` carries the given identity, order and metric, version 1.
pub open spec fn describes(d: SpaceDescriptor, id: &str, order: &str, metric: &str) -> bool {
    &&& d.id@ == id@
    &&& d.version == 1
    &&& d.order@ == order@
    &&& d.metric@ == metric@
}

/// Whether parameter `i` of `d` is named `name` and reads `value`.
pub open spec fn param_is(d: SpaceDescriptor, i: int, name: &str, value: Seq<char>) -> bool {
    &&& 0 <= i < d.params@.len()
    &&& d.params@[i].0@ == name@
    &&& d.params@[i].1@ == value
}

} // verus!
