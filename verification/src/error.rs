//! What can go wrong with the aggregations of a response.

use vstd::prelude::*;

verus! {

/// Why the aggregations of a response could not be read as rows.
#[derive(Clone, Copy, Debug, PartialEq, Eq, Structural)]
pub enum AggregationError {
    /// A bucket is no object, or the bounds of a standard deviation lack
    /// `upper` or `lower`.
    MalformedAggregationNode,
    /// The response has no aggregations.
    MissingAggregations,
    /// The aggregations are no object.
    UnexpectedRootShape,
}

} // verus!
