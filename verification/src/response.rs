//! The response to a search: its counters, its hits and its aggregations.

use crate::aggs::{AggregationIterator, Aggregations};
use crate::error::AggregationError;
use crate::flatten::{finished, pull, rows_left, start, Columns};
use crate::json::Json;
use vstd::prelude::*;

verus! {

/// How many shards the search ran on, and how it went on them.
#[derive(Clone, Copy, Debug, PartialEq, Eq)]
pub struct Shards {
    total: u32,
    successful: u32,
    failed: u32,
}

impl Shards {
    /// The counts of the shards of a search.
    pub fn new(total: u32, successful: u32, failed: u32) -> (shards: Shards)
        ensures
            shards.counts() == (total, successful, failed),
    {
        Shards { total, successful, failed }
    }

    /// The shards in all, those that succeeded and those that failed.
    pub closed spec fn spec_counts(&self) -> (u32, u32, u32) {
        (self.total, self.successful, self.failed)
    }

    /// The shards in all, those that succeeded and those that failed.
    #[verifier::when_used_as_spec(spec_counts)]
    pub fn counts(&self) -> (counts: (u32, u32, u32))
        ensures
            counts == self.counts(),
    {
        (self.total, self.successful, self.failed)
    }
}

/// The hits of a search, each of type `T`.
#[derive(Debug)]
pub struct Hits<T> {
    total: u64,
    max_score: u64,
    hits: Vec<T>,
}

impl<T> Hits<T> {
    /// The hits of a search: how many there are in all, the highest score,
    /// and those that the response holds.
    pub fn new(total: u64, max_score: u64, hits: Vec<T>) -> (found: Hits<T>)
        ensures
            found.total() == total,
            found.max_score() == max_score,
            found@ == hits@,
    {
        Hits { total, max_score, hits }
    }

    /// How many hits the search had in all.
    pub closed spec fn spec_total(&self) -> u64 {
        self.total
    }

    /// How many hits the search had in all.
    #[verifier::when_used_as_spec(spec_total)]
    pub fn total(&self) -> (total: u64)
        ensures
            total == self.total(),
    {
        self.total
    }

    /// The highest score among the hits.
    pub closed spec fn spec_max_score(&self) -> u64 {
        self.max_score
    }

    /// The highest score among the hits.
    #[verifier::when_used_as_spec(spec_max_score)]
    pub fn max_score(&self) -> (score: u64)
        ensures
            score == self.max_score(),
    {
        self.max_score
    }

    /// The hits that the response holds.
    pub fn hits(&self) -> (hits: &Vec<T>)
        ensures
            hits@ == self@,
    {
        &self.hits
    }

    /// The hits taken apart again: what `new` was given, in that order.
    pub fn into_parts(self) -> (parts: (u64, u64, Vec<T>))
        ensures
            parts.0 == self.total(),
            parts.1 == self.max_score(),
            parts.2@ == self@,
    {
        (self.total, self.max_score, self.hits)
    }
}

impl<T> View for Hits<T> {
    type V = Seq<T>;

    closed spec fn view(&self) -> Seq<T> {
        self.hits@
    }
}

/// The response to a search, with hits of type `T`.
#[derive(Debug)]
pub struct ResponseOf<T> {
    took: u64,
    timed_out: bool,
    _shards: Shards,
    hits: Hits<T>,
    aggregations: Option<Aggregations>,
    status: Option<u16>,
}

/// A response whose hits are left as they came.
pub type Response = ResponseOf<Json>;

impl<T> ResponseOf<T> {
    /// A response from its parts.
    pub fn new(
        took: u64,
        timed_out: bool,
        shards: Shards,
        hits: Hits<T>,
        aggregations: Option<Aggregations>,
        status: Option<u16>,
    ) -> (response: ResponseOf<T>)
        ensures
            response.took() == took,
            response.timed_out() == timed_out,
            response.shards() == shards,
            response.status() == status,
            response.found() == hits@,
            response.aggregations() == aggregations,
    {
        ResponseOf { took, timed_out, _shards: shards, hits, aggregations, status }
    }

    /// The time that the search took, in milliseconds.
    pub closed spec fn spec_took(&self) -> u64 {
        self.took
    }

    /// The time that the search took, in milliseconds.
    #[verifier::when_used_as_spec(spec_took)]
    pub fn took(&self) -> (took: u64)
        ensures
            took == self.took(),
    {
        self.took
    }

    /// Whether the search ran out of time.
    pub closed spec fn spec_timed_out(&self) -> bool {
        self.timed_out
    }

    /// Whether the search ran out of time.
    #[verifier::when_used_as_spec(spec_timed_out)]
    pub fn timed_out(&self) -> (timed_out: bool)
        ensures
            timed_out == self.timed_out(),
    {
        self.timed_out
    }

    /// The shards that the search ran on.
    pub closed spec fn spec_shards(&self) -> Shards {
        self._shards
    }

    /// The shards that the search ran on.
    #[verifier::when_used_as_spec(spec_shards)]
    pub fn shards(&self) -> (shards: Shards)
        ensures
            shards == self.shards(),
    {
        self._shards
    }

    /// The status of the response, where it carries one.
    pub closed spec fn spec_status(&self) -> Option<u16> {
        self.status
    }

    /// The status of the response, where it carries one.
    #[verifier::when_used_as_spec(spec_status)]
    pub fn status(&self) -> (status: Option<u16>)
        ensures
            status == self.status(),
    {
        self.status
    }

    /// The response taken apart again: what `new` was given, in that order.
    pub fn into_parts(self) -> (parts: (u64, bool, Shards, Hits<T>, Option<Aggregations>, Option<u16>))
        ensures
            parts.0 == self.took(),
            parts.1 == self.timed_out(),
            parts.2 == self.shards(),
            parts.3@ == self.found(),
            parts.4 == self.aggregations(),
            parts.5 == self.status(),
    {
        (self.took, self.timed_out, self._shards, self.hits, self.aggregations, self.status)
    }

    /// The hits of the response.
    pub closed spec fn found(&self) -> Seq<T> {
        self.hits@
    }

    /// The aggregations of the response, if it has any.
    pub closed spec fn aggregations(&self) -> Option<Aggregations> {
        self.aggregations
    }

    /// The hits of the response.
    pub fn hits(&self) -> (hits: &Vec<T>)
        ensures
            hits@ == self.found(),
    {
        self.hits.hits()
    }

    /// The aggregations of the response.
    pub fn aggs(&self) -> (aggregations: Result<&Aggregations, AggregationError>)
        ensures
            match aggregations {
                Ok(found) => self.aggregations() == Some(*found),
                Err(error) => self.aggregations() is None && error
                    == AggregationError::MissingAggregations,
            },
    {
        match &self.aggregations {
            Some(found) => Ok(found),
            None => Err(AggregationError::MissingAggregations),
        }
    }

    /// The aggregations of the response read as rows. A response without
    /// aggregations has no rows.
    pub fn row_view(&self) -> (rows: Result<AggregationIterator<'_>, AggregationError>)
        ensures
            match self.aggregations() {
                Some(found) => match start(found@) {
                    Some(cursor) => rows matches Ok(iterator) && iterator@ == cursor,
                    None => rows matches Err(error) && error
                        == AggregationError::UnexpectedRootShape,
                },
                None => {
                    &&& rows matches Ok(iterator)
                    &&& iterator@ == finished()
                    &&& pull(iterator@).1 is Exhausted
                    &&& rows_left(iterator@) == Seq::<Columns>::empty()
                },
            },
    {
        match &self.aggregations {
            Some(found) => found.iter(),
            None => Ok(AggregationIterator::empty()),
        }
    }
}

} // verus!
