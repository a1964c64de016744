//! Row-oriented reading of search responses: the hits of a response, and its
//! tree of bucket and metric aggregations flattened into table rows.

pub mod aggs;
pub mod error;
pub mod flatten;
pub mod json;
pub mod laws;
pub mod response;
pub mod row;
pub mod text;
pub mod walk;

pub use aggs::{AggregationIterator, Aggregations};
pub use error::AggregationError;
pub use json::Json;
pub use response::{Hits, Response, ResponseOf, Shards};
pub use row::Row;
