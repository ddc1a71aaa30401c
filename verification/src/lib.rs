//! Spent / created output price distributions: the on-disk codec, the
//! per-bucket aggregation and the query-side decisions, with their contracts.

pub mod aggregation;
pub mod codec;
pub mod collection;
pub mod date;
pub mod error;
pub mod format;
pub mod le_bytes;
pub mod params;
pub mod query;
pub mod raw;
pub mod sopd;
