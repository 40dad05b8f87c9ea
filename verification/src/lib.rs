//! An in-memory query engine over course sections and campus rooms.
//!
//! A query names a filter, the columns to show, an order, and optionally
//! groups with aggregates. Running it on a dataset gives at most
//! `query::RESULT_CAP` rows, each a map from column name to value, or an
//! error. What a query gives is stated by `query::answer`; `laws` holds what
//! follows for every query and every dataset.

pub mod wide;
pub mod rounding;
pub mod number;
pub mod text;
pub mod errors;
pub mod types;
pub mod json;
pub mod dataset;
pub mod pages;
pub mod rooms_dataset;
pub mod query;
pub mod grammar;
pub mod filter;
pub mod rows;
pub mod transform;
pub mod order;
pub mod laws;
pub mod testing;
