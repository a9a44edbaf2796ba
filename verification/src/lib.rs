//! An embeddable time-series storage engine.
//!
//! Datapoints (metric, tags, value, time) are stored in a flat key-value
//! table: each series gets a stable numeric id, and the samples of one
//! series within one minute are packed into a single bitmap-indexed blob.

pub mod codec;
pub mod datapoint;
pub mod db;
mod error;
pub mod parser;
pub mod query;
pub mod text;

pub use error::DbError;
