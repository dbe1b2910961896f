//! Deduplicating trait-table encoder: turns per-item attribute records into
//! compact per-attribute value tables and per-item index vectors, with a
//! sanitizer that maps attribute names to identifier-safe symbolic names.

pub mod builder;
pub mod dataset;
pub mod laws;
pub mod sanitize;

pub use sanitize::sanitize;
