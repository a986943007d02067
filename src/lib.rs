//! Cross-reference index construction for a source-code search engine, and
//! the decision logic of its query pipeline.
pub mod snippet;
pub mod index;
pub mod json;
pub mod serialize;
pub mod graph;
pub mod pipeline;
pub mod query;
