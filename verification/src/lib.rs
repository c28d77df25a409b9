//! An approximate nearest-neighbor index over strings.
//!
//! Stored texts form a stack of navigable graphs, sparse at the top and dense
//! at the bottom. A query walks each graph greedily, from the top down, and
//! reports the stored texts that it found closest to the query.

pub mod growth;
pub mod height;
pub mod index;
pub mod laws;
pub mod layer;
pub mod metric;
pub mod model;
pub mod search;
pub mod walk;
