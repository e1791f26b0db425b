//! Searching the index.

pub mod candidates;
pub mod engine;
pub mod filters;
pub mod guarantees;
pub mod laws;
pub mod ranking;
pub mod scoring;
pub mod substring;
