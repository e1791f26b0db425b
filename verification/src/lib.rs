//! File search over an in-memory trigram index of file names.

pub mod commands;
pub mod index;
pub mod mft;
pub mod parallel;
pub mod platform;
pub mod search;
pub mod sorting;
pub mod text;
pub mod types;
