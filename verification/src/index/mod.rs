//! The in-memory index: how it is built, stored and read.

pub mod builder;
pub mod entry;
pub mod extension_map;
pub mod posting_map;
pub mod store;
pub mod trigram;
