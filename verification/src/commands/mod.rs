//! What the user interface asks for.

pub mod files;
pub mod guarantees;
pub mod indexing;
pub mod search;
