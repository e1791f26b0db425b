//! What is exchanged with the user interface.

pub mod drive;
pub mod filter;
pub mod result;
