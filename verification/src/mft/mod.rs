//! Reading the records of a Master File Table.

pub mod arena;
pub mod guarantees;
pub mod records;
pub mod scanner;
pub mod types;
pub mod utf16;
