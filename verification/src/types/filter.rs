//! What a search is narrowed to.

use vstd::prelude::*;

verus! {

/// The filters of a search.
#[derive(Debug, Clone)]
pub struct FilterOptions {
    /// The extensions that files must have, with or without the dot; empty for any.
    pub file_types: Vec<String>,
    /// The least size of a file.
    pub min_size: Option<u64>,
    /// The largest size of a file.
    pub max_size: Option<u64>,
    /// Whether hidden entries are found too.
    pub include_hidden: bool,
    /// How many results are given at most.
    pub max_results: u32,
}

} // verus!
