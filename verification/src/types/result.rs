//! What a search finds.

use vstd::prelude::*;

verus! {

/// One result of a search.
#[derive(Debug, Clone)]
pub struct SearchResult {
    pub name: String,
    pub path: String,
    pub size: u64,
    /// The time of the last change, as text; empty where it is not known.
    pub modified: String,
    pub is_dir: bool,
    /// The key by which the result was ranked; a larger key stands further up.
    pub score: Option<u32>,
}

} // verus!
