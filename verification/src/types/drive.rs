//! Drives, and how indexing them gets on.

use vstd::prelude::*;

verus! {

/// A drive that can be indexed.
#[derive(Debug, Clone)]
pub struct DriveInfo {
    pub letter: char,
    pub drive_type: String,
    pub available: bool,
}

/// How far the indexing of one drive is.
#[derive(Debug, Clone)]
pub struct DriveProgress {
    pub letter: char,
    pub scanned: u64,
    pub finished: bool,
    /// How the drive is read; empty until that is known.
    pub method: String,
}

/// How far indexing is.
#[derive(Debug, Clone)]
pub struct IndexState {
    pub running: bool,
    pub drives: Vec<DriveProgress>,
    pub total_scanned: u64,
    pub total_files: u64,
    pub total_dirs: u64,
    pub elapsed_ms: u64,
    pub finished: bool,
}

impl IndexState {
    /// Nothing was indexed yet.
    pub fn new() -> (state: Self)
        ensures
            !state.running,
            !state.finished,
            state.drives@.len() == 0,
            state.total_scanned == 0,
            state.total_files == 0,
            state.total_dirs == 0,
            state.elapsed_ms == 0,
    {
        IndexState {
            running: false,
            drives: Vec::new(),
            total_scanned: 0,
            total_files: 0,
            total_dirs: 0,
            elapsed_ms: 0,
            finished: false,
        }
    }
}

} // verus!
