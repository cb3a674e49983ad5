//! What a running batch reports.

use vstd::prelude::*;

verus! {

/// How far a file has come.
#[derive(Debug, Clone, Copy, PartialEq, Eq, Structural)]
pub enum FileStatus {
    Pending,
    Processing,
    Done,
    Error,
}

/// What became of a file.
#[derive(Debug, Clone)]
pub struct FileResult {
    pub path: String,
    pub old_size: u64,
    pub new_size: u64,
    pub textures_resized: usize,
    pub textures_total: usize,
    pub warnings: Vec<String>,
}

/// A message of a running batch.
#[derive(Debug, Clone)]
pub enum ProgressMsg {
    FileStarted { path: String },
    FileFinished { result: FileResult },
    FileErrored { path: String, error: String },
    /// The batch is over; the time it took is given in milliseconds.
    BatchFinished { elapsed_millis: u64 },
}

} // verus!
