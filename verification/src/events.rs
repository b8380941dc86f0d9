//! Events and results of folder synchronisation and thumbnail requests.

use vstd::prelude::*;

verus! {

/// Progress of a folder sync.
#[derive(Debug, Clone)]
pub struct SyncProgress {
    pub total_found: usize,
    pub inserted: usize,
    pub folder_name: String,
}

/// A change seen in a watched folder, or sync progress.
#[derive(Debug, Clone)]
pub enum FileEvent {
    Created(String),
    Deleted(String),
    Renamed { old_path: String, new_path: String },
    Modified(String),
    SyncProgress(SyncProgress),
    /// A sync has stored its folder structure (before indexing images).
    FoldersDiscovered,
}

/// A request for the thumbnail of one file.
#[derive(Debug, Clone)]
pub struct ThumbnailRequest {
    pub file_id: String,
    pub file_path: String,
    pub priority: i32,
}

/// Outcome of a folder sync.
#[derive(Debug, Clone)]
pub struct SyncResult {
    pub total_count: usize,
    pub new_file_ids: Vec<String>,
}

} // verus!
