//! Plain data carried by the host application's cloud-upload workflow: the
//! target account and folder, the per-provider outcome, and the progress
//! events streamed to the interface.  The host holds serializable copies of
//! these types and converts at its edge.

use vstd::prelude::*;

verus! {

/// One configured upload target: provider id, display name, access token,
/// and destination folder path.
pub struct UploadConfig {
    pub provider: String,
    pub name: String,
    pub access_token: String,
    pub target_path: String,
}

/// The outcome of one upload: whether it succeeded, the provider, the
/// remote file id when one was assigned, a display message, and whether the
/// source file was deleted afterwards.
pub struct UploadResult {
    pub success: bool,
    pub provider: String,
    pub file_id: Option<String>,
    pub message: String,
    pub source_deleted: bool,
}

/// One progress event of a running upload, as a percentage and byte
/// counters.
pub struct UploadProgressEvent {
    pub task_id: String,
    pub provider: String,
    pub progress: u32,
    pub uploaded_bytes: u64,
    pub total_bytes: u64,
}

} // verus!
