//! Events pushed to the front end.

use vstd::prelude::*;

verus! {

/// What happened to one file during a run.
#[derive(Debug, Clone, Copy, PartialEq, Eq, Structural)]
pub enum FileAction {
    Added,
    Updated,
    Deleted,
    Skipped,
}

/// The events of one run, pushed as they happen.
#[derive(Debug)]
pub enum SyncEvent {
    /// The phone has been listed and the diff computed.
    Started { run_id: i64, total_files: u64, total_bytes: u64, deletes: u32 },
    /// Throttled progress.
    Progress { done_files: u64, done_bytes: u64, current_file: String, speed_bps: u64 },
    /// One file finished.
    FileDone { rel_path: String, action: FileAction },
    /// One file failed (the run goes on).
    Failed { rel_path: String, reason: String },
    /// The run finished.
    Finished { run_id: i64, added: u32, updated: u32, deleted: u32, failed: u32 },
    /// The run was cancelled by the user.
    Aborted { run_id: i64 },
}

pub const EVT_DEVICE_STATUS_CHANGED: &'static str = "device-status-changed";

pub const EVT_TRASH_GC_FINISHED: &'static str = "trash-gc-finished";

pub const EVT_APP_ERROR: &'static str = "app-error";

#[derive(Debug)]
pub struct DeviceStatusChangedPayload {
    pub device_id: i64,
    pub online: bool,
    pub latency_ms: Option<u32>,
}

/// What one trash collection removed.
#[derive(Debug)]
pub struct TrashGcFinishedPayload {
    pub purged: u32,
    pub freed_bytes: u64,
}

#[derive(Debug)]
pub struct AppErrorPayload {
    pub location: String,
    pub message: String,
}

} // verus!
