//! Progress aggregation for a run: counts what is done and decides when a throttled
//! progress report is due. The caller supplies the clock (nanoseconds on a monotonic
//! clock) and sends the events.

use vstd::prelude::*;
use crate::events::{FileAction, SyncEvent};

verus! {

/// Progress reports are at least this far apart, in nanoseconds (200 ms).
pub const THROTTLE_NANOS: u64 = 200_000_000;

/// The state behind the progress reports of one run.
#[derive(Debug)]
pub struct ProgressEmitter {
    pub done_files: u64,
    pub done_bytes: u64,
    pub last_emit: u64,
    pub last_bytes: u64,
    pub last_time: u64,
    pub current_file: String,
    pub throttle: u64,
}

/// What a progress report carries before its speed is worked out: the counts, the file
/// being transferred, and the bytes and time since the previous report.
#[derive(Debug)]
pub struct ProgressSample {
    pub done_files: u64,
    pub done_bytes: u64,
    pub current_file: String,
    pub bytes_delta: u64,
    pub elapsed_nanos: u64,
}

impl ProgressSample {
    /// The `Progress` event for this sample at the given speed.
    pub fn into_event(self, speed_bps: u64) -> (r: SyncEvent)
        ensures
            r == (SyncEvent::Progress {
                done_files: self.done_files,
                done_bytes: self.done_bytes,
                current_file: self.current_file,
                speed_bps,
            }),
    {
        SyncEvent::Progress {
            done_files: self.done_files,
            done_bytes: self.done_bytes,
            current_file: self.current_file,
            speed_bps,
        }
    }
}

/// `a - b`, or 0 when `b` is later (a monotonic clock's `duration_since`).
pub open spec fn elapsed(a: u64, b: u64) -> u64 {
    if a >= b {
        (a - b) as u64
    } else {
        0
    }
}

impl ProgressEmitter {
    /// A fresh emitter at time `now`.
    pub fn new(now: u64) -> (r: ProgressEmitter)
        ensures
            r.done_files == 0,
            r.done_bytes == 0,
            r.last_emit == now,
            r.last_bytes == 0,
            r.last_time == now,
            r.current_file@.len() == 0,
            r.throttle == THROTTLE_NANOS,
    {
        ProgressEmitter {
            done_files: 0,
            done_bytes: 0,
            last_emit: now,
            last_bytes: 0,
            last_time: now,
            current_file: String::new(),
            throttle: THROTTLE_NANOS,
        }
    }

    /// The event announcing the run and its totals.
    pub fn started(&self, run_id: i64, total_files: u64, total_bytes: u64, deletes: u32) -> (r: SyncEvent)
        ensures
            r == (SyncEvent::Started { run_id, total_files, total_bytes, deletes }),
    {
        SyncEvent::Started { run_id, total_files, total_bytes, deletes }
    }

    /// Takes the report due at `now`: a sample of the counts, and the reference point for the
    /// next speed measurement moves to `now`.
    pub fn flush_progress(&mut self, now: u64) -> (r: ProgressSample)
        ensures
            r.done_files == old(self).done_files,
            r.done_bytes == old(self).done_bytes,
            r.current_file == old(self).current_file,
            r.bytes_delta == elapsed(old(self).done_bytes, old(self).last_bytes),
            r.elapsed_nanos == elapsed(now, old(self).last_time),
            final(self).last_emit == now,
            final(self).last_time == now,
            final(self).last_bytes == old(self).done_bytes,
            final(self).done_files == old(self).done_files,
            final(self).done_bytes == old(self).done_bytes,
            final(self).current_file == old(self).current_file,
            final(self).throttle == old(self).throttle,
    {
        let delta = if self.done_bytes >= self.last_bytes {
            self.done_bytes - self.last_bytes
        } else {
            0
        };
        let el = if now >= self.last_time {
            now - self.last_time
        } else {
            0
        };
        let sample = ProgressSample {
            done_files: self.done_files,
            done_bytes: self.done_bytes,
            current_file: self.current_file.clone(),
            bytes_delta: delta,
            elapsed_nanos: el,
        };
        self.last_emit = now;
        self.last_time = now;
        self.last_bytes = self.done_bytes;
        sample
    }

    /// Counts `bytes` more of `current_file`; a report is due when at least the throttle
    /// interval has passed since the last one.
    pub fn add_bytes(&mut self, bytes: u64, current_file: &str, now: u64) -> (r: Option<ProgressSample>)
        requires
            old(self).done_bytes + bytes <= u64::MAX,
        ensures
            final(self).done_bytes == old(self).done_bytes + bytes,
            final(self).done_files == old(self).done_files,
            final(self).current_file@ == current_file@,
            final(self).throttle == old(self).throttle,
            elapsed(now, old(self).last_emit) >= old(self).throttle ==> (r matches Some(s) && s.done_bytes
                == final(self).done_bytes && s.done_files == old(self).done_files && s.current_file@
                == current_file@ && s.bytes_delta == elapsed(final(self).done_bytes, old(self).last_bytes)
                && s.elapsed_nanos == elapsed(now, old(self).last_time) && final(self).last_emit == now
                && final(self).last_time == now && final(self).last_bytes == final(self).done_bytes),
            elapsed(now, old(self).last_emit) < old(self).throttle ==> r is None && final(self).last_emit
                == old(self).last_emit && final(self).last_time == old(self).last_time
                && final(self).last_bytes == old(self).last_bytes,
    {
        self.done_bytes = self.done_bytes + bytes;
        self.current_file = String::from_str(current_file);
        let since = if now >= self.last_emit {
            now - self.last_emit
        } else {
            0
        };
        if since >= self.throttle {
            Some(self.flush_progress(now))
        } else {
            None
        }
    }

    /// A file finished with `action`: counted, and reported at once.
    pub fn file_done(&mut self, rel_path: &str, action: FileAction) -> (r: SyncEvent)
        requires
            old(self).done_files < u64::MAX,
        ensures
            final(self).done_files == old(self).done_files + 1,
            final(self).done_bytes == old(self).done_bytes,
            final(self).last_emit == old(self).last_emit,
            final(self).last_time == old(self).last_time,
            final(self).last_bytes == old(self).last_bytes,
            final(self).current_file == old(self).current_file,
            final(self).throttle == old(self).throttle,
            r matches SyncEvent::FileDone { rel_path: p, action: a } && p@ == rel_path@ && a == action,
    {
        self.done_files = self.done_files + 1;
        SyncEvent::FileDone { rel_path: String::from_str(rel_path), action }
    }

    /// A file failed for `reason`.
    pub fn failed(&self, rel_path: &str, reason: &str) -> (r: SyncEvent)
        ensures
            r matches SyncEvent::Failed { rel_path: p, reason: m } && p@ == rel_path@ && m@ == reason@,
    {
        SyncEvent::Failed { rel_path: String::from_str(rel_path), reason: String::from_str(reason) }
    }

    /// The run finished with these counts.
    pub fn finished(&self, run_id: i64, added: u32, updated: u32, deleted: u32, failed: u32) -> (r: SyncEvent)
        ensures
            r == (SyncEvent::Finished { run_id, added, updated, deleted, failed }),
    {
        SyncEvent::Finished { run_id, added, updated, deleted, failed }
    }

    /// The run was cancelled.
    pub fn aborted(&self, run_id: i64) -> (r: SyncEvent)
        ensures
            r == (SyncEvent::Aborted { run_id }),
    {
        SyncEvent::Aborted { run_id }
    }

    /// A report now, whatever the throttle says.
    pub fn flush_now(&mut self, now: u64) -> (r: ProgressSample)
        ensures
            r.done_files == old(self).done_files,
            r.done_bytes == old(self).done_bytes,
            r.current_file == old(self).current_file,
            r.bytes_delta == elapsed(old(self).done_bytes, old(self).last_bytes),
            r.elapsed_nanos == elapsed(now, old(self).last_time),
            final(self).last_emit == now,
            final(self).last_time == now,
            final(self).last_bytes == old(self).done_bytes,
            final(self).done_files == old(self).done_files,
            final(self).done_bytes == old(self).done_bytes,
            final(self).current_file == old(self).current_file,
            final(self).throttle == old(self).throttle,
    {
        self.flush_progress(now)
    }
}

} // verus!
