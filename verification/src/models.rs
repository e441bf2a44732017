//! Database rows and the records exchanged with the front end.

use vstd::prelude::*;

verus! {

/// A row of `devices`.
#[derive(Debug)]
pub struct DeviceRow {
    pub id: i64,
    pub name: String,
    pub host: String,
    pub port: i64,
    pub username: String,
    pub is_active: i64,
    pub backup_root: String,
    pub created_at: i64,
    pub updated_at: i64,
}

/// A row of `file_index`: one file of the local backup.
#[derive(Debug)]
pub struct FileIndexRow {
    pub id: i64,
    pub device_id: i64,
    pub rel_path: String,
    pub size: i64,
    pub mtime_unix: i64,
    pub local_status: String,
    pub last_synced_at: i64,
}

/// A row of `sync_runs`.
#[derive(Debug)]
pub struct SyncRunRow {
    pub id: i64,
    pub device_id: i64,
    pub started_at: i64,
    pub ended_at: Option<i64>,
    pub status: String,
    pub added: i64,
    pub updated: i64,
    pub deleted: i64,
    pub failed: i64,
    pub bytes_downloaded: i64,
    pub error_summary: Option<String>,
}

/// A row of `trash`: a file moved aside because the phone no longer has it.
#[derive(Debug)]
pub struct TrashRow {
    pub id: i64,
    pub device_id: i64,
    pub original_rel: String,
    pub trash_rel: String,
    pub size: i64,
    pub deleted_at: i64,
    pub expire_at: i64,
}

impl Clone for TrashRow {
    fn clone(&self) -> (r: Self)
        ensures
            r == *self,
    {
        TrashRow {
            id: self.id,
            device_id: self.device_id,
            original_rel: self.original_rel.clone(),
            trash_rel: self.trash_rel.clone(),
            size: self.size,
            deleted_at: self.deleted_at,
            expire_at: self.expire_at,
        }
    }
}

impl Clone for DeviceRow {
    fn clone(&self) -> (r: Self)
        ensures
            r == *self,
    {
        DeviceRow {
            id: self.id,
            name: self.name.clone(),
            host: self.host.clone(),
            port: self.port,
            username: self.username.clone(),
            is_active: self.is_active,
            backup_root: self.backup_root.clone(),
            created_at: self.created_at,
            updated_at: self.updated_at,
        }
    }
}

/// A device as the front end sees it (no password).
#[derive(Debug)]
pub struct DeviceDto {
    pub id: i64,
    pub name: String,
    pub host: String,
    pub port: u16,
    pub username: String,
    pub backup_root: String,
    pub is_active: bool,
}

impl From<DeviceRow> for DeviceDto {
    fn from(r: DeviceRow) -> (d: Self) {
        DeviceDto {
            id: r.id,
            name: r.name,
            host: r.host,
            port: r.port as u16,
            username: r.username,
            backup_root: r.backup_root,
            is_active: r.is_active != 0,
        }
    }
}

impl vstd::std_specs::convert::FromSpecImpl<DeviceRow> for DeviceDto {
    open spec fn obeys_from_spec() -> bool {
        true
    }

    open spec fn from_spec(r: DeviceRow) -> DeviceDto {
        DeviceDto {
            id: r.id,
            name: r.name,
            host: r.host,
            port: r.port as u16,
            username: r.username,
            backup_root: r.backup_root,
            is_active: r.is_active != 0,
        }
    }
}

/// What the user enters for a device.
#[derive(Debug)]
pub struct DeviceForm {
    pub name: String,
    pub host: String,
    pub port: u16,
    pub username: String,
    pub password: String,
    pub backup_root: String,
}

/// One run of the history page.
#[derive(Debug)]
pub struct SyncRunDto {
    pub id: i64,
    pub device_id: i64,
    pub started_at: i64,
    pub ended_at: Option<i64>,
    pub status: String,
    pub added: u32,
    pub updated: u32,
    pub deleted: u32,
    pub failed: u32,
    pub bytes_downloaded: u64,
    pub error_summary: Option<String>,
}

impl From<SyncRunRow> for SyncRunDto {
    fn from(r: SyncRunRow) -> (d: Self) {
        SyncRunDto {
            id: r.id,
            device_id: r.device_id,
            started_at: r.started_at,
            ended_at: r.ended_at,
            status: r.status,
            added: r.added as u32,
            updated: r.updated as u32,
            deleted: r.deleted as u32,
            failed: r.failed as u32,
            bytes_downloaded: r.bytes_downloaded as u64,
            error_summary: r.error_summary,
        }
    }
}

impl vstd::std_specs::convert::FromSpecImpl<SyncRunRow> for SyncRunDto {
    open spec fn obeys_from_spec() -> bool {
        true
    }

    open spec fn from_spec(r: SyncRunRow) -> SyncRunDto {
        SyncRunDto {
            id: r.id,
            device_id: r.device_id,
            started_at: r.started_at,
            ended_at: r.ended_at,
            status: r.status,
            added: r.added as u32,
            updated: r.updated as u32,
            deleted: r.deleted as u32,
            failed: r.failed as u32,
            bytes_downloaded: r.bytes_downloaded as u64,
            error_summary: r.error_summary,
        }
    }
}

/// One entry of the trash page.
#[derive(Debug)]
pub struct TrashItemDto {
    pub id: i64,
    pub device_id: i64,
    pub original_rel: String,
    pub size: u64,
    pub deleted_at: i64,
    pub expire_at: i64,
}

impl From<TrashRow> for TrashItemDto {
    fn from(r: TrashRow) -> (d: Self) {
        TrashItemDto {
            id: r.id,
            device_id: r.device_id,
            original_rel: r.original_rel,
            size: r.size as u64,
            deleted_at: r.deleted_at,
            expire_at: r.expire_at,
        }
    }
}

impl vstd::std_specs::convert::FromSpecImpl<TrashRow> for TrashItemDto {
    open spec fn obeys_from_spec() -> bool {
        true
    }

    open spec fn from_spec(r: TrashRow) -> TrashItemDto {
        TrashItemDto {
            id: r.id,
            device_id: r.device_id,
            original_rel: r.original_rel,
            size: r.size as u64,
            deleted_at: r.deleted_at,
            expire_at: r.expire_at,
        }
    }
}

/// The application settings.
#[derive(Debug)]
pub struct SettingsDto {
    pub retention_days: u32,
    pub auto_start: bool,
    pub concurrency: u32,
    pub include_globs: Vec<String>,
    pub exclude_globs: Vec<String>,
}

/// The settings as the user submits them.
#[derive(Debug)]
pub struct SettingsForm {
    pub retention_days: u32,
    pub auto_start: bool,
    pub concurrency: u32,
    pub include_globs: Vec<String>,
    pub exclude_globs: Vec<String>,
}

/// The answer to a connection test.
#[derive(Debug)]
pub struct ConnectionResult {
    pub ok: bool,
    pub server_banner: Option<String>,
    pub error: Option<String>,
}

/// Whether a device answers, and how fast.
#[derive(Debug)]
pub struct DeviceStatus {
    pub online: bool,
    pub latency_ms: Option<u32>,
}

} // verus!
