//! The application's error type, as plain data.

use vstd::prelude::*;
use crate::text::{push_signed, push_str, signed_dec};

verus! {

/// Every failure the application reports. Errors that come from outside libraries carry
/// their rendered message.
#[derive(Debug)]
pub enum AlbumError {
    Ftp(String),
    Db(String),
    DbMigrate(String),
    Io(String),
    Keyring(String),
    Config(String),
    DeviceNotFound(i64),
    Cancelled,
    Tauri(String),
    Other(String),
}

/// The structured form sent to the front end.
#[derive(Debug)]
pub struct AlbumErrorPayload {
    pub kind: &'static str,
    pub message: String,
}

/// The machine-readable kind of an error.
pub open spec fn kind_text(e: AlbumError) -> Seq<char> {
    match e {
        AlbumError::Ftp(_) => "ftp"@,
        AlbumError::Db(_) => "db"@,
        AlbumError::DbMigrate(_) => "db_migrate"@,
        AlbumError::Io(_) => "io"@,
        AlbumError::Keyring(_) => "keyring"@,
        AlbumError::Config(_) => "config"@,
        AlbumError::DeviceNotFound(_) => "device_not_found"@,
        AlbumError::Cancelled => "cancelled"@,
        AlbumError::Tauri(_) => "tauri"@,
        AlbumError::Other(_) => "other"@,
    }
}

/// The human-readable message of an error.
pub open spec fn message_text(e: AlbumError) -> Seq<char> {
    match e {
        AlbumError::Ftp(s) => "FTP error: "@ + s@,
        AlbumError::Db(s) => "database error: "@ + s@,
        AlbumError::DbMigrate(s) => "database migration error: "@ + s@,
        AlbumError::Io(s) => "io error: "@ + s@,
        AlbumError::Keyring(s) => "keyring error: "@ + s@,
        AlbumError::Config(s) => "config error: "@ + s@,
        AlbumError::DeviceNotFound(id) => "device not found: id="@ + signed_dec(id as int),
        AlbumError::Cancelled => "sync was cancelled"@,
        AlbumError::Tauri(s) => "tauri error: "@ + s@,
        AlbumError::Other(s) => s@,
    }
}

impl AlbumError {
    /// The kind tag that the front end switches on.
    pub fn kind(&self) -> (r: &'static str)
        ensures
            r@ == kind_text(*self),
    {
        match self {
            AlbumError::Ftp(_) => "ftp",
            AlbumError::Db(_) => "db",
            AlbumError::DbMigrate(_) => "db_migrate",
            AlbumError::Io(_) => "io",
            AlbumError::Keyring(_) => "keyring",
            AlbumError::Config(_) => "config",
            AlbumError::DeviceNotFound(_) => "device_not_found",
            AlbumError::Cancelled => "cancelled",
            AlbumError::Tauri(_) => "tauri",
            AlbumError::Other(_) => "other",
        }
    }

    /// The message text (what `to_string()` shows).
    pub fn message(&self) -> (r: String)
        ensures
            r@ == message_text(*self),
    {
        let mut out = String::new();
        match self {
            AlbumError::Ftp(s) => {
                push_str(&mut out, "FTP error: ");
                push_str(&mut out, s.as_str());
            },
            AlbumError::Db(s) => {
                push_str(&mut out, "database error: ");
                push_str(&mut out, s.as_str());
            },
            AlbumError::DbMigrate(s) => {
                push_str(&mut out, "database migration error: ");
                push_str(&mut out, s.as_str());
            },
            AlbumError::Io(s) => {
                push_str(&mut out, "io error: ");
                push_str(&mut out, s.as_str());
            },
            AlbumError::Keyring(s) => {
                push_str(&mut out, "keyring error: ");
                push_str(&mut out, s.as_str());
            },
            AlbumError::Config(s) => {
                push_str(&mut out, "config error: ");
                push_str(&mut out, s.as_str());
            },
            AlbumError::DeviceNotFound(id) => {
                push_str(&mut out, "device not found: id=");
                push_signed(&mut out, *id);
            },
            AlbumError::Cancelled => {
                push_str(&mut out, "sync was cancelled");
            },
            AlbumError::Tauri(s) => {
                push_str(&mut out, "tauri error: ");
                push_str(&mut out, s.as_str());
            },
            AlbumError::Other(s) => {
                push_str(&mut out, s.as_str());
            },
        }
        assert(out@ =~= message_text(*self));
        out
    }

    /// The `{ kind, message }` payload that a failed command answers with.
    pub fn payload(&self) -> (r: AlbumErrorPayload)
        ensures
            r.kind@ == kind_text(*self),
            r.message@ == message_text(*self),
    {
        AlbumErrorPayload { kind: self.kind(), message: self.message() }
    }
}

} // verus!
