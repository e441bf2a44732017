use albumsync::commands::{banner_or_default, connection_result, history_limit, validate_device_form};
use albumsync::config::{
    active_device, credential_missing, credential_read_error, default_excludes, default_includes, key_for,
    parse_bool_text, parse_u32_text, settings_from_stored, settings_to_stored, DeviceConfig,
};
use albumsync::error::AlbumError;
use albumsync::models::{DeviceDto, DeviceForm, DeviceRow, SettingsForm, SyncRunDto, SyncRunRow, TrashItemDto, TrashRow};

#[test]
fn credential_key_format() {
    assert_eq!(key_for("alice", "192.168.1.5", 1024), "alice@192.168.1.5:1024");
    assert_eq!(key_for("", "h", 0), "@h:0");
}

#[test]
fn u32_parsing_follows_from_str() {
    assert_eq!(parse_u32_text("30"), Some(30));
    assert_eq!(parse_u32_text("+7"), Some(7));
    assert_eq!(parse_u32_text("007"), Some(7));
    assert_eq!(parse_u32_text("4294967295"), Some(u32::MAX));
    assert_eq!(parse_u32_text("4294967296"), None);
    assert_eq!(parse_u32_text("99999999999999999999"), None);
    assert_eq!(parse_u32_text(""), None);
    assert_eq!(parse_u32_text("+"), None);
    assert_eq!(parse_u32_text("-1"), None);
    assert_eq!(parse_u32_text(" 1"), None);
    assert_eq!(parse_u32_text("1x"), None);
    for s in ["0", "12", "+3", "", "-0", "abc", "4294967296"] {
        assert_eq!(parse_u32_text(s), s.parse::<u32>().ok());
    }
}

#[test]
fn bool_parsing_follows_from_str() {
    assert_eq!(parse_bool_text("true"), Some(true));
    assert_eq!(parse_bool_text("false"), Some(false));
    assert_eq!(parse_bool_text("True"), None);
    assert_eq!(parse_bool_text(""), None);
}

#[test]
fn settings_defaults() {
    let s = settings_from_stored(None, None, None, None, None).unwrap();
    assert_eq!(s.retention_days, 30);
    assert!(!s.auto_start);
    assert_eq!(s.concurrency, 4);
    assert_eq!(s.include_globs, default_includes());
    assert_eq!(s.exclude_globs, default_excludes());
    assert_eq!(default_includes()[0], "DCIM/**/*");
    assert_eq!(default_includes().len(), 5);
    assert_eq!(default_excludes(), vec!["**/.thumbnails/**", "**/cache/**", "**/*.tmp"]);
}

#[test]
fn settings_from_stored_values() {
    let s = settings_from_stored(
        Some("7".into()),
        Some("true".into()),
        Some("nonsense".into()),
        Some("[\"A/**\"]".into()),
        Some("[]".into()),
    )
    .unwrap();
    assert_eq!(s.retention_days, 7);
    assert!(s.auto_start);
    assert_eq!(s.concurrency, 4);
    assert_eq!(s.include_globs, vec!["A/**".to_string()]);
    assert!(s.exclude_globs.is_empty());
}

#[test]
fn unreadable_pattern_list_is_a_config_error() {
    match settings_from_stored(None, None, None, Some("not json".into()), None) {
        Err(AlbumError::Config(m)) => assert!(!m.is_empty()),
        _ => panic!("expected a configuration error"),
    }
    match settings_from_stored(None, None, None, None, Some("{\"a\":1}".into())) {
        Err(AlbumError::Config(m)) => assert!(!m.is_empty()),
        _ => panic!("expected a configuration error"),
    }
}

#[test]
fn settings_round_trip_through_storage() {
    let form = SettingsForm {
        retention_days: 45,
        auto_start: true,
        concurrency: 16,
        include_globs: vec!["DCIM/**/*".into(), "带\"引号\"/**".into()],
        exclude_globs: vec![],
    };
    let pairs = settings_to_stored(&form).unwrap();
    let keys: Vec<&str> = pairs.iter().map(|p| p.0.as_str()).collect();
    assert_eq!(keys, vec!["retention_days", "auto_start", "concurrency", "include_globs", "exclude_globs"]);
    assert_eq!(pairs[0].1, "45");
    assert_eq!(pairs[1].1, "true");
    assert_eq!(pairs[2].1, "16");
    assert_eq!(pairs[4].1, "[]");
    let back = settings_from_stored(
        Some(pairs[0].1.clone()),
        Some(pairs[1].1.clone()),
        Some(pairs[2].1.clone()),
        Some(pairs[3].1.clone()),
        Some(pairs[4].1.clone()),
    )
    .unwrap();
    assert_eq!(back.retention_days, 45);
    assert!(back.auto_start);
    assert_eq!(back.concurrency, 16);
    assert_eq!(back.include_globs, form.include_globs);
    assert_eq!(back.exclude_globs, form.exclude_globs);
}

#[test]
fn pattern_lists_are_written_as_compact_escaped_json() {
    let form = SettingsForm {
        retention_days: 7,
        auto_start: false,
        concurrency: 1,
        include_globs: vec!["a\"b".into(), "c\\d\n".into(), "\u{1}\t".into()],
        exclude_globs: vec!["x".into()],
    };
    let pairs = settings_to_stored(&form).unwrap();
    assert_eq!(pairs[3].1, "[\"a\\\"b\",\"c\\\\d\\n\",\"\\u0001\\t\"]");
    assert_eq!(pairs[4].1, "[\"x\"]");
    let back = settings_from_stored(None, None, None, Some(pairs[3].1.clone()), Some(pairs[4].1.clone())).unwrap();
    assert_eq!(back.include_globs, form.include_globs);
    assert_eq!(back.exclude_globs, form.exclude_globs);
}

#[test]
fn credential_messages() {
    assert!(credential_missing("No matching entry found: no entry"));
    assert!(credential_missing("Credential NOT FOUND in store"));
    assert!(!credential_missing("access denied"));
    match credential_read_error("boom") {
        AlbumError::Keyring(m) => assert_eq!(m, "读取凭据失败: boom"),
        _ => panic!("expected a keyring error"),
    }
}

fn device_row(id: i64, port: i64, active: i64) -> DeviceRow {
    DeviceRow {
        id,
        name: "phone".into(),
        host: "10.0.0.2".into(),
        port,
        username: "u".into(),
        is_active: active,
        backup_root: "/backup".into(),
        created_at: 1,
        updated_at: 2,
    }
}

#[test]
fn device_conversions() {
    let d = DeviceDto::from(device_row(3, 1024, 1));
    assert_eq!(d.id, 3);
    assert_eq!(d.port, 1024);
    assert!(d.is_active);
    assert!(!DeviceDto::from(device_row(3, 70_000, 0)).is_active);
    assert_eq!(DeviceDto::from(device_row(3, 70_000, 0)).port, 70_000u32 as u16);
    let c = DeviceConfig::from_row(device_row(5, 2121, 1), "pw".into());
    assert_eq!(c.id, 5);
    assert_eq!(c.port, 2121);
    assert_eq!(c.password, "pw");
    assert_eq!(c.backup_root, "/backup");
    assert!(active_device(vec![]).is_none());
    assert_eq!(active_device(vec![device_row(1, 1, 1), device_row(2, 1, 1)]).unwrap().id, 2);
}

#[test]
fn run_and_trash_conversions() {
    let r = SyncRunRow {
        id: 1,
        device_id: 2,
        started_at: 3,
        ended_at: Some(4),
        status: "partial".into(),
        added: 5,
        updated: 6,
        deleted: 7,
        failed: 8,
        bytes_downloaded: 9,
        error_summary: None,
    };
    let d = SyncRunDto::from(r);
    assert_eq!((d.added, d.updated, d.deleted, d.failed, d.bytes_downloaded), (5, 6, 7, 8, 9));
    assert_eq!(d.status, "partial");
    let t = TrashItemDto::from(TrashRow {
        id: 1,
        device_id: 2,
        original_rel: "a.jpg".into(),
        trash_rel: ".trash/x/a.jpg".into(),
        size: 42,
        deleted_at: 10,
        expire_at: 20,
    });
    assert_eq!(t.size, 42);
    assert_eq!(t.original_rel, "a.jpg");
    assert_eq!(t.expire_at, 20);
}

fn form(name: &str, host: &str, user: &str, root: &str) -> DeviceForm {
    DeviceForm {
        name: name.into(),
        host: host.into(),
        port: 1024,
        username: user.into(),
        password: "p".into(),
        backup_root: root.into(),
    }
}

#[test]
fn device_form_validation() {
    assert!(validate_device_form(&form("n", "h", "u", "/r")).is_ok());
    match validate_device_form(&form("", "h", "u", "/r")) {
        Err(AlbumError::Config(m)) => assert_eq!(m, "名称/主机/用户名不能为空"),
        _ => panic!("expected a configuration error"),
    }
    match validate_device_form(&form("n", "h", "u", "")) {
        Err(AlbumError::Config(m)) => assert_eq!(m, "备份目录不能为空"),
        _ => panic!("expected a configuration error"),
    }
}

#[test]
fn connection_results_and_limits() {
    let ok = connection_result(Ok("220 hello".into()));
    assert!(ok.ok);
    assert_eq!(ok.server_banner.as_deref(), Some("220 hello"));
    assert!(ok.error.is_none());
    let bad = connection_result(Err(AlbumError::Ftp("refused".into())));
    assert!(!bad.ok);
    assert_eq!(bad.error.as_deref(), Some("FTP error: refused"));
    assert_eq!(banner_or_default(None), "(no banner)");
    assert_eq!(banner_or_default(Some("x".into())), "x");
    assert_eq!(history_limit(None), 50);
    assert_eq!(history_limit(Some(0)), 1);
    assert_eq!(history_limit(Some(9999)), 500);
    assert_eq!(history_limit(Some(20)), 20);
}

#[test]
fn error_kinds_and_messages() {
    let cases: Vec<(AlbumError, &str, &str)> = vec![
        (AlbumError::Ftp("x".into()), "ftp", "FTP error: x"),
        (AlbumError::Db("x".into()), "db", "database error: x"),
        (AlbumError::DbMigrate("x".into()), "db_migrate", "database migration error: x"),
        (AlbumError::Io("x".into()), "io", "io error: x"),
        (AlbumError::Keyring("x".into()), "keyring", "keyring error: x"),
        (AlbumError::Config("x".into()), "config", "config error: x"),
        (AlbumError::DeviceNotFound(-42), "device_not_found", "device not found: id=-42"),
        (AlbumError::Cancelled, "cancelled", "sync was cancelled"),
        (AlbumError::Tauri("x".into()), "tauri", "tauri error: x"),
        (AlbumError::Other("x".into()), "other", "x"),
    ];
    for (e, kind, msg) in cases {
        assert_eq!(e.kind(), kind);
        assert_eq!(e.message(), msg);
        let p = e.payload();
        assert_eq!(p.kind, kind);
        assert_eq!(p.message, msg);
    }
    assert_eq!(AlbumError::DeviceNotFound(i64::MIN).message(), format!("device not found: id={}", i64::MIN));
}
