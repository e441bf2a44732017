use albumsync::walker::{
    classify_entry, entry_paths, excluded, included, is_media, media_extensions, strip_modify_fraction,
    systemtime_to_unix, EntryKind, MlsdEntry, ScanOutcome, WalkConfig, Walker,
};
use albumsync::error::AlbumError;
use albumsync::walker::{listing_is_safe, mlsd_line_is_safe};

#[test]
fn is_media_check() {
    let ext = media_extensions();
    assert!(is_media("DCIM/Camera/IMG_001.JPG", &ext));
    assert!(is_media("a.heic", &ext));
    assert!(!is_media("a.txt", &ext));
    assert!(!is_media("noext", &ext));
}

#[test]
fn strip_fraction_basic() {
    let inp = "Size=3452;Modify=20241225213441.564;Type=dir; 音乐";
    assert_eq!(strip_modify_fraction(inp), "Size=3452;Modify=20241225213441;Type=dir; 音乐");
}

#[test]
fn strip_fraction_no_dot() {
    let inp = "Size=10;Modify=20240101000000;Type=file; a.jpg";
    assert_eq!(strip_modify_fraction(inp), inp);
}

#[test]
fn strip_fraction_modify_at_end() {
    let inp = "Type=file;Size=10;Modify=20240101000000.5 a.jpg";
    assert_eq!(strip_modify_fraction(inp), "Type=file;Size=10;Modify=20240101000000");
}

#[test]
fn include_exclude() {
    let cfg = WalkConfig::from_settings(
        &["DCIM/**/*".into(), "Pictures/**/*".into()],
        &["**/.thumbnails/**".into(), "**/*.tmp".into()],
    )
    .unwrap();
    assert!(included("DCIM/Camera/x.jpg", &cfg));
    assert!(included("Pictures/Screenshots/y.png", &cfg));
    assert!(!included("Other/a.jpg", &cfg));
    assert!(excluded("DCIM/.thumbnails/x.jpg", &cfg));
    assert!(excluded("DCIM/x.tmp", &cfg));
}

#[test]
fn strip_fraction_key_is_case_insensitive() {
    assert_eq!(strip_modify_fraction("modify=20240101000000.123;type=file; b.png"), "modify=20240101000000;type=file; b.png");
    assert_eq!(strip_modify_fraction("MODIFY=20240101000000.9;Type=file; c"), "MODIFY=20240101000000;Type=file; c");
}

#[test]
fn strip_fraction_without_modify_is_unchanged() {
    let inp = "Size=1.5;Type=file; d.jpg";
    assert_eq!(strip_modify_fraction(inp), inp);
}

#[test]
fn is_media_uses_last_dot_and_ignores_case() {
    let ext = media_extensions();
    assert!(is_media("a.b.MP4", &ext));
    assert!(!is_media("movie.mp4.part", &ext));
    assert!(!is_media("dir.jpg/file", &ext));
    assert!(!is_media("", &ext));
}

#[test]
fn a_path_without_a_dot_is_never_media() {
    let ext = media_extensions();
    assert!(!is_media("jpg", &ext));
    assert!(!is_media("DCIM/MP4", &ext));
    assert!(is_media(".jpg", &ext));
}

#[test]
fn empty_includes_take_everything() {
    let cfg = WalkConfig::from_settings(&[], &[]).unwrap();
    assert!(included("anything/at/all.jpg", &cfg));
    assert!(!excluded("anything/at/all.jpg", &cfg));
    assert_eq!(cfg.max_depth, 16);
}

#[test]
fn invalid_glob_is_a_config_error() {
    match WalkConfig::from_settings(&["DCIM/***".into()], &[]) {
        Err(AlbumError::Config(m)) => {
            assert!(m.starts_with("无效 glob `DCIM/***`: "));
            assert!(m.len() > "无效 glob `DCIM/***`: ".len());
        }
        _ => panic!("expected a configuration error"),
    }
    match WalkConfig::from_settings(&[], &["a/***".into()]) {
        Err(AlbumError::Config(m)) => assert!(m.starts_with("无效 glob `a/***`: ")),
        _ => panic!("expected a configuration error"),
    }
}

#[test]
fn systemtime_conversion() {
    assert_eq!(systemtime_to_unix(Some(1_700_000_000)), 1_700_000_000);
    assert_eq!(systemtime_to_unix(None), 0);
    assert_eq!(systemtime_to_unix(Some(u64::MAX)), -1);
}

#[test]
fn entry_paths_relative_to_base() {
    let (abs, rel) = entry_paths("", "", "DCIM");
    assert_eq!(abs, "/DCIM");
    assert_eq!(rel, "DCIM");
    let (abs, rel) = entry_paths("", "/DCIM/Camera", "a.jpg");
    assert_eq!(abs, "/DCIM/Camera/a.jpg");
    assert_eq!(rel, "DCIM/Camera/a.jpg");
    let (abs, rel) = entry_paths("/sdcard", "/sdcard/DCIM", "b.jpg");
    assert_eq!(abs, "/sdcard/DCIM/b.jpg");
    assert_eq!(rel, "DCIM/b.jpg");
    let (_, rel) = entry_paths("/other", "//x", "c.jpg");
    assert_eq!(rel, "x/c.jpg");
}

fn cfg() -> WalkConfig {
    WalkConfig::from_settings(&["DCIM/**/*".into()], &["**/.thumbnails/**".into()]).unwrap()
}

#[test]
fn classify_files_and_directories() {
    let c = cfg();
    let file = MlsdEntry { name: "a.JPG".into(), kind: EntryKind::File, size: 12, modified: Some(99) };
    match classify_entry(&c, "", "/DCIM", 1, Some(file)) {
        ScanOutcome::Accept(e) => {
            assert_eq!(e.rel_path, "DCIM/a.JPG");
            assert_eq!(e.size, 12);
            assert_eq!(e.mtime, 99);
        }
        _ => panic!("expected the file to be accepted"),
    }
    let dir = MlsdEntry { name: "Camera".into(), kind: EntryKind::Directory, size: 0, modified: None };
    match classify_entry(&c, "", "/DCIM", 1, Some(dir)) {
        ScanOutcome::Descend(d, k) => {
            assert_eq!(d, "/DCIM/Camera");
            assert_eq!(k, 2);
        }
        _ => panic!("expected a directory to visit"),
    }
    // A directory is only skipped when its own path is excluded; `**/.thumbnails/**` rules out
    // what is inside `.thumbnails`, not the directory itself.
    let thumbs = MlsdEntry { name: ".thumbnails".into(), kind: EntryKind::Directory, size: 0, modified: None };
    assert!(matches!(classify_entry(&c, "", "/DCIM", 1, Some(thumbs)), ScanOutcome::Descend(_, 2)));
    let inner = MlsdEntry { name: "t.jpg".into(), kind: EntryKind::File, size: 1, modified: None };
    assert!(matches!(classify_entry(&c, "", "/DCIM/.thumbnails", 2, Some(inner)), ScanOutcome::Skip));
    let strict = WalkConfig::from_settings(&[], &["**/.thumbnails".into()]).unwrap();
    let thumbs = MlsdEntry { name: ".thumbnails".into(), kind: EntryKind::Directory, size: 0, modified: None };
    assert!(matches!(classify_entry(&strict, "", "/DCIM", 1, Some(thumbs)), ScanOutcome::Skip));
    let txt = MlsdEntry { name: "notes.txt".into(), kind: EntryKind::File, size: 1, modified: None };
    assert!(matches!(classify_entry(&c, "", "/DCIM", 1, Some(txt)), ScanOutcome::Skip));
    let outside = MlsdEntry { name: "x.jpg".into(), kind: EntryKind::File, size: 1, modified: None };
    assert!(matches!(classify_entry(&c, "", "/Music", 1, Some(outside)), ScanOutcome::Skip));
    let dot = MlsdEntry { name: "..".into(), kind: EntryKind::Directory, size: 0, modified: None };
    assert!(matches!(classify_entry(&c, "", "/DCIM", 1, Some(dot)), ScanOutcome::Skip));
    let link = MlsdEntry { name: "l.jpg".into(), kind: EntryKind::Symlink, size: 0, modified: None };
    assert!(matches!(classify_entry(&c, "", "/DCIM", 1, Some(link)), ScanOutcome::Skip));
    assert!(matches!(classify_entry(&c, "", "/DCIM", 1, None), ScanOutcome::Skip));
}

#[test]
fn walker_scans_listings_depth_first() {
    let c = cfg();
    let mut w = Walker::new("/", &c);
    assert_eq!(w.base, "");
    assert_eq!(Walker::cwd_target(""), "/");
    assert_eq!(Walker::cwd_target("/DCIM"), "/DCIM");
    let (dir, depth) = w.next_dir().unwrap();
    assert_eq!(dir, "");
    assert_eq!(depth, 0);
    let root = vec![
        "Type=cdir;Modify=20240101000000; .".to_string(),
        "Type=dir;Modify=20240101000000.123; DCIM".to_string(),
        "Type=file;Size=10;Modify=20240101000000; root.jpg".to_string(),
        "garbage".to_string(),
    ];
    w.scan_listing(&c, &dir, depth, &root);
    assert_eq!(w.found.len(), 0);
    let (dir, depth) = w.next_dir().unwrap();
    assert_eq!(dir, "/DCIM");
    assert_eq!(depth, 1);
    let dcim = vec![
        "Type=file;Size=3452;Modify=20241225213441.564; IMG_1.jpg".to_string(),
        "Type=file;Size=5;Modify=20241225213441; note.txt".to_string(),
    ];
    w.scan_listing(&c, &dir, depth, &dcim);
    assert!(w.next_dir().is_none());
    let found = w.into_found();
    assert_eq!(found.len(), 1);
    assert_eq!(found[0].rel_path, "DCIM/IMG_1.jpg");
    assert_eq!(found[0].size, 3452);
    assert_eq!(found[0].mtime, 1_735_162_481);
}

#[test]
fn walker_skips_directories_deeper_than_the_limit() {
    let mut c = cfg();
    c.max_depth = 0;
    let mut w = Walker::new("/", &c);
    let (dir, depth) = w.next_dir().unwrap();
    let root = vec!["Type=dir;Modify=20240101000000; DCIM".to_string()];
    w.scan_listing(&c, &dir, depth, &root);
    assert!(w.next_dir().is_none());
}

#[test]
fn mlsd_lines_the_parser_can_read() {
    assert!(mlsd_line_is_safe("type=dir;modify=20201019151930;UNIX.mode=0755;UNIX.uid=1000; pub"));
    assert!(mlsd_line_is_safe("Type=file;unix.mode=755; a.jpg"));
    assert!(mlsd_line_is_safe("Type=file;unix.mode=éé1x; a.jpg"));
    assert!(mlsd_line_is_safe("Type=file;perm=é1; a.jpg"));
    assert!(!mlsd_line_is_safe("Type=file;UNIX.mode=é1; a.jpg"));
    assert!(!mlsd_line_is_safe("Type=file;unix.MODE=éé; a.jpg"));
    assert!(!mlsd_line_is_safe("Type=file;unix.mode=1€; a.jpg"));
    assert!(!mlsd_line_is_safe("unix.mode=€=1"));
    assert!(!mlsd_line_is_safe("Type=dir;Size=+12;unix.mode=é1; d"));
}

#[test]
fn mlsd_lines_the_parser_stops_on_before_the_bad_fact() {
    let lines = [
        "ünix.mode=é1; a.jpg",
        "Type=bogus;unix.mode=é1; a.jpg",
        "Size=x1;unix.mode=é1; a.jpg",
        "Size=+;unix.mode=é1; a.jpg",
        "Size=-1;unix.mode=é1; a.jpg",
        "unix.mode=12345;unix.mode=é1; a.jpg",
        "unix.mode=éé;Type=file; a.jpg",
    ];
    for line in lines {
        let expect_safe = !line.starts_with("unix.mode=éé");
        assert_eq!(mlsd_line_is_safe(line), expect_safe, "{line}");
        if expect_safe {
            let _ = suppaftp::list::ListParser::parse_mlsd(line);
        }
    }
    let good = vec!["Type=file;Size=1; a.jpg".to_string(), "Type=dir; d".to_string()];
    assert!(listing_is_safe(&good));
    let bad = vec!["Type=file;Size=1; a.jpg".to_string(), "Type=file;unix.mode=é1; b.jpg".to_string()];
    assert!(!listing_is_safe(&bad));
}

#[test]
fn stripping_twice_is_stripping_once() {
    for line in [
        "Size=3452;Modify=20241225213441.564;Type=dir; 音乐",
        "modify=20241225213441.5.6;Type=file; a.jpg",
        "Type=file;Modify=20241225213441; x.jpg",
        "Modify=20241225213441.9",
    ] {
        let once = strip_modify_fraction(line);
        assert_eq!(strip_modify_fraction(&once), once);
    }
}
