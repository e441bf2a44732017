use albumsync::error::AlbumError;
use albumsync::paths::{guard_rel_path, stays_inside_root};

#[test]
fn relative_paths_stay_inside_the_backup_root() {
    assert!(stays_inside_root("DCIM/Camera/a.jpg"));
    assert!(stays_inside_root("a/../b.jpg"));
    assert!(stays_inside_root("./a//b\\c.jpg"));
    assert!(stays_inside_root("a/.."));
    assert!(stays_inside_root("..a/b"));
    assert!(stays_inside_root(""));
    assert!(!stays_inside_root("../../etc/passwd"));
    assert!(!stays_inside_root("a/../../b"));
    assert!(!stays_inside_root("a\\..\\..\\b"));
    assert!(!stays_inside_root(".."));
    assert!(!stays_inside_root("/etc/passwd"));
    assert!(!stays_inside_root("\\x"));
    assert!(!stays_inside_root("C:x.jpg"));
}

#[test]
fn a_path_leaving_the_root_is_refused() {
    assert!(guard_rel_path("DCIM/a.jpg").is_ok());
    match guard_rel_path("../x") {
        Err(AlbumError::Other(m)) => assert_eq!(m, "路径越出备份目录: ../x"),
        other => panic!("unexpected {other:?}"),
    }
}
