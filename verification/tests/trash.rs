use albumsync::models::TrashRow;
use albumsync::timestamp::{civil_from_days, format_unix};
use albumsync::trash::{expire_at, gc_report, ids_of, plan_trash, restore_plan, trash_rel_path, trashed_row};

#[test]
fn format_unix_epoch() {
    assert_eq!(format_unix(0), "19700101-000000");
}

#[test]
fn format_unix_known() {
    assert_eq!(format_unix(1_704_067_200), "20240101-000000");
}

#[test]
fn format_unix_leap_day_and_time_of_day() {
    // 2024-02-29 12:34:56 UTC
    assert_eq!(format_unix(1_709_210_096), "20240229-123456");
    // 2000-03-01 00:00:00 UTC (2000 is a leap year)
    assert_eq!(format_unix(951_868_800), "20000301-000000");
    // 2100-03-01 00:00:00 UTC (2100 is not)
    assert_eq!(format_unix(4_107_542_400), "21000301-000000");
    assert_eq!(format_unix(86_399), "19700101-235959");
}

#[test]
fn format_unix_before_epoch() {
    assert_eq!(format_unix(-1), "19691231-235959");
    assert_eq!(format_unix(-86_400 * 5), "19691227-000000");
    assert_eq!(format_unix(-86_400 * 365), "19690101-000000");
    assert_eq!(format_unix(-86_400 * 366), "19681231-000000");
    assert_eq!(format_unix(-2_208_988_800), "19000101-000000");
}

#[test]
fn civil_dates_round_trip() {
    assert_eq!(civil_from_days(0), (1970, 1, 1));
    assert_eq!(civil_from_days(-1), (1969, 12, 31));
    assert_eq!(civil_from_days(-672), (1968, 2, 29));
    assert_eq!(civil_from_days(59), (1970, 3, 1));
    assert_eq!(civil_from_days(19_722), (2023, 12, 31));
    assert_eq!(civil_from_days(19_723), (2024, 1, 1));
}

#[test]
fn trash_paths() {
    assert_eq!(trash_rel_path(0, "DCIM/a.jpg"), ".trash/19700101-000000/DCIM/a.jpg");
    assert_eq!(trash_rel_path(1_704_067_200, "a\\b.jpg"), ".trash/20240101-000000/a/b.jpg");
    assert_eq!(trash_rel_path(0, "/abs/x.jpg"), "/abs/x.jpg");
    assert_eq!(trash_rel_path(0, "\\abs\\x.jpg"), "/abs/x.jpg");
    assert_eq!(trash_rel_path(0, "C:\\x.jpg"), "C:/x.jpg");
    assert_eq!(trash_rel_path(0, "d:x.jpg"), "d:x.jpg");
    assert_eq!(trash_rel_path(0, "1:x.jpg"), ".trash/19700101-000000/1:x.jpg");
}

#[test]
fn expiry_is_retention_days_later() {
    assert_eq!(expire_at(1000, 30), 1000 + 30 * 86_400);
    assert_eq!(expire_at(5, 0), 5);
    let plan = plan_trash("p.jpg", 1_704_067_200, 7);
    assert_eq!(plan.trash_rel, ".trash/20240101-000000/p.jpg");
    assert_eq!(plan.expire_at, 1_704_067_200 + 7 * 86_400);
    let row = trashed_row(plan, 9, 2, "p.jpg", 123, 1_704_067_200);
    assert_eq!(row.id, 9);
    assert_eq!(row.device_id, 2);
    assert_eq!(row.original_rel, "p.jpg");
    assert_eq!(row.trash_rel, ".trash/20240101-000000/p.jpg");
    assert_eq!(row.size, 123);
    assert_eq!(row.deleted_at, 1_704_067_200);
    assert_eq!(row.expire_at - row.deleted_at, 7 * 86_400);
}

fn row(id: i64, size: i64) -> TrashRow {
    TrashRow {
        id,
        device_id: 1,
        original_rel: format!("f{id}.jpg"),
        trash_rel: format!(".trash/x/f{id}.jpg"),
        size,
        deleted_at: 0,
        expire_at: 10,
    }
}

#[test]
fn gc_report_counts_and_frees() {
    let rows = vec![row(1, 100), row(2, 250), row(7, 0)];
    let (payload, ids) = gc_report(&rows);
    assert_eq!(payload.purged, 3);
    assert_eq!(payload.freed_bytes, 350);
    assert_eq!(ids, vec![1, 2, 7]);
    let (empty, none) = gc_report(&Vec::new());
    assert_eq!(empty.purged, 0);
    assert_eq!(empty.freed_bytes, 0);
    assert!(none.is_empty());
    assert_eq!(ids_of(&rows), vec![1, 2, 7]);
}

#[test]
fn restore_plan_writes_back_the_original() {
    let r = row(4, 55);
    let p = restore_plan(&r, 777, false);
    assert!(p.move_back);
    assert_eq!(p.index.device_id, 1);
    assert_eq!(p.index.rel_path, "f4.jpg");
    assert_eq!(p.index.size, 55);
    assert_eq!(p.index.mtime_unix, 777);
    assert_eq!(p.index.local_status, "present");
    assert_eq!(p.index.last_synced_at, 777);
    assert_eq!(p.delete_id, 4);
    assert!(!restore_plan(&r, 777, true).move_back);
}

#[test]
fn later_seconds_give_later_stamps() {
    let seconds = [0i64, 1, 59, 60, 3_599, 3_600, 86_399, 86_400, 951_868_799, 951_868_800, 1_704_067_199, 1_704_067_200, 253_402_300_799];
    for w in seconds.windows(2) {
        let (a, b) = (format_unix(w[0]), format_unix(w[1]));
        assert_eq!(a.len(), b.len());
        assert!(a < b, "{a} should sort before {b}");
    }
    assert_eq!(format_unix(253_402_300_799), "99991231-235959");
}
