use albumsync::diff::{DiffItem, FileEntry};
use albumsync::downloader::{check_written, part_action, part_file_name, PartAction};
use albumsync::error::AlbumError;
use albumsync::events::{FileAction, SyncEvent};
use albumsync::models::FileIndexRow;
use albumsync::progress::{ProgressEmitter, THROTTLE_NANOS};
use albumsync::sync::{
    status_after_error, RunStep, SyncRun, already_running, diff_totals, download_slots, local_entries, remote_path, run_status, trailing_slash, RunStatus,
    SyncTally,
};

fn fe(p: &str, s: u64) -> FileEntry {
    FileEntry { rel_path: p.into(), size: s, mtime: 0 }
}

#[test]
fn totals_of_a_diff() {
    let d = vec![
        DiffItem::Add(fe("a", 10)),
        DiffItem::DeleteLocal { rel_path: "b".into(), size: 99 },
        DiffItem::Update(fe("c", 5)),
        DiffItem::DeleteLocal { rel_path: "d".into(), size: 1 },
    ];
    let t = diff_totals(&d);
    assert_eq!(t.total_files, 2);
    assert_eq!(t.total_bytes, 15);
    assert_eq!(t.deletes, 2);
    let e = diff_totals(&Vec::new());
    assert_eq!((e.total_files, e.total_bytes, e.deletes), (0, 0, 0));
}

#[test]
fn status_of_runs() {
    assert_eq!(run_status(true, 0), RunStatus::Aborted);
    assert_eq!(run_status(false, 0), RunStatus::Succeeded);
    assert_eq!(run_status(false, 3), RunStatus::Partial);
    assert_eq!(RunStatus::Succeeded.as_str(), "succeeded");
    assert_eq!(RunStatus::Partial.as_str(), "partial");
    assert_eq!(RunStatus::Aborted.as_str(), "aborted");
    assert_eq!(RunStatus::Failed.as_str(), "failed");
}

#[test]
fn tally_and_conclusion() {
    let mut t = SyncTally::new();
    t.record_deleted();
    t.record_failed();
    assert_eq!(t.record_downloaded(false), FileAction::Added);
    assert_eq!(t.record_downloaded(true), FileAction::Updated);
    t.record_bytes(1000);
    t.record_bytes(24);
    assert_eq!((t.added, t.updated, t.deleted, t.failed, t.bytes_downloaded), (1, 1, 1, 1, 1024));
    let c = t.conclude(9, false);
    assert_eq!(c.status, RunStatus::Partial);
    assert!(c.result.is_ok());
    assert!(matches!(c.event, SyncEvent::Finished { run_id: 9, added: 1, updated: 1, deleted: 1, failed: 1 }));
    let c = t.conclude(9, true);
    assert_eq!(c.status, RunStatus::Aborted);
    assert!(matches!(c.result, Err(AlbumError::Cancelled)));
    assert!(matches!(c.event, SyncEvent::Aborted { run_id: 9 }));
    let fresh = SyncTally::new().conclude(1, false);
    assert_eq!(fresh.status, RunStatus::Succeeded);
}

#[test]
fn slots_and_paths() {
    assert_eq!(download_slots(0), 1);
    assert_eq!(download_slots(4), 4);
    assert_eq!(download_slots(64), 16);
    assert_eq!(trailing_slash("/"), "");
    assert_eq!(trailing_slash("/sdcard"), "/");
    assert_eq!(remote_path("/", "DCIM/a.jpg"), "/DCIM/a.jpg");
    assert_eq!(remote_path("/sdcard", "DCIM/a.jpg"), "/sdcard/DCIM/a.jpg");
    match already_running(12) {
        AlbumError::Other(m) => assert_eq!(m, "已有同步任务进行中（run #12）"),
        _ => panic!("expected the busy error"),
    }
}

#[test]
fn local_index_rows_become_entries() {
    let rows = vec![FileIndexRow {
        id: 1,
        device_id: 1,
        rel_path: "x.jpg".into(),
        size: 12,
        mtime_unix: 34,
        local_status: "present".into(),
        last_synced_at: 0,
    }];
    let e = local_entries(&rows);
    assert_eq!(e.len(), 1);
    assert_eq!(e[0].rel_path, "x.jpg");
    assert_eq!(e[0].size, 12);
    assert_eq!(e[0].mtime, 34);
}

#[test]
fn progress_is_throttled() {
    let mut p = ProgressEmitter::new(0);
    assert!(matches!(p.started(3, 10, 100, 1), SyncEvent::Started { run_id: 3, total_files: 10, total_bytes: 100, deletes: 1 }));
    assert!(p.add_bytes(10, "a.jpg", 1_000).is_none());
    let s = p.add_bytes(5, "b.jpg", THROTTLE_NANOS).unwrap();
    assert_eq!(s.done_bytes, 15);
    assert_eq!(s.bytes_delta, 15);
    assert_eq!(s.elapsed_nanos, THROTTLE_NANOS);
    assert_eq!(s.current_file, "b.jpg");
    assert!(p.add_bytes(1, "b.jpg", THROTTLE_NANOS + 10).is_none());
    match p.file_done("b.jpg", FileAction::Added) {
        SyncEvent::FileDone { rel_path, action } => {
            assert_eq!(rel_path, "b.jpg");
            assert_eq!(action, FileAction::Added);
        }
        _ => panic!("expected FileDone"),
    }
    let f = p.flush_now(THROTTLE_NANOS + 20);
    assert_eq!(f.done_files, 1);
    assert_eq!(f.bytes_delta, 1);
    assert_eq!(f.elapsed_nanos, 20);
    match f.into_event(50) {
        SyncEvent::Progress { done_files, done_bytes, current_file, speed_bps } => {
            assert_eq!((done_files, done_bytes, speed_bps), (1, 16, 50));
            assert_eq!(current_file, "b.jpg");
        }
        _ => panic!("expected Progress"),
    }
    assert!(matches!(p.aborted(3), SyncEvent::Aborted { run_id: 3 }));
    assert!(matches!(p.finished(3, 1, 2, 3, 4), SyncEvent::Finished { run_id: 3, added: 1, updated: 2, deleted: 3, failed: 4 }));
    match p.failed("c.jpg", "boom") {
        SyncEvent::Failed { rel_path, reason } => {
            assert_eq!(rel_path, "c.jpg");
            assert_eq!(reason, "boom");
        }
        _ => panic!("expected Failed"),
    }
}

#[test]
fn partial_files_and_sizes() {
    assert_eq!(part_action(None, 10), PartAction::Restart { discard_part: false });
    assert_eq!(part_action(Some(10), 10), PartAction::Finalize);
    assert_eq!(part_action(Some(4), 10), PartAction::Resume(4));
    assert_eq!(part_action(Some(12), 10), PartAction::Restart { discard_part: true });
    assert_eq!(part_action(Some(3), 0), PartAction::Restart { discard_part: true });
    assert!(check_written(10, 10).is_ok());
    assert!(check_written(0, 7).is_ok());
    match check_written(10, 7) {
        Err(AlbumError::Ftp(m)) => assert_eq!(m, "下载尺寸不一致: 期望 10，实得 7"),
        _ => panic!("expected a size mismatch"),
    }
}

#[test]
fn partial_file_names() {
    assert_eq!(part_file_name("IMG_001.jpg"), "IMG_001.jpg.part");
    assert_eq!(part_file_name("a.b.mp4"), "a.b.mp4.part");
    assert_eq!(part_file_name("README"), "README..part");
    assert_eq!(part_file_name(".hidden"), ".hidden..part");
    assert_eq!(part_file_name("trailing."), "trailing..part");
    assert_eq!(part_file_name(".."), "....part");
    assert_eq!(
        std::path::Path::new("d/IMG_001.jpg").with_extension("jpg.part"),
        std::path::Path::new("d").join(part_file_name("IMG_001.jpg"))
    );
    assert_eq!(
        std::path::Path::new("d/README").with_extension(".part"),
        std::path::Path::new("d").join(part_file_name("README"))
    );
}

#[test]
fn every_item_of_a_run_is_counted_once() {
    let items = vec![
        DiffItem::Add(fe("a.jpg", 1)),
        DiffItem::Update(fe("b.jpg", 2)),
        DiffItem::DeleteLocal { rel_path: "c.jpg".to_string(), size: 3 },
        DiffItem::Add(fe("d.jpg", 4)),
        DiffItem::DeleteLocal { rel_path: "e.jpg".to_string(), size: 5 },
    ];
    let oks = [true, true, true, false, false];
    let mut t = SyncTally::new();
    let mut actions = Vec::new();
    for (item, ok) in items.iter().zip(oks.iter()) {
        actions.push(t.record_item(item, *ok));
    }
    assert_eq!((t.added, t.updated, t.deleted, t.failed), (1, 1, 1, 2));
    assert_eq!(t.added + t.updated + t.deleted + t.failed, items.len() as u32);
    assert_eq!(t.bytes_downloaded, 0);
    assert_eq!(
        actions,
        vec![FileAction::Added, FileAction::Updated, FileAction::Deleted, FileAction::Added, FileAction::Deleted]
    );
}

#[test]
fn a_run_stopped_by_an_error_is_failed() {
    assert_eq!(status_after_error(&AlbumError::Ftp("connection refused".to_string())), Some(RunStatus::Failed));
    assert_eq!(status_after_error(&AlbumError::Config("bad".to_string())), Some(RunStatus::Failed));
    assert_eq!(status_after_error(&AlbumError::Cancelled), None);
}

#[test]
fn a_run_retires_first_then_downloads_each_item_once() {
    let items = vec![
        DiffItem::Add(fe("a.jpg", 1)),
        DiffItem::DeleteLocal { rel_path: "b.jpg".to_string(), size: 2 },
        DiffItem::Update(fe("c.jpg", 3)),
        DiffItem::DeleteLocal { rel_path: "d.jpg".to_string(), size: 4 },
    ];
    let mut run = SyncRun::start();
    let mut steps = Vec::new();
    loop {
        let s = run.next(&items, false);
        if s != RunStep::Skip {
            steps.push(s);
        }
        if s == RunStep::Finish {
            break;
        }
    }
    assert_eq!(
        steps,
        vec![RunStep::Retire(1), RunStep::Retire(3), RunStep::Download(0), RunStep::Download(2), RunStep::Collect, RunStep::Finish]
    );
}

#[test]
fn a_cancelled_run_hands_out_nothing_more() {
    let items = vec![DiffItem::DeleteLocal { rel_path: "b.jpg".to_string(), size: 2 }, DiffItem::Add(fe("a.jpg", 1))];
    let mut run = SyncRun::start();
    assert_eq!(run.next(&items, false), RunStep::Retire(0));
    let mut steps = Vec::new();
    loop {
        let s = run.next(&items, true);
        steps.push(s);
        if s == RunStep::Finish {
            break;
        }
    }
    assert_eq!(steps, vec![RunStep::Skip, RunStep::Collect, RunStep::Finish]);
}
