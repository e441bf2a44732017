use albumsync::diff::{compute_diff, DiffItem, FileEntry};
use std::collections::BTreeMap;

fn fe(p: &str, s: u64, m: i64) -> FileEntry {
    FileEntry { rel_path: p.into(), size: s, mtime: m }
}

#[test]
fn empty_local_all_add() {
    let r = vec![fe("a", 1, 100), fe("b", 2, 200)];
    let d = compute_diff(&[], &r);
    assert_eq!(d.len(), 2);
    assert!(matches!(d[0], DiffItem::Add(_)));
    assert!(matches!(d[1], DiffItem::Add(_)));
}

#[test]
fn empty_remote_all_delete() {
    let l = vec![fe("a", 1, 100), fe("b", 2, 200)];
    let d = compute_diff(&l, &[]);
    assert_eq!(d.len(), 2);
    assert!(matches!(d[0], DiffItem::DeleteLocal { .. }));
}

#[test]
fn unchanged_no_diff() {
    let same = vec![fe("a", 1, 100)];
    assert_eq!(compute_diff(&same, &same).len(), 0);
}

#[test]
fn mtime_tolerance_one_second() {
    let l = vec![fe("a", 1, 100)];
    let r = vec![fe("a", 1, 101)];
    assert_eq!(compute_diff(&l, &r).len(), 0);
    let r2 = vec![fe("a", 1, 102)];
    assert_eq!(compute_diff(&l, &r2).len(), 1);
}

#[test]
fn size_change_is_update() {
    let l = vec![fe("a", 1, 100)];
    let r = vec![fe("a", 2, 100)];
    let d = compute_diff(&l, &r);
    assert!(matches!(d[0], DiffItem::Update(_)));
}

#[test]
fn mixed_scenarios() {
    let l = vec![fe("keep", 10, 1000), fe("update", 20, 2000), fe("gone", 30, 3000)];
    let r = vec![fe("keep", 10, 1000), fe("update", 25, 2000), fe("new", 40, 4000)];
    let d = compute_diff(&l, &r);
    assert_eq!(d.len(), 3);
    let kinds: Vec<&'static str> = d
        .iter()
        .map(|x| match x {
            DiffItem::Add(_) => "add",
            DiffItem::Update(_) => "update",
            DiffItem::DeleteLocal { .. } => "del",
        })
        .collect();
    assert!(kinds.contains(&"add"));
    assert!(kinds.contains(&"update"));
    assert!(kinds.contains(&"del"));
}

#[test]
fn mtime_tolerance_is_symmetric() {
    let l = vec![fe("a", 1, 101)];
    assert_eq!(compute_diff(&l, &[fe("a", 1, 100)]).len(), 0);
    assert_eq!(compute_diff(&l, &[fe("a", 1, 99)]).len(), 1);
}

#[test]
fn updates_carry_the_remote_entry() {
    let l = vec![fe("x/y.jpg", 5, 10)];
    let r = vec![fe("x/y.jpg", 6, 50)];
    let d = compute_diff(&l, &r);
    match &d[0] {
        DiffItem::Update(e) => {
            assert_eq!(e.rel_path, "x/y.jpg");
            assert_eq!(e.size, 6);
            assert_eq!(e.mtime, 50);
        }
        _ => panic!("expected an update"),
    }
}

#[test]
fn deletes_come_after_transfers_with_local_size() {
    let l = vec![fe("old.jpg", 77, 1), fe("same.jpg", 1, 1)];
    let r = vec![fe("new.jpg", 3, 3), fe("same.jpg", 1, 1)];
    let d = compute_diff(&l, &r);
    assert_eq!(d.len(), 2);
    assert!(matches!(d[0], DiffItem::Add(_)));
    match &d[1] {
        DiffItem::DeleteLocal { rel_path, size } => {
            assert_eq!(rel_path, "old.jpg");
            assert_eq!(*size, 77);
        }
        _ => panic!("expected a retirement"),
    }
}

#[test]
fn duplicate_local_paths_compare_with_the_last_entry() {
    // The last local entry for a path is the one compared (and retired once).
    let l = vec![fe("a", 1, 100), fe("a", 2, 100)];
    assert_eq!(compute_diff(&l, &[fe("a", 2, 100)]).len(), 0);
    let d = compute_diff(&l, &[]);
    assert_eq!(d.len(), 1);
    match &d[0] {
        DiffItem::DeleteLocal { size, .. } => assert_eq!(*size, 2),
        _ => panic!("expected a retirement"),
    }
}

#[test]
fn duplicate_remote_paths_add_the_later_ones() {
    let l = vec![fe("a", 1, 100)];
    let r = vec![fe("a", 1, 100), fe("a", 1, 100)];
    let d = compute_diff(&l, &r);
    assert_eq!(d.len(), 1);
    assert!(matches!(d[0], DiffItem::Add(_)));
}

#[test]
fn applying_the_diff_mirrors_the_remote_listing() {
    // Carrying out the diff on the local index yields the remote listing (law on values).
    let l = vec![fe("keep", 10, 1000), fe("update", 20, 2000), fe("gone", 30, 3000), fe("drift", 5, 500)];
    let r = vec![fe("keep", 10, 1000), fe("update", 25, 2000), fe("new", 40, 4000), fe("drift", 5, 501)];
    let mut index: BTreeMap<String, (u64, i64)> =
        l.iter().map(|e| (e.rel_path.clone(), (e.size, e.mtime))).collect();
    for item in compute_diff(&l, &r) {
        match item {
            DiffItem::Add(e) | DiffItem::Update(e) => {
                index.insert(e.rel_path, (e.size, e.mtime));
            }
            DiffItem::DeleteLocal { rel_path, .. } => {
                index.remove(&rel_path);
            }
        }
    }
    assert_eq!(index.len(), r.len());
    for e in &r {
        let (size, mtime) = index[&e.rel_path];
        assert_eq!(size, e.size);
        assert!((mtime - e.mtime).abs() <= 1);
    }
}

#[test]
fn second_sync_has_nothing_to_do() {
    let l = vec![fe("keep", 10, 1000), fe("gone", 30, 3000), fe("drift", 5, 500)];
    let r = vec![fe("keep", 10, 1000), fe("new", 40, 4000), fe("drift", 5, 501)];
    let mut index: BTreeMap<String, (u64, i64)> =
        l.iter().map(|e| (e.rel_path.clone(), (e.size, e.mtime))).collect();
    for item in compute_diff(&l, &r) {
        match item {
            DiffItem::Add(e) | DiffItem::Update(e) => {
                index.insert(e.rel_path, (e.size, e.mtime));
            }
            DiffItem::DeleteLocal { rel_path, .. } => {
                index.remove(&rel_path);
            }
        }
    }
    let synced: Vec<FileEntry> = index.into_iter().map(|(p, (s, m))| fe(&p, s, m)).collect();
    assert!(compute_diff(&synced, &r).is_empty());
}

fn paths_of(d: &[DiffItem]) -> (Vec<String>, Vec<String>, Vec<String>) {
    let mut adds = Vec::new();
    let mut updates = Vec::new();
    let mut retires = Vec::new();
    for x in d {
        match x {
            DiffItem::Add(e) => adds.push(e.rel_path.clone()),
            DiffItem::Update(e) => updates.push(e.rel_path.clone()),
            DiffItem::DeleteLocal { rel_path, .. } => retires.push(rel_path.clone()),
        }
    }
    adds.sort();
    updates.sort();
    retires.sort();
    (adds, updates, retires)
}

#[test]
fn swapping_the_listings_swaps_adds_and_retirements() {
    let l = vec![fe("a", 1, 100), fe("b", 2, 200), fe("c", 3, 300)];
    let r = vec![fe("d", 4, 400), fe("b", 9, 200), fe("c", 3, 301)];
    let (a1, u1, r1) = paths_of(&compute_diff(&l, &r));
    let (a2, u2, r2) = paths_of(&compute_diff(&r, &l));
    assert_eq!(a1, vec!["d".to_string()]);
    assert_eq!(r1, vec!["a".to_string()]);
    assert_eq!(u1, vec!["b".to_string()]);
    assert_eq!(a1, r2);
    assert_eq!(r1, a2);
    assert_eq!(u1, u2);
}

#[test]
fn carrying_out_the_diff_leaves_nothing_to_do() {
    let l = vec![fe("a", 1, 100), fe("b", 2, 200), fe("c", 3, 300), fe("e", 5, 500)];
    let r = vec![fe("d", 4, 400), fe("b", 9, 200), fe("c", 3, 301), fe("e", 5, 499)];
    let d = compute_diff(&l, &r);
    let (_, updated, retired) = paths_of(&d);
    let mut applied: Vec<FileEntry> = l
        .iter()
        .filter(|e| !updated.contains(&e.rel_path) && !retired.contains(&e.rel_path))
        .cloned()
        .collect();
    for x in &d {
        match x {
            DiffItem::Add(e) | DiffItem::Update(e) => applied.push(e.clone()),
            DiffItem::DeleteLocal { .. } => {}
        }
    }
    assert_eq!(applied.len(), 4);
    assert!(compute_diff(&applied, &r).is_empty());
}
