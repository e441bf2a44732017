//! The soft-delete trash: where a retired file goes, when it expires, what restoring it
//! writes back, and what a collection frees.

use vstd::prelude::*;
use crate::events::TrashGcFinishedPayload;
use crate::models::TrashRow;
use crate::text::{chars_of, push_char, push_str, replace_char};
use crate::timestamp::{format_unix, unix_stamp, SECS_PER_DAY};

verus! {

/// A path that `Path::join` on Windows, the app's platform, puts in place of what it is
/// joined to: one that starts with a separator (`/` or `\`) or with a drive (`C:`).
pub open spec fn replaces_on_join(p: Seq<char>) -> bool {
    (p.len() > 0 && (p[0] == '/' || p[0] == '\\')) || (p.len() >= 2 && p[1] == ':' && (('a' <= p[0]
        && p[0] <= 'z') || ('A' <= p[0] && p[0] <= 'Z')))
}

/// Where a retired file goes, relative to the backup root: `.trash/<stamp>/<original>`
/// (an original that `replaces_on_join` stands alone, as `Path::join` leaves it on Windows),
/// with every backslash turned into `/`.
pub open spec fn trash_rel_spec(now: int, original: Seq<char>) -> Seq<char> {
    let joined = if replaces_on_join(original) {
        original
    } else {
        ".trash/"@ + unix_stamp(now) + seq!['/'] + original
    };
    replace_char(joined, '\\', '/')
}

fn push_slashed(out: &mut String, s: &str)
    ensures
        final(out)@ == old(out)@ + replace_char(s@, '\\', '/'),
{
    let cs = chars_of(s);
    let mut i: usize = 0;
    while i < cs.len()
        invariant
            i <= cs@.len(),
            out@ == old(out)@ + replace_char(cs@.take(i as int), '\\', '/'),
        decreases cs.len() - i,
    {
        let c = cs[i];
        push_char(out, if c == '\\' { '/' } else { c });
        assert(replace_char(cs@.take(i + 1), '\\', '/') =~= replace_char(cs@.take(i as int), '\\', '/').push(
            if c == '\\' { '/' } else { c },
        ));
        i = i + 1;
    }
    assert(cs@.take(cs@.len() as int) =~= cs@);
}

/// The trash path, relative to the backup root, for `original_rel` retired at `now`.
pub fn trash_rel_path(now: i64, original_rel: &str) -> (r: String)
    ensures
        r@ == trash_rel_spec(now as int, original_rel@),
{
    let cs = chars_of(original_rel);
    let mut out = String::new();
    let n = cs.len();
    let rooted = (n > 0 && (cs[0] == '/' || cs[0] == '\\')) || (n >= 2 && cs[1] == ':' && (('a' <= cs[0]
        && cs[0] <= 'z') || ('A' <= cs[0] && cs[0] <= 'Z')));
    if rooted {
        push_slashed(&mut out, original_rel);
        assert(out@ =~= trash_rel_spec(now as int, original_rel@));
    } else {
        let stamp = format_unix(now);
        let mut joined = String::new();
        push_str(&mut joined, ".trash/");
        push_str(&mut joined, stamp.as_str());
        push_char(&mut joined, '/');
        push_str(&mut joined, original_rel);
        assert(joined@ =~= ".trash/"@ + unix_stamp(now as int) + seq!['/'] + original_rel@);
        push_slashed(&mut out, joined.as_str());
        assert(out@ =~= trash_rel_spec(now as int, original_rel@));
    }
    out
}

/// When an item retired at `now` expires: `retention_days` whole days later.
pub fn expire_at(now: i64, retention_days: u32) -> (r: i64)
    requires
        i64::MIN <= now + 86400 * retention_days <= i64::MAX,
    ensures
        r == now + 86400 * retention_days,
{
    now + SECS_PER_DAY * (retention_days as i64)
}

/// Where a file is moved and when it expires.
#[derive(Debug)]
pub struct TrashPlan {
    pub trash_rel: String,
    pub expire_at: i64,
}

/// Plans retiring `original_rel` at `now` with the given retention.
pub fn plan_trash(original_rel: &str, now: i64, retention_days: u32) -> (r: TrashPlan)
    requires
        i64::MIN <= now + 86400 * retention_days <= i64::MAX,
    ensures
        r.trash_rel@ == trash_rel_spec(now as int, original_rel@),
        r.expire_at == now + 86400 * retention_days,
{
    TrashPlan { trash_rel: trash_rel_path(now, original_rel), expire_at: expire_at(now, retention_days) }
}

/// The trash row recorded for a retired file once the database has given it `id`.
pub fn trashed_row(plan: TrashPlan, id: i64, device_id: i64, original_rel: &str, size: i64, now: i64) -> (r: TrashRow)
    ensures
        r.id == id,
        r.device_id == device_id,
        r.original_rel@ == original_rel@,
        r.trash_rel@ == plan.trash_rel@,
        r.size == size,
        r.deleted_at == now,
        r.expire_at == plan.expire_at,
{
    TrashRow {
        id,
        device_id,
        original_rel: String::from_str(original_rel),
        trash_rel: plan.trash_rel,
        size,
        deleted_at: now,
        expire_at: plan.expire_at,
    }
}

/// The index entry written back by a restore.
#[derive(Debug)]
pub struct IndexUpsert {
    pub device_id: i64,
    pub rel_path: String,
    pub size: i64,
    pub mtime_unix: i64,
    pub local_status: String,
    pub last_synced_at: i64,
}

/// What restoring one trash item does.
#[derive(Debug)]
pub struct RestorePlan {
    /// Move the trashed file back; otherwise a file is already at the original place, and
    /// only the trashed copy is removed.
    pub move_back: bool,
    pub index: IndexUpsert,
    /// The trash row to delete.
    pub delete_id: i64,
}

/// Plans restoring `row` at `now`: the file goes back unless its original place is taken,
/// the index records it as present (with `now` as modification time, corrected by the next
/// run), and the trash row goes.
pub fn restore_plan(row: &TrashRow, now: i64, target_exists: bool) -> (r: RestorePlan)
    ensures
        r.move_back == !target_exists,
        r.index.device_id == row.device_id,
        r.index.rel_path@ == row.original_rel@,
        r.index.size == row.size,
        r.index.mtime_unix == now,
        r.index.local_status@ == "present"@,
        r.index.last_synced_at == now,
        r.delete_id == row.id,
{
    RestorePlan {
        move_back: !target_exists,
        index: IndexUpsert {
            device_id: row.device_id,
            rel_path: row.original_rel.clone(),
            size: row.size,
            mtime_unix: now,
            local_status: String::from_str("present"),
            last_synced_at: now,
        },
        delete_id: row.id,
    }
}

/// Bytes that collecting `rows` frees: their sizes, each read as unsigned (`as u64`).
pub open spec fn freed_total(rows: Seq<TrashRow>) -> int
    decreases rows.len(),
{
    if rows.len() == 0 {
        0
    } else {
        freed_total(rows.drop_last()) + (rows.last().size as u64)
    }
}

/// The bytes freed by collecting rows are the sizes of all of them added up (each read as
/// `u64`): nothing for no rows, one row's size for one row, and the totals of two batches add.
pub proof fn law_freed_total_adds_up(a: Seq<TrashRow>, b: Seq<TrashRow>, r: TrashRow)
    ensures
        freed_total(Seq::<TrashRow>::empty()) == 0,
        freed_total(seq![r]) == r.size as u64,
        freed_total(a.push(r)) == freed_total(a) + (r.size as u64),
        freed_total(a + b) == freed_total(a) + freed_total(b),
    decreases b.len(),
{
    assert(seq![r].drop_last() =~= Seq::<TrashRow>::empty());
    assert(a.push(r).drop_last() =~= a);
    if b.len() == 0 {
        assert(a + b =~= a);
    } else {
        law_freed_total_adds_up(a, b.drop_last(), r);
        assert((a + b).drop_last() =~= a + b.drop_last());
        assert((a + b).last() == b.last());
    }
}

pub open spec fn row_ids(rows: Seq<TrashRow>) -> Seq<i64> {
    rows.map_values(|r: TrashRow| r.id)
}

proof fn lemma_freed_total_monotone(rows: Seq<TrashRow>, i: int)
    requires
        0 <= i <= rows.len(),
    ensures
        freed_total(rows.take(i)) <= freed_total(rows),
    decreases rows.len() - i,
{
    if i < rows.len() {
        lemma_freed_total_monotone(rows, i + 1);
        assert(rows.take(i + 1).drop_last() =~= rows.take(i));
    } else {
        assert(rows.take(i) =~= rows);
    }
}

/// The ids of the given trash rows, in order.
pub fn ids_of(rows: &Vec<TrashRow>) -> (r: Vec<i64>)
    ensures
        r@ == row_ids(rows@),
{
    let mut ids: Vec<i64> = Vec::new();
    let mut i: usize = 0;
    while i < rows.len()
        invariant
            i <= rows@.len(),
            ids@ == row_ids(rows@.take(i as int)),
        decreases rows.len() - i,
    {
        ids.push(rows[i].id);
        assert(ids@ =~= row_ids(rows@.take(i + 1)));
        i = i + 1;
    }
    assert(rows@.take(rows@.len() as int) =~= rows@);
    ids
}

/// The report of one trash collection over the expired rows, and the ids of the rows to
/// delete.
pub fn gc_report(expired: &Vec<TrashRow>) -> (r: (TrashGcFinishedPayload, Vec<i64>))
    requires
        expired@.len() <= u32::MAX,
        freed_total(expired@) <= u64::MAX,
    ensures
        r.0.purged == expired@.len(),
        r.0.freed_bytes == freed_total(expired@),
        r.1@ == row_ids(expired@),
{
    let mut purged: u32 = 0;
    let mut freed: u64 = 0;
    let mut ids: Vec<i64> = Vec::new();
    let mut i: usize = 0;
    while i < expired.len()
        invariant
            i <= expired@.len(),
            expired@.len() <= u32::MAX,
            freed_total(expired@) <= u64::MAX,
            purged == i,
            freed == freed_total(expired@.take(i as int)),
            ids@ == row_ids(expired@.take(i as int)),
        decreases expired.len() - i,
    {
        proof {
            lemma_freed_total_monotone(expired@, i + 1);
            assert(expired@.take(i + 1).drop_last() =~= expired@.take(i as int));
        }
        freed = freed + (expired[i].size as u64);
        purged = purged + 1;
        ids.push(expired[i].id);
        assert(ids@ =~= row_ids(expired@.take(i + 1)));
        i = i + 1;
    }
    assert(expired@.take(expired@.len() as int) =~= expired@);
    (TrashGcFinishedPayload { purged, freed_bytes: freed }, ids)
}

} // verus!
