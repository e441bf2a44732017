//! The decisions of a sync run: what the diff amounts to, how outcomes are tallied, how a
//! run ends, and when progress is reported.

use vstd::prelude::*;
use crate::diff::{DiffItem, FileEntry};
use crate::error::AlbumError;
use crate::events::{FileAction, SyncEvent};
use crate::models::FileIndexRow;
use crate::text::{push_char, push_decimal, push_str, dec_digits};

verus! {

// ---------------------------------------------------------------------------------------
// The local index as a listing
// ---------------------------------------------------------------------------------------

/// The local index rows of a device as diff entries (sizes read as unsigned, `as u64`).
pub fn local_entries(rows: &Vec<FileIndexRow>) -> (r: Vec<FileEntry>)
    ensures
        r@.len() == rows@.len(),
        forall|i: int| 0 <= i < rows@.len() ==> (#[trigger] r@[i]).rel_path == rows@[i].rel_path
            && r@[i].size == rows@[i].size as u64 && r@[i].mtime == rows@[i].mtime_unix,
{
    let mut r: Vec<FileEntry> = Vec::new();
    let mut i: usize = 0;
    while i < rows.len()
        invariant
            i <= rows@.len(),
            r@.len() == i,
            forall|j: int| 0 <= j < i ==> (#[trigger] r@[j]).rel_path == rows@[j].rel_path
                && r@[j].size == rows@[j].size as u64 && r@[j].mtime == rows@[j].mtime_unix,
        decreases rows.len() - i,
    {
        let row = &rows[i];
        r.push(FileEntry { rel_path: row.rel_path.clone(), size: row.size as u64, mtime: row.mtime_unix });
        i = i + 1;
    }
    r
}

// ---------------------------------------------------------------------------------------
// What a diff amounts to
// ---------------------------------------------------------------------------------------

pub open spec fn is_transfer(d: DiffItem) -> bool {
    d is Add || d is Update
}

pub open spec fn transfer_size(d: DiffItem) -> int {
    match d {
        DiffItem::Add(e) => e.size as int,
        DiffItem::Update(e) => e.size as int,
        DiffItem::DeleteLocal { .. } => 0,
    }
}

/// Number of downloads in a diff.
pub open spec fn transfer_count(d: Seq<DiffItem>) -> int
    decreases d.len(),
{
    if d.len() == 0 {
        0
    } else {
        transfer_count(d.drop_last()) + if is_transfer(d.last()) {
            1int
        } else {
            0int
        }
    }
}

/// Bytes to download in a diff.
pub open spec fn transfer_bytes(d: Seq<DiffItem>) -> int
    decreases d.len(),
{
    if d.len() == 0 {
        0
    } else {
        transfer_bytes(d.drop_last()) + transfer_size(d.last())
    }
}

/// Number of retirements in a diff.
pub open spec fn delete_count(d: Seq<DiffItem>) -> int
    decreases d.len(),
{
    if d.len() == 0 {
        0
    } else {
        delete_count(d.drop_last()) + if d.last() is DeleteLocal {
            1int
        } else {
            0int
        }
    }
}

/// The totals announced when a run starts.
#[derive(Debug, Clone, Copy)]
pub struct DiffTotals {
    pub total_files: u64,
    pub total_bytes: u64,
    /// The number of retirements, as `u32` (`count() as u32`).
    pub deletes: u32,
}

proof fn lemma_counts_prefix(d: Seq<DiffItem>, i: int)
    requires
        0 <= i <= d.len(),
    ensures
        transfer_bytes(d.take(i)) <= transfer_bytes(d),
        transfer_count(d.take(i)) + delete_count(d.take(i)) == i,
        transfer_count(d.take(i)) >= 0,
        delete_count(d.take(i)) >= 0,
    decreases d.len() - i,
{
    lemma_counts_all(d.take(i));
    if i < d.len() {
        lemma_counts_prefix(d, i + 1);
        assert(d.take(i + 1).drop_last() =~= d.take(i));
        lemma_counts_all(d.take(i + 1));
    } else {
        assert(d.take(i) =~= d);
        lemma_counts_all(d);
    }
}

proof fn lemma_counts_all(d: Seq<DiffItem>)
    ensures
        transfer_count(d) + delete_count(d) == d.len(),
        transfer_count(d) >= 0,
        delete_count(d) >= 0,
        transfer_bytes(d) >= 0,
    decreases d.len(),
{
    if d.len() > 0 {
        lemma_counts_all(d.drop_last());
    }
}

/// Every item of a diff is either a download or a retirement.
pub proof fn law_diff_items_are_counted_once(d: Seq<DiffItem>)
    ensures
        transfer_count(d) + delete_count(d) == d.len(),
{
    lemma_counts_all(d);
}

/// The totals of a diff add up item by item: an `Add` or an `Update` is one download of its
/// size, a `DeleteLocal` one retirement and no bytes; an empty diff has none, and the totals
/// of two parts of a diff add.
pub proof fn law_diff_totals_add_up(a: Seq<DiffItem>, b: Seq<DiffItem>, x: DiffItem)
    ensures
        transfer_count(Seq::<DiffItem>::empty()) == 0 && transfer_bytes(Seq::<DiffItem>::empty()) == 0
            && delete_count(Seq::<DiffItem>::empty()) == 0,
        x matches DiffItem::Add(e) ==> transfer_count(a.push(x)) == transfer_count(a) + 1 && transfer_bytes(a.push(x))
            == transfer_bytes(a) + e.size && delete_count(a.push(x)) == delete_count(a),
        x matches DiffItem::Update(e) ==> transfer_count(a.push(x)) == transfer_count(a) + 1 && transfer_bytes(
            a.push(x),
        ) == transfer_bytes(a) + e.size && delete_count(a.push(x)) == delete_count(a),
        x is DeleteLocal ==> transfer_count(a.push(x)) == transfer_count(a) && transfer_bytes(a.push(x))
            == transfer_bytes(a) && delete_count(a.push(x)) == delete_count(a) + 1,
        transfer_count(a + b) == transfer_count(a) + transfer_count(b),
        transfer_bytes(a + b) == transfer_bytes(a) + transfer_bytes(b),
        delete_count(a + b) == delete_count(a) + delete_count(b),
    decreases b.len(),
{
    assert(a.push(x).drop_last() =~= a);
    if b.len() == 0 {
        assert(a + b =~= a);
    } else {
        law_diff_totals_add_up(a, b.drop_last(), x);
        assert((a + b).drop_last() =~= a + b.drop_last());
        assert((a + b).last() == b.last());
    }
}

/// Counts the downloads, their bytes and the retirements of a diff.
pub fn diff_totals(diff: &Vec<DiffItem>) -> (r: DiffTotals)
    requires
        transfer_bytes(diff@) <= u64::MAX,
    ensures
        r.total_files == transfer_count(diff@),
        r.total_bytes == transfer_bytes(diff@),
        r.deletes == delete_count(diff@) as u32,
{
    let mut files: u64 = 0;
    let mut bytes: u64 = 0;
    let mut deletes: usize = 0;
    let mut i: usize = 0;
    while i < diff.len()
        invariant
            i <= diff@.len(),
            transfer_bytes(diff@) <= u64::MAX,
            files == transfer_count(diff@.take(i as int)),
            bytes == transfer_bytes(diff@.take(i as int)),
            deletes == delete_count(diff@.take(i as int)),
        decreases diff.len() - i,
    {
        proof {
            lemma_counts_prefix(diff@, i + 1);
            lemma_counts_prefix(diff@, i as int);
            assert(diff@.take(i + 1).drop_last() =~= diff@.take(i as int));
            assert(diff@.take(i + 1).last() == diff@[i as int]);
        }
        match &diff[i] {
            DiffItem::Add(e) => {
                files = files + 1;
                bytes = bytes + e.size;
            },
            DiffItem::Update(e) => {
                files = files + 1;
                bytes = bytes + e.size;
            },
            DiffItem::DeleteLocal { .. } => {
                deletes = deletes + 1;
            },
        }
        i = i + 1;
    }
    assert(diff@.take(diff@.len() as int) =~= diff@);
    DiffTotals { total_files: files, total_bytes: bytes, deletes: deletes as u32 }
}

// ---------------------------------------------------------------------------------------
// Tallying outcomes and ending a run
// ---------------------------------------------------------------------------------------

/// The final state recorded for a run.
#[derive(Debug, Clone, Copy, PartialEq, Eq, Structural)]
pub enum RunStatus {
    Succeeded,
    Partial,
    /// The run stopped on an error before it could conclude.
    Failed,
    Aborted,
}

/// A cancelled run is aborted; otherwise it succeeded when nothing failed, and is partial
/// when something did.
pub open spec fn status_of(cancelled: bool, failed: u32) -> RunStatus {
    if cancelled {
        RunStatus::Aborted
    } else if failed == 0 {
        RunStatus::Succeeded
    } else {
        RunStatus::Partial
    }
}

pub open spec fn status_text(s: RunStatus) -> Seq<char> {
    match s {
        RunStatus::Succeeded => "succeeded"@,
        RunStatus::Partial => "partial"@,
        RunStatus::Failed => "failed"@,
        RunStatus::Aborted => "aborted"@,
    }
}

/// How a concluded run is judged: a cancelled run is aborted whatever else happened; a run
/// that was not cancelled succeeded exactly when no item failed, and is partial as soon as
/// one did. It never comes out failed (that is for runs stopped by an error).
pub proof fn law_run_status_cases(cancelled: bool, failed: u32)
    ensures
        cancelled ==> status_of(cancelled, failed) == RunStatus::Aborted,
        !cancelled ==> (status_of(cancelled, failed) == RunStatus::Succeeded <==> failed == 0),
        !cancelled && failed > 0 ==> status_of(cancelled, failed) == RunStatus::Partial,
        status_of(cancelled, failed) != RunStatus::Failed,
{
}

/// The status to record for a run that stopped on the error `e`: failed, except for a
/// cancellation, which the run has already recorded as aborted (`None`).
pub fn status_after_error(e: &AlbumError) -> (r: Option<RunStatus>)
    ensures
        r == (if e is Cancelled {
            None::<RunStatus>
        } else {
            Some(RunStatus::Failed)
        }),
{
    match e {
        AlbumError::Cancelled => None,
        _ => Some(RunStatus::Failed),
    }
}

/// The status of a run that concluded (it never is `Failed`).
pub fn run_status(cancelled: bool, failed: u32) -> (r: RunStatus)
    ensures
        r == status_of(cancelled, failed),
{
    if cancelled {
        RunStatus::Aborted
    } else if failed == 0 {
        RunStatus::Succeeded
    } else {
        RunStatus::Partial
    }
}

impl RunStatus {
    /// The value stored in `sync_runs.status`.
    pub fn as_str(&self) -> (r: &'static str)
        ensures
            r@ == status_text(*self),
    {
        match self {
            RunStatus::Succeeded => "succeeded",
            RunStatus::Partial => "partial",
            RunStatus::Failed => "failed",
            RunStatus::Aborted => "aborted",
        }
    }
}

/// Per-run counters.
#[derive(Debug, Clone, Copy)]
pub struct SyncTally {
    pub added: u32,
    pub updated: u32,
    pub deleted: u32,
    pub failed: u32,
    pub bytes_downloaded: u64,
}

/// How a run ends: the status to record, the event to push, and what the run returns.
#[derive(Debug)]
pub struct RunConclusion {
    pub status: RunStatus,
    pub event: SyncEvent,
    pub result: Result<(), AlbumError>,
}

impl SyncTally {
    pub open spec fn outcomes(&self) -> int {
        self.added + self.updated + self.deleted + self.failed
    }

    /// Nothing counted yet.
    pub fn new() -> (r: SyncTally)
        ensures
            r.added == 0 && r.updated == 0 && r.deleted == 0 && r.failed == 0 && r.bytes_downloaded == 0,
    {
        SyncTally { added: 0, updated: 0, deleted: 0, failed: 0, bytes_downloaded: 0 }
    }

    /// A local file was moved to the trash.
    pub fn record_deleted(&mut self)
        requires
            old(self).deleted < u32::MAX,
        ensures
            *final(self) == (SyncTally { deleted: (old(self).deleted + 1) as u32, ..*old(self) }),
    {
        self.deleted = self.deleted + 1;
    }

    /// A retirement or a download failed.
    pub fn record_failed(&mut self)
        requires
            old(self).failed < u32::MAX,
        ensures
            *final(self) == (SyncTally { failed: (old(self).failed + 1) as u32, ..*old(self) }),
    {
        self.failed = self.failed + 1;
    }

    /// Bytes arrived for a download in progress.
    pub fn record_bytes(&mut self, bytes: u64)
        requires
            old(self).bytes_downloaded + bytes <= u64::MAX,
        ensures
            *final(self) == (SyncTally { bytes_downloaded: (old(self).bytes_downloaded + bytes) as u64, ..*old(self) }),
    {
        self.bytes_downloaded = self.bytes_downloaded + bytes;
    }

    /// A download finished; returns what happened to the file.
    pub fn record_downloaded(&mut self, is_update: bool) -> (r: FileAction)
        requires
            is_update ==> old(self).updated < u32::MAX,
            !is_update ==> old(self).added < u32::MAX,
        ensures
            is_update ==> r == FileAction::Updated && *final(self) == (SyncTally {
                updated: (old(self).updated + 1) as u32,
                ..*old(self)
            }),
            !is_update ==> r == FileAction::Added && *final(self) == (SyncTally {
                added: (old(self).added + 1) as u32,
                ..*old(self)
            }),
    {
        if is_update {
            self.updated = self.updated + 1;
            FileAction::Updated
        } else {
            self.added = self.added + 1;
            FileAction::Added
        }
    }

    /// One item of the diff was handled: `ok` tells whether the retirement or the download
    /// went through. A failure counts as failed, a success by the item's kind. Returns the
    /// action that the item stands for.
    pub fn record_item(&mut self, item: &DiffItem, ok: bool) -> (r: FileAction)
        requires
            !ok ==> old(self).failed < u32::MAX,
            ok && item is Add ==> old(self).added < u32::MAX,
            ok && item is Update ==> old(self).updated < u32::MAX,
            ok && item is DeleteLocal ==> old(self).deleted < u32::MAX,
        ensures
            *final(self) == after_item(*old(self), *item, ok),
            r == item_action(*item),
    {
        if !ok {
            self.record_failed();
            return item_action_of(item);
        }
        match item {
            DiffItem::Add(_) => self.record_downloaded(false),
            DiffItem::Update(_) => self.record_downloaded(true),
            DiffItem::DeleteLocal { .. } => {
                self.record_deleted();
                FileAction::Deleted
            },
        }
    }

    /// How run `run_id` ends: aborted (with the `Aborted` event and a `Cancelled` error) when
    /// it was cancelled, otherwise succeeded or partial with the `Finished` event.
    pub fn conclude(&self, run_id: i64, cancelled: bool) -> (r: RunConclusion)
        ensures
            r.status == status_of(cancelled, self.failed),
            cancelled ==> r.event == (SyncEvent::Aborted { run_id }) && r.result == Err::<(), AlbumError>(
                AlbumError::Cancelled,
            ),
            !cancelled ==> r.event == (SyncEvent::Finished {
                run_id,
                added: self.added,
                updated: self.updated,
                deleted: self.deleted,
                failed: self.failed,
            }) && r.result == Ok::<(), AlbumError>(()),
    {
        let status = run_status(cancelled, self.failed);
        if cancelled {
            RunConclusion { status, event: SyncEvent::Aborted { run_id }, result: Err(AlbumError::Cancelled) }
        } else {
            RunConclusion {
                status,
                event: SyncEvent::Finished {
                    run_id,
                    added: self.added,
                    updated: self.updated,
                    deleted: self.deleted,
                    failed: self.failed,
                },
                result: Ok(()),
            }
        }
    }
}

/// The action a diff item stands for.
pub open spec fn item_action(d: DiffItem) -> FileAction {
    match d {
        DiffItem::Add(_) => FileAction::Added,
        DiffItem::Update(_) => FileAction::Updated,
        DiffItem::DeleteLocal { .. } => FileAction::Deleted,
    }
}

fn item_action_of(d: &DiffItem) -> (r: FileAction)
    ensures
        r == item_action(*d),
{
    match d {
        DiffItem::Add(_) => FileAction::Added,
        DiffItem::Update(_) => FileAction::Updated,
        DiffItem::DeleteLocal { .. } => FileAction::Deleted,
    }
}

/// The tally after one more item was handled (`ok`: it went through).
pub open spec fn after_item(t: SyncTally, item: DiffItem, ok: bool) -> SyncTally {
    if !ok {
        SyncTally { failed: (t.failed + 1) as u32, ..t }
    } else {
        match item {
            DiffItem::Add(_) => SyncTally { added: (t.added + 1) as u32, ..t },
            DiffItem::Update(_) => SyncTally { updated: (t.updated + 1) as u32, ..t },
            DiffItem::DeleteLocal { .. } => SyncTally { deleted: (t.deleted + 1) as u32, ..t },
        }
    }
}

/// The tally of a run that started from nothing and handled `items` in this order, item
/// `i` with the result `oks[i]`.
pub open spec fn tally_of(items: Seq<DiffItem>, oks: Seq<bool>) -> SyncTally
    decreases items.len(),
{
    if items.len() == 0 || oks.len() == 0 {
        SyncTally { added: 0, updated: 0, deleted: 0, failed: 0, bytes_downloaded: 0 }
    } else {
        after_item(tally_of(items.drop_last(), oks.drop_last()), items.last(), oks.last())
    }
}

/// How many of `items` (item `i` with result `oks[i]`) satisfy `f`.
pub open spec fn count_where(items: Seq<DiffItem>, oks: Seq<bool>, f: spec_fn(DiffItem, bool) -> bool) -> nat
    decreases items.len(),
{
    if items.len() == 0 || oks.len() == 0 {
        0
    } else {
        count_where(items.drop_last(), oks.drop_last(), f) + if f(items.last(), oks.last()) {
            1nat
        } else {
            0nat
        }
    }
}

proof fn lemma_count_where_bound(items: Seq<DiffItem>, oks: Seq<bool>, f: spec_fn(DiffItem, bool) -> bool)
    ensures
        count_where(items, oks, f) <= items.len(),
    decreases items.len(),
{
    if items.len() > 0 && oks.len() > 0 {
        lemma_count_where_bound(items.drop_last(), oks.drop_last(), f);
    }
}

/// Every item of a run is counted exactly once: handling the items of a diff one by one,
/// each with its result, ends with as many added as downloads of new files went through, as
/// many updated as downloads of changed files, as many deleted as retirements, as many failed
/// as items that did not go through, and so with added + updated + deleted + failed equal to
/// the number of items. Bytes are not touched by it.
pub proof fn law_every_item_counted_once(items: Seq<DiffItem>, oks: Seq<bool>)
    requires
        oks.len() == items.len(),
        items.len() <= u32::MAX,
    ensures
        tally_of(items, oks).added == count_where(items, oks, |d: DiffItem, ok: bool| ok && d is Add),
        tally_of(items, oks).updated == count_where(items, oks, |d: DiffItem, ok: bool| ok && d is Update),
        tally_of(items, oks).deleted == count_where(items, oks, |d: DiffItem, ok: bool| ok && d is DeleteLocal),
        tally_of(items, oks).failed == count_where(items, oks, |d: DiffItem, ok: bool| !ok),
        tally_of(items, oks).outcomes() == items.len(),
        tally_of(items, oks).bytes_downloaded == 0,
    decreases items.len(),
{
    let fa = |d: DiffItem, ok: bool| ok && d is Add;
    let fu = |d: DiffItem, ok: bool| ok && d is Update;
    let fd = |d: DiffItem, ok: bool| ok && d is DeleteLocal;
    let ff = |d: DiffItem, ok: bool| !ok;
    if items.len() > 0 {
        let pi = items.drop_last();
        let po = oks.drop_last();
        law_every_item_counted_once(pi, po);
        lemma_count_where_bound(pi, po, fa);
        lemma_count_where_bound(pi, po, fu);
        lemma_count_where_bound(pi, po, fd);
        lemma_count_where_bound(pi, po, ff);
        assert(count_where(items, oks, fa) == count_where(pi, po, fa) + if fa(items.last(), oks.last()) { 1nat } else { 0nat });
        assert(count_where(items, oks, fu) == count_where(pi, po, fu) + if fu(items.last(), oks.last()) { 1nat } else { 0nat });
        assert(count_where(items, oks, fd) == count_where(pi, po, fd) + if fd(items.last(), oks.last()) { 1nat } else { 0nat });
        assert(count_where(items, oks, ff) == count_where(pi, po, ff) + if ff(items.last(), oks.last()) { 1nat } else { 0nat });
    }
}

/// Each recorded outcome (retired, failed, downloaded) adds exactly one to the outcome count,
/// and recording bytes adds none: after a run the counters account for every item handled.
pub proof fn law_each_outcome_counted_once(t: SyncTally, is_update: bool, bytes: u64)
    ensures
        (SyncTally { deleted: (t.deleted + 1) as u32, ..t }).outcomes() == t.outcomes() + 1 || t.deleted == u32::MAX,
        (SyncTally { failed: (t.failed + 1) as u32, ..t }).outcomes() == t.outcomes() + 1 || t.failed == u32::MAX,
        (SyncTally { added: (t.added + 1) as u32, ..t }).outcomes() == t.outcomes() + 1 || t.added == u32::MAX,
        (SyncTally { updated: (t.updated + 1) as u32, ..t }).outcomes() == t.outcomes() + 1 || t.updated == u32::MAX,
        (SyncTally { bytes_downloaded: bytes, ..t }).outcomes() == t.outcomes(),
{
}

// ---------------------------------------------------------------------------------------
// The order in which a run hands out its work
// ---------------------------------------------------------------------------------------

/// Where a run stands: first it retires (walking the diff for `DeleteLocal` items), then it
/// hands out the downloads (walking it again for `Add` and `Update` items), then it waits for
/// the downloads to report, then it is done.
#[derive(Debug, Clone, Copy, PartialEq, Eq, Structural)]
pub enum RunPhase {
    Retiring,
    Downloading,
    Collecting,
    Done,
}

/// What the run asks for next.
#[derive(Debug, Clone, Copy, PartialEq, Eq, Structural)]
pub enum RunStep {
    /// Move the local copy of diff item `i` to the trash, then record the outcome.
    Retire(usize),
    /// Start the download of diff item `i`; its outcome is recorded when it reports.
    Download(usize),
    /// Nothing to do for this item; ask again.
    Skip,
    /// All work is handed out: wait until every started download has reported.
    Collect,
    /// The run is over: conclude it.
    Finish,
}

/// The position of a run in its diff.
#[derive(Debug, Clone, Copy)]
pub struct SyncRun {
    pub phase: RunPhase,
    pub cursor: usize,
}

/// The next step of run `r` over the diff `d`, and the run after it. Once the run is
/// cancelled no more work is handed out.
pub open spec fn next_spec(d: Seq<DiffItem>, r: SyncRun, cancelled: bool) -> (RunStep, SyncRun) {
    match r.phase {
        RunPhase::Retiring => if cancelled || r.cursor >= d.len() {
            (RunStep::Skip, SyncRun { phase: RunPhase::Downloading, cursor: 0 })
        } else if d[r.cursor as int] is DeleteLocal {
            (RunStep::Retire(r.cursor), SyncRun { phase: RunPhase::Retiring, cursor: (r.cursor + 1) as usize })
        } else {
            (RunStep::Skip, SyncRun { phase: RunPhase::Retiring, cursor: (r.cursor + 1) as usize })
        },
        RunPhase::Downloading => if cancelled || r.cursor >= d.len() {
            (RunStep::Collect, SyncRun { phase: RunPhase::Collecting, cursor: r.cursor })
        } else if d[r.cursor as int] is DeleteLocal {
            (RunStep::Skip, SyncRun { phase: RunPhase::Downloading, cursor: (r.cursor + 1) as usize })
        } else {
            (RunStep::Download(r.cursor), SyncRun { phase: RunPhase::Downloading, cursor: (r.cursor + 1) as usize })
        },
        _ => (RunStep::Finish, SyncRun { phase: RunPhase::Done, cursor: r.cursor }),
    }
}

impl SyncRun {
    /// A run that has not started.
    pub fn start() -> (r: SyncRun)
        ensures
            r == (SyncRun { phase: RunPhase::Retiring, cursor: 0 }),
    {
        SyncRun { phase: RunPhase::Retiring, cursor: 0 }
    }

    /// Decides the next step over the diff `diff`; `cancelled` tells whether the user has
    /// cancelled the run.
    pub fn next(&mut self, diff: &Vec<DiffItem>, cancelled: bool) -> (r: RunStep)
        requires
            old(self).cursor <= diff@.len(),
        ensures
            (r, *final(self)) == next_spec(diff@, *old(self), cancelled),
            final(self).cursor <= diff@.len(),
    {
        match self.phase {
            RunPhase::Retiring => {
                if cancelled || self.cursor >= diff.len() {
                    *self = SyncRun { phase: RunPhase::Downloading, cursor: 0 };
                    RunStep::Skip
                } else {
                    let i = self.cursor;
                    self.cursor = i + 1;
                    match &diff[i] {
                        DiffItem::DeleteLocal { .. } => RunStep::Retire(i),
                        _ => RunStep::Skip,
                    }
                }
            },
            RunPhase::Downloading => {
                if cancelled || self.cursor >= diff.len() {
                    self.phase = RunPhase::Collecting;
                    RunStep::Collect
                } else {
                    let i = self.cursor;
                    self.cursor = i + 1;
                    match &diff[i] {
                        DiffItem::DeleteLocal { .. } => RunStep::Skip,
                        _ => RunStep::Download(i),
                    }
                }
            },
            _ => {
                self.phase = RunPhase::Done;
                RunStep::Finish
            },
        }
    }
}

/// The steps of a run that is never cancelled, from `r` on, for at most `fuel` steps (it
/// stops after `Finish`).
pub open spec fn run_steps(d: Seq<DiffItem>, r: SyncRun, fuel: nat) -> Seq<RunStep>
    decreases fuel,
{
    if fuel == 0 {
        Seq::empty()
    } else {
        let (s, r2) = next_spec(d, r, false);
        if s is Finish {
            seq![s]
        } else {
            seq![s] + run_steps(d, r2, (fuel - 1) as nat)
        }
    }
}

/// The diff items that `steps` hand out, in order.
pub open spec fn handed_out(steps: Seq<RunStep>) -> Seq<int>
    decreases steps.len(),
{
    if steps.len() == 0 {
        Seq::empty()
    } else {
        (match steps[0] {
            RunStep::Retire(i) => seq![i as int],
            RunStep::Download(i) => seq![i as int],
            _ => Seq::<int>::empty(),
        }) + handed_out(steps.drop_first())
    }
}

/// The retirements of `d` from item `c` on, in diff order.
pub open spec fn retirements_from(d: Seq<DiffItem>, c: int) -> Seq<int>
    decreases d.len() - c,
{
    if c < 0 || c >= d.len() {
        Seq::empty()
    } else {
        (if d[c] is DeleteLocal {
            seq![c]
        } else {
            Seq::<int>::empty()
        }) + retirements_from(d, c + 1)
    }
}

/// The downloads of `d` from item `c` on, in diff order.
pub open spec fn downloads_from(d: Seq<DiffItem>, c: int) -> Seq<int>
    decreases d.len() - c,
{
    if c < 0 || c >= d.len() {
        Seq::empty()
    } else {
        (if d[c] is DeleteLocal {
            Seq::<int>::empty()
        } else {
            seq![c]
        }) + downloads_from(d, c + 1)
    }
}

/// The order of a run: every retirement in diff order, then every download in diff order.
pub open spec fn run_order(d: Seq<DiffItem>) -> Seq<int> {
    retirements_from(d, 0) + downloads_from(d, 0)
}

proof fn lemma_downloading_steps(d: Seq<DiffItem>, c: int, fuel: nat)
    requires
        0 <= c <= d.len(),
        d.len() < usize::MAX,
        fuel >= d.len() - c + 2,
    ensures
        handed_out(run_steps(d, SyncRun { phase: RunPhase::Downloading, cursor: c as usize }, fuel)) == downloads_from(d, c),
        run_steps(d, SyncRun { phase: RunPhase::Downloading, cursor: c as usize }, fuel).last() == RunStep::Finish,
    decreases d.len() - c,
{
    let r = SyncRun { phase: RunPhase::Downloading, cursor: c as usize };
    let st = run_steps(d, r, fuel);
    if c >= d.len() {
        let r2 = SyncRun { phase: RunPhase::Collecting, cursor: c as usize };
        assert(run_steps(d, r2, (fuel - 1) as nat) == seq![RunStep::Finish]);
        assert(st == seq![RunStep::Collect] + seq![RunStep::Finish]);
        assert(handed_out(seq![RunStep::Finish]) == Seq::<int>::empty()) by {
            assert(seq![RunStep::Finish].drop_first() =~= Seq::<RunStep>::empty());
            assert(handed_out(Seq::<RunStep>::empty()) == Seq::<int>::empty());
            assert(handed_out(seq![RunStep::Finish]) =~= Seq::<int>::empty() + handed_out(Seq::<RunStep>::empty()));
        }
        assert(st.drop_first() =~= seq![RunStep::Finish]);
        assert(handed_out(st) =~= Seq::<int>::empty());
    } else {
        let r2 = SyncRun { phase: RunPhase::Downloading, cursor: (c + 1) as usize };
        lemma_downloading_steps(d, c + 1, (fuel - 1) as nat);
        let rest = run_steps(d, r2, (fuel - 1) as nat);
        assert(st.drop_first() =~= rest);
        assert(handed_out(st) =~= (if d[c] is DeleteLocal { Seq::<int>::empty() } else { seq![c] }) + handed_out(rest));
        assert(st.last() == rest.last());
    }
}

proof fn lemma_retiring_steps(d: Seq<DiffItem>, c: int, fuel: nat)
    requires
        0 <= c <= d.len(),
        d.len() < usize::MAX,
        fuel >= d.len() - c + d.len() + 3,
    ensures
        handed_out(run_steps(d, SyncRun { phase: RunPhase::Retiring, cursor: c as usize }, fuel)) == retirements_from(d, c)
            + downloads_from(d, 0),
        run_steps(d, SyncRun { phase: RunPhase::Retiring, cursor: c as usize }, fuel).last() == RunStep::Finish,
    decreases d.len() - c,
{
    let r = SyncRun { phase: RunPhase::Retiring, cursor: c as usize };
    let st = run_steps(d, r, fuel);
    if c >= d.len() {
        let r2 = SyncRun { phase: RunPhase::Downloading, cursor: 0 };
        lemma_downloading_steps(d, 0, (fuel - 1) as nat);
        let rest = run_steps(d, r2, (fuel - 1) as nat);
        assert(st.drop_first() =~= rest);
        assert(handed_out(st) =~= handed_out(rest));
        assert(retirements_from(d, c) =~= Seq::<int>::empty());
        assert(st.last() == rest.last());
    } else {
        let r2 = SyncRun { phase: RunPhase::Retiring, cursor: (c + 1) as usize };
        lemma_retiring_steps(d, c + 1, (fuel - 1) as nat);
        let rest = run_steps(d, r2, (fuel - 1) as nat);
        assert(st.drop_first() =~= rest);
        assert(handed_out(st) =~= (if d[c] is DeleteLocal { seq![c] } else { Seq::<int>::empty() }) + handed_out(rest));
        assert(st.last() == rest.last());
    }
}

/// A run that is not cancelled hands out the items of its diff in `run_order` and then
/// finishes: every retirement first, in diff order, then every download, in diff order.
pub proof fn law_run_follows_run_order(d: Seq<DiffItem>)
    requires
        d.len() < usize::MAX,
    ensures
        handed_out(run_steps(d, SyncRun { phase: RunPhase::Retiring, cursor: 0 }, (2 * d.len() + 3) as nat))
            == run_order(d),
        run_steps(d, SyncRun { phase: RunPhase::Retiring, cursor: 0 }, (2 * d.len() + 3) as nat).last()
            == RunStep::Finish,
{
    lemma_retiring_steps(d, 0, (2 * d.len() + 3) as nat);
}

/// A cancelled run hands out no more work: whatever its state, the next step retires and
/// downloads nothing.
pub proof fn law_cancelled_run_hands_out_nothing(d: Seq<DiffItem>, r: SyncRun)
    ensures
        !(next_spec(d, r, true).0 is Retire),
        !(next_spec(d, r, true).0 is Download),
{
}

proof fn lemma_parts_from(d: Seq<DiffItem>, c: int)
    requires
        0 <= c <= d.len(),
    ensures
        retirements_from(d, c).len() + downloads_from(d, c).len() == d.len() - c,
        forall|k: int| 0 <= k < retirements_from(d, c).len() ==> c <= #[trigger] retirements_from(d, c)[k] < d.len()
            && d[retirements_from(d, c)[k]] is DeleteLocal,
        forall|k: int| 0 <= k < downloads_from(d, c).len() ==> c <= #[trigger] downloads_from(d, c)[k] < d.len()
            && !(d[downloads_from(d, c)[k]] is DeleteLocal),
        forall|j: int, k: int| 0 <= j < k < retirements_from(d, c).len() ==> #[trigger] retirements_from(d, c)[j]
            < #[trigger] retirements_from(d, c)[k],
        forall|j: int, k: int| 0 <= j < k < downloads_from(d, c).len() ==> #[trigger] downloads_from(d, c)[j]
            < #[trigger] downloads_from(d, c)[k],
        forall|i: int| c <= i < d.len() ==> (#[trigger] d[i] is DeleteLocal ==> retirements_from(d, c).contains(i))
            && (!(d[i] is DeleteLocal) ==> downloads_from(d, c).contains(i)),
    decreases d.len() - c,
{
    if c < d.len() {
        lemma_parts_from(d, c + 1);
        let rt = retirements_from(d, c + 1);
        let dl = downloads_from(d, c + 1);
        let hr = if d[c] is DeleteLocal { seq![c] } else { Seq::<int>::empty() };
        let hd = if d[c] is DeleteLocal { Seq::<int>::empty() } else { seq![c] };
        assert(retirements_from(d, c) == hr + rt);
        assert(downloads_from(d, c) == hd + dl);
        assert forall|i: int| c <= i < d.len() implies (#[trigger] d[i] is DeleteLocal ==> retirements_from(d, c).contains(i))
            && (!(d[i] is DeleteLocal) ==> downloads_from(d, c).contains(i)) by {
            if i == c {
                if d[c] is DeleteLocal {
                    assert((hr + rt)[0] == c);
                } else {
                    assert((hd + dl)[0] == c);
                }
            } else {
                if d[i] is DeleteLocal {
                    let k = choose|k: int| 0 <= k < rt.len() && rt[k] == i;
                    assert((hr + rt)[hr.len() + k] == i);
                } else {
                    let k = choose|k: int| 0 <= k < dl.len() && dl[k] == i;
                    assert((hd + dl)[hd.len() + k] == i);
                }
            }
        }
    }
}

/// The order of a run names every item of the diff exactly once, and all retirements come
/// before all downloads.
pub proof fn law_run_order_each_item_once(d: Seq<DiffItem>)
    ensures
        run_order(d).len() == d.len(),
        forall|k: int| 0 <= k < d.len() ==> 0 <= #[trigger] run_order(d)[k] < d.len(),
        forall|i: int| 0 <= i < d.len() ==> #[trigger] run_order(d).contains(i),
        forall|j: int, k: int| 0 <= j < k < d.len() ==> #[trigger] run_order(d)[j] != #[trigger] run_order(d)[k],
        forall|j: int, k: int| 0 <= j < k < d.len() && d[#[trigger] run_order(d)[k]] is DeleteLocal ==> d[
            #[trigger] run_order(d)[j]] is DeleteLocal && run_order(d)[j] < run_order(d)[k],
{
    lemma_parts_from(d, 0);
    let rt = retirements_from(d, 0);
    let dl = downloads_from(d, 0);
    let o = run_order(d);
    assert forall|i: int| 0 <= i < d.len() implies #[trigger] o.contains(i) by {
        if d[i] is DeleteLocal {
            let k = choose|k: int| 0 <= k < rt.len() && rt[k] == i;
            assert(o[k] == i);
        } else {
            let k = choose|k: int| 0 <= k < dl.len() && dl[k] == i;
            assert(o[rt.len() + k] == i);
        }
    }
    assert forall|j: int, k: int| 0 <= j < k < d.len() implies #[trigger] o[j] != #[trigger] o[k] by {
        if k < rt.len() {
            assert(rt[j] < rt[k]);
        } else if j >= rt.len() {
            assert(dl[j - rt.len()] < dl[k - rt.len()]);
        } else {
            assert(d[rt[j]] is DeleteLocal);
            assert(!(d[dl[k - rt.len()]] is DeleteLocal));
        }
    }
    assert forall|j: int, k: int| 0 <= j < k < d.len() && d[#[trigger] o[k]] is DeleteLocal implies d[
        #[trigger] o[j]] is DeleteLocal && o[j] < o[k] by {
        if k >= rt.len() {
            assert(!(d[dl[k - rt.len()]] is DeleteLocal));
        } else {
            assert(rt[j] < rt[k]);
        }
    }
    assert forall|k: int| 0 <= k < d.len() implies 0 <= #[trigger] o[k] < d.len() by {
        if k < rt.len() {
            assert(o[k] == rt[k]);
        } else {
            assert(o[k] == dl[k - rt.len()]);
        }
    }
}

// ---------------------------------------------------------------------------------------
// Small rules of a run
// ---------------------------------------------------------------------------------------

/// Number of downloads that run at once: the configured concurrency, kept within 1..=16.
pub fn download_slots(concurrency: u32) -> (r: usize)
    ensures
        r == if concurrency < 1 {
            1
        } else if concurrency > 16 {
            16
        } else {
            concurrency
        },
{
    if concurrency < 1 {
        1
    } else if concurrency > 16 {
        16
    } else {
        concurrency as usize
    }
}

/// `""` when `s` ends with `/`, otherwise `"/"`.
pub fn trailing_slash(s: &str) -> (r: &'static str)
    ensures
        r@ == if s@.len() > 0 && s@.last() == '/' {
            Seq::<char>::empty()
        } else {
            seq!['/']
        },
{
    let cs = crate::text::chars_of(s);
    if cs.len() > 0 && cs[cs.len() - 1] == '/' {
        proof {
            reveal_strlit("");
        }
        ""
    } else {
        proof {
            reveal_strlit("/");
        }
        "/"
    }
}

/// The path on the phone of the file `rel_path` under `base`.
pub open spec fn remote_path_spec(base: Seq<char>, rel: Seq<char>) -> Seq<char> {
    base + (if base.len() > 0 && base.last() == '/' {
        Seq::<char>::empty()
    } else {
        seq!['/']
    }) + rel
}

/// The path to download `rel_path` from.
pub fn remote_path(base: &str, rel_path: &str) -> (r: String)
    ensures
        r@ == remote_path_spec(base@, rel_path@),
{
    let mut s = String::new();
    push_str(&mut s, base);
    push_str(&mut s, trailing_slash(base));
    push_str(&mut s, rel_path);
    assert(s@ =~= remote_path_spec(base@, rel_path@));
    s
}

/// The error for starting a run while run `run_id` is still going.
pub open spec fn busy_message(run_id: i64) -> Seq<char> {
    "已有同步任务进行中（run #"@ + crate::text::signed_dec(run_id as int) + "）"@
}

/// The refusal of a second run while one is in flight.
pub fn already_running(run_id: i64) -> (r: AlbumError)
    ensures
        r matches AlbumError::Other(m) && m@ == busy_message(run_id),
{
    let mut m = String::new();
    push_str(&mut m, "已有同步任务进行中（run #");
    crate::text::push_signed(&mut m, run_id);
    push_str(&mut m, "）");
    assert(m@ =~= busy_message(run_id));
    AlbumError::Other(m)
}

} // verus!
