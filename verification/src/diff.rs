//! Remote listing versus local index: which files to download, re-download or retire.

use vstd::prelude::*;
use vstd::hash_map::StringHashMap;

verus! {

/// One file, either as listed on the phone or as recorded in the local index.
#[derive(Debug)]
pub struct FileEntry {
    pub rel_path: String,
    pub size: u64,
    pub mtime: i64,
}

impl View for FileEntry {
    type V = (Seq<char>, u64, i64);

    open spec fn view(&self) -> (Seq<char>, u64, i64) {
        (self.rel_path@, self.size, self.mtime)
    }
}

impl Clone for FileEntry {
    fn clone(&self) -> (r: Self)
        ensures
            r == *self,
    {
        FileEntry { rel_path: self.rel_path.clone(), size: self.size, mtime: self.mtime }
    }
}

/// What has to happen to one path for the local copy to mirror the phone.
#[derive(Debug)]
pub enum DiffItem {
    /// On the phone, not in the local index: download it.
    Add(FileEntry),
    /// In both, but size or modification time differ: download it again.
    Update(FileEntry),
    /// In the local index, gone from the phone: move the local copy to the trash.
    DeleteLocal { rel_path: String, size: u64 },
}

impl Clone for DiffItem {
    fn clone(&self) -> (r: Self)
        ensures
            r == *self,
    {
        match self {
            DiffItem::Add(e) => DiffItem::Add(e.clone()),
            DiffItem::Update(e) => DiffItem::Update(e.clone()),
            DiffItem::DeleteLocal { rel_path, size } => DiffItem::DeleteLocal {
                rel_path: rel_path.clone(),
                size: *size,
            },
        }
    }
}

/// Some entry of `s` has path `p`.
pub open spec fn path_in(s: Seq<FileEntry>, p: Seq<char>) -> bool {
    exists|j: int| 0 <= j < s.len() && (#[trigger] s[j]).rel_path@ == p
}

/// No entry before `i` has the path of `s[i]`.
pub open spec fn first_of_path(s: Seq<FileEntry>, i: int) -> bool {
    forall|j: int| 0 <= j < i ==> (#[trigger] s[j]).rel_path@ != s[i].rel_path@
}

/// No entry after `i` has the path of `s[i]`.
pub open spec fn last_of_path(s: Seq<FileEntry>, i: int) -> bool {
    forall|j: int| i < j < s.len() ==> (#[trigger] s[j]).rel_path@ != s[i].rel_path@
}

/// The last entry of `s` with path `p`, if any (a later entry for a path shadows an earlier one).
pub open spec fn latest_with_path(s: Seq<FileEntry>, p: Seq<char>) -> Option<FileEntry>
    decreases s.len(),
{
    if s.len() == 0 {
        None
    } else if s.last().rel_path@ == p {
        Some(s.last())
    } else {
        latest_with_path(s.drop_last(), p)
    }
}

/// Sizes differ, or modification times differ by more than one second.
pub open spec fn differs(l: FileEntry, r: FileEntry) -> bool {
    l.size != r.size || l.mtime - r.mtime > 1 || r.mtime - l.mtime > 1
}

/// The item, if any, that the remote entry `remote[i]` yields: the first remote entry for a
/// path known locally is compared with the local entry; every other remote entry is new.
pub open spec fn remote_item(local: Seq<FileEntry>, remote: Seq<FileEntry>, i: int) -> Option<DiffItem> {
    let r = remote[i];
    if first_of_path(remote, i) && latest_with_path(local, r.rel_path@) is Some {
        if differs(latest_with_path(local, r.rel_path@)->0, r) {
            Some(DiffItem::Update(r))
        } else {
            None
        }
    } else {
        Some(DiffItem::Add(r))
    }
}

/// The item, if any, that the local entry `local[k]` yields: a path that the phone no longer
/// has is retired once, with the size of its last local entry.
pub open spec fn delete_item(local: Seq<FileEntry>, remote: Seq<FileEntry>, k: int) -> Option<DiffItem> {
    if last_of_path(local, k) && !path_in(remote, local[k].rel_path@) {
        Some(DiffItem::DeleteLocal { rel_path: local[k].rel_path, size: local[k].size })
    } else {
        None
    }
}

pub open spec fn opt_seq(o: Option<DiffItem>) -> Seq<DiffItem> {
    match o {
        Some(d) => seq![d],
        None => Seq::empty(),
    }
}

/// Items of the first `n` remote entries, in remote order.
pub open spec fn remote_items(local: Seq<FileEntry>, remote: Seq<FileEntry>, n: int) -> Seq<DiffItem>
    decreases n,
{
    if n <= 0 {
        Seq::empty()
    } else {
        remote_items(local, remote, n - 1) + opt_seq(remote_item(local, remote, n - 1))
    }
}

/// Items of the first `n` local entries, in local order.
pub open spec fn delete_items(local: Seq<FileEntry>, remote: Seq<FileEntry>, n: int) -> Seq<DiffItem>
    decreases n,
{
    if n <= 0 {
        Seq::empty()
    } else {
        delete_items(local, remote, n - 1) + opt_seq(delete_item(local, remote, n - 1))
    }
}

/// The whole diff: additions and updates in remote order, then retirements in local order.
pub open spec fn diff_spec(local: Seq<FileEntry>, remote: Seq<FileEntry>) -> Seq<DiffItem> {
    remote_items(local, remote, remote.len() as int) + delete_items(local, remote, local.len() as int)
}

pub proof fn lemma_latest_is_last(s: Seq<FileEntry>, p: Seq<char>, k: int)
    requires
        0 <= k < s.len(),
        s[k].rel_path@ == p,
        last_of_path(s, k),
    ensures
        latest_with_path(s, p) == Some(s[k]),
    decreases s.len(),
{
    if k < s.len() - 1 {
        assert(s.last() == s[s.len() - 1]);
        assert(s.drop_last()[k] == s[k]);
        assert forall|j: int| k < j < s.drop_last().len() implies
            (#[trigger] s.drop_last()[j]).rel_path@ != s.drop_last()[k].rel_path@ by {
            assert(s.drop_last()[j] == s[j]);
        }
        lemma_latest_is_last(s.drop_last(), p, k);
    }
}

pub proof fn lemma_latest_absent(s: Seq<FileEntry>, p: Seq<char>)
    requires
        !path_in(s, p),
    ensures
        latest_with_path(s, p) is None,
    decreases s.len(),
{
    if s.len() > 0 {
        assert(s.last() == s[s.len() - 1]);
        assert(!path_in(s.drop_last(), p)) by {
            if path_in(s.drop_last(), p) {
                let j = choose|j: int| 0 <= j < s.drop_last().len() && (#[trigger] s.drop_last()[j]).rel_path@ == p;
                assert(s[j] == s.drop_last()[j]);
            }
        }
        lemma_latest_absent(s.drop_last(), p);
    }
}

/// Computes what has to change locally so that the backup mirrors the phone.
///
/// A remote entry whose path the local index lacks is an `Add`; one whose path it has is an
/// `Update` when the sizes differ or the modification times differ by more than one second,
/// and nothing otherwise. Local paths that the phone no longer lists come last, one
/// `DeleteLocal` each.
pub fn compute_diff(local: &[FileEntry], remote: &[FileEntry]) -> (out: Vec<DiffItem>)
    ensures
        out@ == diff_spec(local@, remote@),
{
    let mut index: StringHashMap<usize> = StringHashMap::new();
    let n = local.len();
    for k in 0..n
        invariant
            n == local@.len(),
            forall|p: Seq<char>| #[trigger] index@.contains_key(p) ==> {
                &&& index@[p] < k
                &&& local@[index@[p] as int].rel_path@ == p
                &&& forall|j: int| index@[p] < j < k ==> (#[trigger] local@[j]).rel_path@ != p
            },
            forall|j: int| 0 <= j < k ==> index@.contains_key((#[trigger] local@[j]).rel_path@),
    {
        index.insert(local[k].rel_path.clone(), k);
    }
    let ghost last = index@;
    assert forall|p: Seq<char>| #[trigger] last.contains_key(p) implies last_of_path(local@, last[p] as int)
        && local@[last[p] as int].rel_path@ == p && last[p] < n by {
        assert forall|j: int| last[p] < j < local@.len() implies (#[trigger] local@[j]).rel_path@
            != local@[last[p] as int].rel_path@ by {}
    }
    assert forall|p: Seq<char>| #[trigger] last.contains_key(p) implies latest_with_path(local@, p)
        == Some(local@[last[p] as int]) by {
        lemma_latest_is_last(local@, p, last[p] as int);
    }
    assert forall|p: Seq<char>| !(#[trigger] last.contains_key(p)) implies latest_with_path(local@, p) is None by {
        assert(!path_in(local@, p));
        lemma_latest_absent(local@, p);
    }

    let mut out: Vec<DiffItem> = Vec::new();
    let m = remote.len();
    for i in 0..m
        invariant
            m == remote@.len(),
            n == local@.len(),
            forall|p: Seq<char>| #[trigger] last.contains_key(p) ==> latest_with_path(local@, p)
                == Some(local@[last[p] as int]) && last[p] < n,
            forall|p: Seq<char>| !(#[trigger] last.contains_key(p)) ==> latest_with_path(local@, p) is None,
            forall|p: Seq<char>| #[trigger] index@.contains_key(p) <==> (last.contains_key(p)
                && !path_in(remote@.take(i as int), p)),
            forall|p: Seq<char>| #[trigger] index@.contains_key(p) ==> index@[p] == last[p],
            out@ == remote_items(local@, remote@, i as int),
    {
        let r = &remote[i];
        let ghost p = r.rel_path@;
        let ghost before = index@;
        assert(first_of_path(remote@, i as int) == !path_in(remote@.take(i as int), p)) by {
            if path_in(remote@.take(i as int), p) {
                let j = choose|j: int| 0 <= j < i && (#[trigger] remote@.take(i as int)[j]).rel_path@ == p;
                assert(remote@[j] == remote@.take(i as int)[j]);
            }
            if !first_of_path(remote@, i as int) {
                let j = choose|j: int| 0 <= j < i && (#[trigger] remote@[j]).rel_path@ == p;
                assert(remote@.take(i as int)[j] == remote@[j]);
            }
        }
        match index.get(r.rel_path.as_str()) {
            Some(kref) => {
                let k = *kref;
                index.remove(r.rel_path.as_str());
                let l = &local[k];
                let changed = l.size != r.size || (l.mtime as i128) - (r.mtime as i128) > 1
                    || (r.mtime as i128) - (l.mtime as i128) > 1;
                if changed {
                    out.push(DiffItem::Update(r.clone()));
                }
            },
            None => {
                out.push(DiffItem::Add(r.clone()));
            },
        }
        proof {
            assert(remote@.take(i + 1) == remote@.take(i as int).push(remote@[i as int]));
            assert forall|q: Seq<char>| #[trigger] index@.contains_key(q) <==> (last.contains_key(q)
                && !path_in(remote@.take(i + 1), q)) by {
                if path_in(remote@.take(i + 1), q) && q != p {
                    let j = choose|j: int| 0 <= j < i + 1 && (#[trigger] remote@.take(i + 1)[j]).rel_path@ == q;
                    assert(remote@.take(i as int)[j] == remote@.take(i + 1)[j]);
                }
                if path_in(remote@.take(i as int), q) {
                    let j = choose|j: int| 0 <= j < i && (#[trigger] remote@.take(i as int)[j]).rel_path@ == q;
                    assert(remote@.take(i + 1)[j] == remote@.take(i as int)[j]);
                }
                assert(remote@.take(i + 1)[i as int].rel_path@ == p);
            }
        }
    }
    let ghost remaining = index@;
    assert(remote@.take(m as int) =~= remote@);

    for k in 0..n
        invariant
            n == local@.len(),
            m == remote@.len(),
            index@ == remaining,
            forall|p: Seq<char>| #[trigger] remaining.contains_key(p) <==> (last.contains_key(p)
                && !path_in(remote@, p)),
            forall|p: Seq<char>| #[trigger] remaining.contains_key(p) ==> remaining[p] == last[p],
            forall|p: Seq<char>| #[trigger] last.contains_key(p) ==> latest_with_path(local@, p)
                == Some(local@[last[p] as int]) && last[p] < n,
            forall|p: Seq<char>| !(#[trigger] last.contains_key(p)) ==> latest_with_path(local@, p) is None,
            forall|p: Seq<char>| #[trigger] last.contains_key(p) ==> last_of_path(local@, last[p] as int)
                && local@[last[p] as int].rel_path@ == p,
            out@ == remote_items(local@, remote@, m as int) + delete_items(local@, remote@, k as int),
    {
        let e = &local[k];
        let ghost p = e.rel_path@;
        proof {
            assert(last.contains_key(p)) by {
                if !last.contains_key(p) {
                    lemma_latest_present(local@, p, k as int);
                }
            }
            assert(last_of_path(local@, k as int) == (last[p] == k)) by {
                if last_of_path(local@, k as int) {
                    lemma_latest_unique_index(local@, p, k as int, last[p] as int);
                }
            }
        }
        match index.get(e.rel_path.as_str()) {
            Some(vref) => {
                if *vref == k {
                    out.push(DiffItem::DeleteLocal { rel_path: e.rel_path.clone(), size: e.size });
                }
            },
            None => {},
        }
    }
    out
}

proof fn lemma_latest_present(s: Seq<FileEntry>, p: Seq<char>, k: int)
    requires
        0 <= k < s.len(),
        s[k].rel_path@ == p,
    ensures
        latest_with_path(s, p) is Some,
    decreases s.len(),
{
    if s.last().rel_path@ != p {
        assert(k < s.len() - 1);
        assert(s.drop_last()[k] == s[k]);
        lemma_latest_present(s.drop_last(), p, k);
    }
}

/// If `latest_with_path(s, p) == Some(s[k])` for the last index `k` of `p`, and `j` is the
/// index some other fact names with `s[j] == s[k]` as well as being last, then `j == k`.
proof fn lemma_latest_unique_index(s: Seq<FileEntry>, p: Seq<char>, k: int, j: int)
    requires
        0 <= k < s.len(),
        0 <= j < s.len(),
        s[k].rel_path@ == p,
        s[j].rel_path@ == p,
        last_of_path(s, k),
        last_of_path(s, j),
    ensures
        j == k,
{
    if j < k {
        assert(s[k].rel_path@ != p);
    } else if k < j {
        assert(s[j].rel_path@ != s[k].rel_path@);
    }
}

} // verus!

verus! {

/// No two entries share a path.
pub open spec fn distinct_paths(s: Seq<FileEntry>) -> bool {
    forall|i: int, j: int| 0 <= i < j < s.len() ==> (#[trigger] s[i]).rel_path@ != (#[trigger] s[j]).rel_path@
}

/// The index that a listing describes: each path mapped to its last entry.
pub open spec fn index_of(s: Seq<FileEntry>) -> Map<Seq<char>, FileEntry> {
    Map::new(|p: Seq<char>| path_in(s, p), |p: Seq<char>| latest_with_path(s, p)->0)
}

/// The local index after one item has been carried out.
pub open spec fn apply_item(m: Map<Seq<char>, FileEntry>, d: DiffItem) -> Map<Seq<char>, FileEntry> {
    match d {
        DiffItem::Add(e) => m.insert(e.rel_path@, e),
        DiffItem::Update(e) => m.insert(e.rel_path@, e),
        DiffItem::DeleteLocal { rel_path, size } => m.remove(rel_path@),
    }
}

/// The local index after all items have been carried out, in order.
pub open spec fn apply_diff(m: Map<Seq<char>, FileEntry>, d: Seq<DiffItem>) -> Map<Seq<char>, FileEntry>
    decreases d.len(),
{
    if d.len() == 0 {
        m
    } else {
        apply_item(apply_diff(m, d.drop_last()), d.last())
    }
}

proof fn lemma_apply_concat(m: Map<Seq<char>, FileEntry>, a: Seq<DiffItem>, b: Seq<DiffItem>)
    ensures
        apply_diff(m, a + b) == apply_diff(apply_diff(m, a), b),
    decreases b.len(),
{
    if b.len() == 0 {
        assert(a + b =~= a);
    } else {
        assert((a + b).drop_last() =~= a + b.drop_last());
        assert((a + b).last() == b.last());
        lemma_apply_concat(m, a, b.drop_last());
    }
}

proof fn lemma_apply_single(m: Map<Seq<char>, FileEntry>, d: DiffItem)
    ensures
        apply_diff(m, seq![d]) == apply_item(m, d),
{
    assert(seq![d].drop_last() =~= Seq::<DiffItem>::empty());
    assert(apply_diff(m, seq![d].drop_last()) == m);
}

proof fn lemma_latest_entry_has_path(s: Seq<FileEntry>, p: Seq<char>)
    ensures
        path_in(s, p) <==> latest_with_path(s, p) is Some,
        latest_with_path(s, p) is Some ==> latest_with_path(s, p)->0.rel_path@ == p,
        latest_with_path(s, p) is Some ==> exists|k: int| 0 <= k < s.len() && last_of_path(s, k)
            && #[trigger] s[k] == latest_with_path(s, p)->0,
    decreases s.len(),
{
    if s.len() > 0 {
        let t = s.drop_last();
        lemma_latest_entry_has_path(t, p);
        assert(s.last() == s[s.len() - 1]);
        if s.last().rel_path@ == p {
            let k = s.len() - 1;
            assert(last_of_path(s, k));
            assert(s[k] == latest_with_path(s, p)->0);
        } else {
            if path_in(s, p) {
                let j = choose|j: int| 0 <= j < s.len() && (#[trigger] s[j]).rel_path@ == p;
                assert(t[j] == s[j]);
            }
            if path_in(t, p) {
                let j = choose|j: int| 0 <= j < t.len() && (#[trigger] t[j]).rel_path@ == p;
                assert(t[j] == s[j]);
            }
            if latest_with_path(s, p) is Some {
                let k = choose|k: int| 0 <= k < t.len() && last_of_path(t, k)
                    && #[trigger] t[k] == latest_with_path(t, p)->0;
                assert(t[k] == s[k]);
                assert forall|j: int| k < j < s.len() implies (#[trigger] s[j]).rel_path@ != s[k].rel_path@ by {
                    if j < t.len() {
                        assert(t[j] == s[j]);
                    }
                }
                assert(last_of_path(s, k));
            }
        }
    }
}

proof fn lemma_take_step(s: Seq<FileEntry>, n: int, q: Seq<char>)
    requires
        0 <= n < s.len(),
    ensures
        path_in(s.take(n + 1), q) <==> (path_in(s.take(n), q) || s[n].rel_path@ == q),
        s[n].rel_path@ != q ==> latest_with_path(s.take(n + 1), q) == latest_with_path(s.take(n), q),
        s[n].rel_path@ == q ==> latest_with_path(s.take(n + 1), q) == Some(s[n]),
{
    let a = s.take(n);
    let b = s.take(n + 1);
    assert(b.drop_last() =~= a);
    assert(b.last() == s[n]);
    if path_in(b, q) && s[n].rel_path@ != q {
        let j = choose|j: int| 0 <= j < b.len() && (#[trigger] b[j]).rel_path@ == q;
        assert(a[j] == b[j]);
    }
    if path_in(a, q) {
        let j = choose|j: int| 0 <= j < a.len() && (#[trigger] a[j]).rel_path@ == q;
        assert(a[j] == b[j]);
    }
    if s[n].rel_path@ == q {
        assert(b[n] == s[n]);
    }
}

pub open spec fn after_remote(local: Seq<FileEntry>, remote: Seq<FileEntry>, n: int) -> Map<Seq<char>, FileEntry> {
    apply_diff(index_of(local), remote_items(local, remote, n))
}

pub open spec fn after_deletes(
    m: Map<Seq<char>, FileEntry>,
    local: Seq<FileEntry>,
    remote: Seq<FileEntry>,
    n: int,
) -> Map<Seq<char>, FileEntry> {
    apply_diff(m, delete_items(local, remote, n))
}

/// The local index once the whole diff has been carried out on it.
pub open spec fn mirrored(local: Seq<FileEntry>, remote: Seq<FileEntry>) -> Map<Seq<char>, FileEntry> {
    apply_diff(index_of(local), diff_spec(local, remote))
}

/// After the additions and updates of the first `n` remote entries, every path among them
/// holds an entry that matches the latest of them, and every other path is as the local
/// index had it.
proof fn lemma_remote_phase(local: Seq<FileEntry>, remote: Seq<FileEntry>, n: int)
    requires
        0 <= n <= remote.len(),
    ensures
        forall|p: Seq<char>| #[trigger] path_in(remote.take(n), p) ==> {
            &&& after_remote(local, remote, n).contains_key(p)
            &&& after_remote(local, remote, n)[p].rel_path@ == p
            &&& !differs(after_remote(local, remote, n)[p], latest_with_path(remote.take(n), p)->0)
        },
        forall|p: Seq<char>| !path_in(remote.take(n), p) ==> {
            &&& (#[trigger] after_remote(local, remote, n).contains_key(p)) == path_in(local, p)
            &&& after_remote(local, remote, n).contains_key(p) ==> after_remote(local, remote, n)[p]
                == latest_with_path(local, p)->0
        },
    decreases n,
{
    let m0 = index_of(local);
    if n == 0 {
        assert forall|p: Seq<char>| !path_in(remote.take(0), p) implies {
            &&& (#[trigger] after_remote(local, remote, 0).contains_key(p)) == path_in(local, p)
            &&& after_remote(local, remote, 0).contains_key(p) ==> after_remote(local, remote, 0)[p]
                == latest_with_path(local, p)->0
        } by {
            assert(remote_items(local, remote, 0).len() == 0);
        }
        assert forall|p: Seq<char>| #[trigger] path_in(remote.take(0), p) implies false by {
            let j = choose|j: int| 0 <= j < remote.take(0).len() && (#[trigger] remote.take(0)[j]).rel_path@ == p;
        }
    } else {
        let k = n - 1;
        lemma_remote_phase(local, remote, k);
        let prev = after_remote(local, remote, k);
        let item = remote_item(local, remote, k);
        lemma_apply_concat(m0, remote_items(local, remote, k), opt_seq(item));
        let cur = after_remote(local, remote, n);
        let r = remote[k];
        let p0 = r.rel_path@;
        assert(cur == apply_diff(prev, opt_seq(item)));
        match item {
            Some(d) => {
                lemma_apply_single(prev, d);
                assert(opt_seq(item) == seq![d]);
            },
            None => {
                assert(cur == prev);
            },
        }
        assert(first_of_path(remote, k) == !path_in(remote.take(k), p0)) by {
            if path_in(remote.take(k), p0) {
                let j = choose|j: int| 0 <= j < k && (#[trigger] remote.take(k)[j]).rel_path@ == p0;
                assert(remote[j] == remote.take(k)[j]);
            }
            if !first_of_path(remote, k) {
                let j = choose|j: int| 0 <= j < k && (#[trigger] remote[j]).rel_path@ == p0;
                assert(remote.take(k)[j] == remote[j]);
            }
        }
        lemma_latest_entry_has_path(local, p0);
        lemma_take_step(remote, k, p0);
        let changes = remote_item(local, remote, k) is Some;
        if changes {
            assert(cur == prev.insert(p0, r));
        } else {
            assert(cur == prev);
            assert(!path_in(remote.take(k), p0));
            assert(prev.contains_key(p0));
            assert(prev[p0] == latest_with_path(local, p0)->0);
        }
        assert forall|p: Seq<char>| #[trigger] path_in(remote.take(n), p) implies {
            &&& cur.contains_key(p)
            &&& cur[p].rel_path@ == p
            &&& !differs(cur[p], latest_with_path(remote.take(n), p)->0)
        } by {
            lemma_take_step(remote, k, p);
            if p != p0 {
                assert(path_in(remote.take(k), p));
                assert(cur[p] == prev[p]);
            }
        }
        assert forall|p: Seq<char>| !path_in(remote.take(n), p) implies {
            &&& (#[trigger] cur.contains_key(p)) == path_in(local, p)
            &&& cur.contains_key(p) ==> cur[p] == latest_with_path(local, p)->0
        } by {
            lemma_take_step(remote, k, p);
            assert(p != p0);
            assert(!path_in(remote.take(k), p));
        }
    }
}

/// After retiring the first `n` local entries, a path is gone exactly when one of them
/// retired it; what stays keeps its entry.
proof fn lemma_delete_phase(
    m: Map<Seq<char>, FileEntry>,
    local: Seq<FileEntry>,
    remote: Seq<FileEntry>,
    n: int,
)
    requires
        0 <= n <= local.len(),
    ensures
        forall|p: Seq<char>| {
            &&& (#[trigger] after_deletes(m, local, remote, n).contains_key(p)) == (m.contains_key(p)
                && !(exists|k: int| 0 <= k < n && last_of_path(local, k) && !path_in(remote, p)
                    && (#[trigger] local[k]).rel_path@ == p))
            &&& after_deletes(m, local, remote, n).contains_key(p) ==> after_deletes(m, local, remote, n)[p] == m[p]
        },
    decreases n,
{
    if n > 0 {
        let k = n - 1;
        lemma_delete_phase(m, local, remote, k);
        let item = delete_item(local, remote, k);
        lemma_apply_concat(m, delete_items(local, remote, k), opt_seq(item));
        let prev = after_deletes(m, local, remote, k);
        let cur = after_deletes(m, local, remote, n);
        match item {
            Some(d) => {
                lemma_apply_single(prev, d);
                assert(opt_seq(item) == seq![d]);
            },
            None => {
                assert(cur == prev);
            },
        }
        assert forall|p: Seq<char>| {
            &&& (#[trigger] cur.contains_key(p)) == (m.contains_key(p) && !(exists|j: int|
                0 <= j < n && last_of_path(local, j) && !path_in(remote, p)
                    && (#[trigger] local[j]).rel_path@ == p))
            &&& cur.contains_key(p) ==> cur[p] == m[p]
        } by {
            if exists|j: int| 0 <= j < n && last_of_path(local, j) && !path_in(remote, p)
                && (#[trigger] local[j]).rel_path@ == p {
                let j = choose|j: int| 0 <= j < n && last_of_path(local, j) && !path_in(remote, p)
                    && (#[trigger] local[j]).rel_path@ == p;
                if j < k {
                    assert(exists|i: int| 0 <= i < k && last_of_path(local, i) && !path_in(remote, p)
                        && (#[trigger] local[i]).rel_path@ == p);
                }
            }
            if exists|i: int| 0 <= i < k && last_of_path(local, i) && !path_in(remote, p)
                && (#[trigger] local[i]).rel_path@ == p {
                let i = choose|i: int| 0 <= i < k && last_of_path(local, i) && !path_in(remote, p)
                    && (#[trigger] local[i]).rel_path@ == p;
                assert(0 <= i < n && last_of_path(local, i) && !path_in(remote, p) && local[i].rel_path@ == p);
            }
        }
    }
}

/// Carrying out the diff turns the local index into the phone's listing: afterwards exactly
/// the phone's paths are present, each with an entry of the same path and size whose
/// modification time is within one second of the phone's.
pub proof fn law_diff_mirrors_remote(local: Seq<FileEntry>, remote: Seq<FileEntry>)
    ensures
        forall|p: Seq<char>| {
            &&& (#[trigger] mirrored(local, remote).contains_key(p)) == path_in(remote, p)
            &&& mirrored(local, remote).contains_key(p) ==> mirrored(local, remote)[p].rel_path@ == p
                && !differs(mirrored(local, remote)[p], index_of(remote)[p])
        },
{
    let rn = remote.len() as int;
    let ln = local.len() as int;
    lemma_remote_phase(local, remote, rn);
    assert(remote.take(rn) =~= remote);
    let mid = after_remote(local, remote, rn);
    lemma_apply_concat(index_of(local), remote_items(local, remote, rn), delete_items(local, remote, ln));
    lemma_delete_phase(mid, local, remote, ln);
    let after = mirrored(local, remote);
    assert(after == after_deletes(mid, local, remote, ln));
    assert forall|p: Seq<char>| {
        &&& (#[trigger] after.contains_key(p)) == path_in(remote, p)
        &&& after.contains_key(p) ==> after[p].rel_path@ == p && !differs(after[p], index_of(remote)[p])
    } by {
        lemma_latest_entry_has_path(local, p);
        if path_in(remote, p) {
            assert(path_in(remote.take(rn), p));
            assert(mid.contains_key(p));
            assert(!(exists|k: int| 0 <= k < ln && last_of_path(local, k) && !path_in(remote, p)
                && (#[trigger] local[k]).rel_path@ == p));
            assert(after_deletes(mid, local, remote, ln).contains_key(p));
            assert(after[p] == mid[p]);
        } else {
            assert(!path_in(remote.take(rn), p));
            assert(mid.contains_key(p) == path_in(local, p));
            if path_in(local, p) {
                let k = choose|k: int| 0 <= k < local.len() && last_of_path(local, k)
                    && #[trigger] local[k] == latest_with_path(local, p)->0;
                assert(local[k].rel_path@ == p);
                assert(exists|k: int| 0 <= k < ln && last_of_path(local, k) && !path_in(remote, p)
                    && (#[trigger] local[k]).rel_path@ == p);
            }
            assert(!after_deletes(mid, local, remote, ln).contains_key(p));
        }
    }
}

/// Two listings that already agree (same paths, each pair of entries with the same size and
/// modification times within a second) give an empty diff.
pub proof fn law_in_step_listings_no_diff(local: Seq<FileEntry>, remote: Seq<FileEntry>)
    requires
        distinct_paths(local),
        distinct_paths(remote),
        forall|p: Seq<char>| path_in(local, p) <==> path_in(remote, p),
        forall|i: int, j: int| 0 <= i < local.len() && 0 <= j < remote.len()
            && (#[trigger] local[i]).rel_path@ == (#[trigger] remote[j]).rel_path@
            ==> !differs(local[i], remote[j]),
    ensures
        diff_spec(local, remote) == Seq::<DiffItem>::empty(),
{
    assert forall|n: int| 0 <= n <= remote.len() implies #[trigger] remote_items(local, remote, n)
        == Seq::<DiffItem>::empty() by {
        lemma_no_remote_items(local, remote, n);
    }
    assert forall|n: int| 0 <= n <= local.len() implies #[trigger] delete_items(local, remote, n)
        == Seq::<DiffItem>::empty() by {
        lemma_no_delete_items(local, remote, n);
    }
    assert(diff_spec(local, remote) =~= Seq::<DiffItem>::empty());
}

proof fn lemma_no_remote_items(local: Seq<FileEntry>, remote: Seq<FileEntry>, n: int)
    requires
        0 <= n <= remote.len(),
        distinct_paths(local),
        distinct_paths(remote),
        forall|p: Seq<char>| path_in(local, p) <==> path_in(remote, p),
        forall|i: int, j: int| 0 <= i < local.len() && 0 <= j < remote.len()
            && (#[trigger] local[i]).rel_path@ == (#[trigger] remote[j]).rel_path@
            ==> !differs(local[i], remote[j]),
    ensures
        remote_items(local, remote, n) == Seq::<DiffItem>::empty(),
    decreases n,
{
    if n > 0 {
        let k = n - 1;
        lemma_no_remote_items(local, remote, k);
        let r = remote[k];
        let p = r.rel_path@;
        assert(path_in(remote, p));
        assert(path_in(local, p));
        let i = choose|i: int| 0 <= i < local.len() && (#[trigger] local[i]).rel_path@ == p;
        assert(last_of_path(local, i));
        lemma_latest_is_last(local, p, i);
        assert(first_of_path(remote, k));
        assert(remote_item(local, remote, k) is None);
        assert(remote_items(local, remote, n) =~= Seq::<DiffItem>::empty());
    }
}

proof fn lemma_no_delete_items(local: Seq<FileEntry>, remote: Seq<FileEntry>, n: int)
    requires
        0 <= n <= local.len(),
        forall|p: Seq<char>| path_in(local, p) <==> path_in(remote, p),
    ensures
        delete_items(local, remote, n) == Seq::<DiffItem>::empty(),
    decreases n,
{
    if n > 0 {
        let k = n - 1;
        lemma_no_delete_items(local, remote, k);
        assert(path_in(local, local[k].rel_path@));
        assert(delete_item(local, remote, k) is None);
        assert(delete_items(local, remote, n) =~= Seq::<DiffItem>::empty());
    }
}

} // verus!

verus! {

/// A sync converges: once the local index holds what carrying out the diff produced (one
/// entry per path), diffing it against the same phone listing gives nothing to do.
pub proof fn law_synced_index_gives_empty_diff(local: Seq<FileEntry>, remote: Seq<FileEntry>, synced: Seq<FileEntry>)
    requires
        distinct_paths(remote),
        distinct_paths(synced),
        index_of(synced) == mirrored(local, remote),
    ensures
        diff_spec(synced, remote) == Seq::<DiffItem>::empty(),
{
    law_diff_mirrors_remote(local, remote);
    let m = mirrored(local, remote);
    assert forall|p: Seq<char>| path_in(synced, p) <==> path_in(remote, p) by {
        assert(index_of(synced).contains_key(p) == path_in(synced, p));
        assert(m.contains_key(p) == path_in(remote, p));
    }
    assert forall|i: int, j: int| 0 <= i < synced.len() && 0 <= j < remote.len()
        && (#[trigger] synced[i]).rel_path@ == (#[trigger] remote[j]).rel_path@
        implies !differs(synced[i], remote[j]) by {
        let p = synced[i].rel_path@;
        assert(last_of_path(synced, i));
        assert(last_of_path(remote, j));
        lemma_latest_is_last(synced, p, i);
        lemma_latest_is_last(remote, p, j);
        assert(path_in(synced, p));
        assert(path_in(remote, p));
        assert(index_of(synced)[p] == synced[i]);
        assert(index_of(remote)[p] == remote[j]);
        assert(m.contains_key(p));
    }
    law_in_step_listings_no_diff(synced, remote);
}

/// `x` adds the path `p`.
pub open spec fn adds(x: DiffItem, p: Seq<char>) -> bool {
    match x {
        DiffItem::Add(e) => e.rel_path@ == p,
        _ => false,
    }
}

/// `x` updates the path `p`.
pub open spec fn updates(x: DiffItem, p: Seq<char>) -> bool {
    match x {
        DiffItem::Update(e) => e.rel_path@ == p,
        _ => false,
    }
}

/// `x` retires the path `p`.
pub open spec fn retires(x: DiffItem, p: Seq<char>) -> bool {
    match x {
        DiffItem::DeleteLocal { rel_path, .. } => rel_path@ == p,
        _ => false,
    }
}

/// Paths of the `Add` items of `d`.
pub open spec fn add_paths(d: Seq<DiffItem>) -> Set<Seq<char>> {
    Set::new(|p: Seq<char>| exists|j: int| 0 <= j < d.len() && #[trigger] adds(d[j], p))
}

/// Paths of the `Update` items of `d`.
pub open spec fn update_paths(d: Seq<DiffItem>) -> Set<Seq<char>> {
    Set::new(|p: Seq<char>| exists|j: int| 0 <= j < d.len() && #[trigger] updates(d[j], p))
}

/// Paths of the `DeleteLocal` items of `d`.
pub open spec fn delete_paths(d: Seq<DiffItem>) -> Set<Seq<char>> {
    Set::new(|p: Seq<char>| exists|j: int| 0 <= j < d.len() && #[trigger] retires(d[j], p))
}

proof fn lemma_remote_items_members(local: Seq<FileEntry>, remote: Seq<FileEntry>, n: int, x: DiffItem)
    requires
        0 <= n <= remote.len(),
    ensures
        remote_items(local, remote, n).contains(x) <==> exists|i: int| 0 <= i < n && remote_item(local, remote, i) == Some(x),
    decreases n,
{
    if n > 0 {
        lemma_remote_items_members(local, remote, n - 1, x);
        let a = remote_items(local, remote, n - 1);
        let b = opt_seq(remote_item(local, remote, n - 1));
        if (a + b).contains(x) {
            let k = choose|k: int| 0 <= k < (a + b).len() && (a + b)[k] == x;
            if k >= a.len() {
                assert(b[k - a.len()] == x);
                assert(remote_item(local, remote, n - 1) == Some(x));
            } else {
                assert(a[k] == x);
                assert(a.contains(x));
            }
        }
        if exists|i: int| 0 <= i < n && remote_item(local, remote, i) == Some(x) {
            let i = choose|i: int| 0 <= i < n && remote_item(local, remote, i) == Some(x);
            if i == n - 1 {
                assert((a + b)[a.len() as int] == x);
            } else {
                assert(a.contains(x));
                let k = choose|k: int| 0 <= k < a.len() && a[k] == x;
                assert((a + b)[k] == x);
            }
        }
    }
}

proof fn lemma_delete_items_members(local: Seq<FileEntry>, remote: Seq<FileEntry>, n: int, x: DiffItem)
    requires
        0 <= n <= local.len(),
    ensures
        delete_items(local, remote, n).contains(x) <==> exists|k: int| 0 <= k < n && delete_item(local, remote, k) == Some(x),
    decreases n,
{
    if n > 0 {
        lemma_delete_items_members(local, remote, n - 1, x);
        let a = delete_items(local, remote, n - 1);
        let b = opt_seq(delete_item(local, remote, n - 1));
        if (a + b).contains(x) {
            let k = choose|k: int| 0 <= k < (a + b).len() && (a + b)[k] == x;
            if k >= a.len() {
                assert(b[k - a.len()] == x);
                assert(delete_item(local, remote, n - 1) == Some(x));
            } else {
                assert(a[k] == x);
                assert(a.contains(x));
            }
        }
        if exists|k: int| 0 <= k < n && delete_item(local, remote, k) == Some(x) {
            let k0 = choose|k: int| 0 <= k < n && delete_item(local, remote, k) == Some(x);
            if k0 == n - 1 {
                assert((a + b)[a.len() as int] == x);
            } else {
                assert(a.contains(x));
                let k = choose|k: int| 0 <= k < a.len() && a[k] == x;
                assert((a + b)[k] == x);
            }
        }
    }
}

/// In a listing without repeated paths, the latest entry of a path is the one entry with it.
proof fn lemma_latest_distinct(s: Seq<FileEntry>, p: Seq<char>)
    requires
        distinct_paths(s),
    ensures
        path_in(s, p) ==> exists|k: int| 0 <= k < s.len() && s[k].rel_path@ == p && latest_with_path(s, p) == Some(#[trigger] s[k]),
        !path_in(s, p) ==> latest_with_path(s, p) is None,
{
    if path_in(s, p) {
        let k = choose|k: int| 0 <= k < s.len() && (#[trigger] s[k]).rel_path@ == p;
        assert(last_of_path(s, k)) by {
            assert forall|j: int| k < j < s.len() implies (#[trigger] s[j]).rel_path@ != s[k].rel_path@ by {
                assert(s[k].rel_path@ != s[j].rel_path@);
            }
        }
        lemma_latest_is_last(s, p, k);
    } else {
        lemma_latest_absent(s, p);
    }
}

/// What the diff of `local` against `remote` holds for the path `p`, when neither listing
/// repeats a path: `p` is added exactly when only the phone has it, retired exactly when
/// only the local index has it, and updated exactly when both have it and they differ.
proof fn lemma_diff_paths(local: Seq<FileEntry>, remote: Seq<FileEntry>, p: Seq<char>)
    requires
        distinct_paths(local),
        distinct_paths(remote),
    ensures
        add_paths(diff_spec(local, remote)).contains(p) <==> path_in(remote, p) && !path_in(local, p),
        delete_paths(diff_spec(local, remote)).contains(p) <==> path_in(local, p) && !path_in(remote, p),
        update_paths(diff_spec(local, remote)).contains(p) <==> path_in(remote, p) && path_in(local, p)
            && differs(latest_with_path(local, p)->0, latest_with_path(remote, p)->0),
{
    let rn = remote.len() as int;
    let ln = local.len() as int;
    let ri = remote_items(local, remote, rn);
    let di = delete_items(local, remote, ln);
    let d = diff_spec(local, remote);
    lemma_latest_distinct(local, p);
    lemma_latest_distinct(remote, p);
    assert forall|i: int| 0 <= i < rn implies first_of_path(remote, i) by {
        assert forall|j: int| 0 <= j < i implies (#[trigger] remote[j]).rel_path@ != remote[i].rel_path@ by {
            assert(remote[j].rel_path@ != remote[i].rel_path@);
        }
    }
    assert forall|k: int| 0 <= k < ln implies last_of_path(local, k) by {
        assert forall|j: int| k < j < ln implies (#[trigger] local[j]).rel_path@ != local[k].rel_path@ by {
            assert(local[k].rel_path@ != local[j].rel_path@);
        }
    }
    // Which items a position of the diff holds.
    assert forall|j: int| 0 <= j < d.len() implies (j < ri.len() ==> ri.contains(#[trigger] d[j]))
        && (j >= ri.len() ==> di.contains(d[j])) by {
        if j < ri.len() {
            assert(d[j] == ri[j]);
        } else {
            assert(d[j] == di[j - ri.len()]);
        }
    }
    // Adds.
    if add_paths(d).contains(p) {
        let j = choose|j: int| 0 <= j < d.len() && #[trigger] adds(d[j], p);
        let x = d[j];
        if j < ri.len() {
            lemma_remote_items_members(local, remote, rn, x);
            let i = choose|i: int| 0 <= i < rn && remote_item(local, remote, i) == Some(x);
            assert(remote[i].rel_path@ == p);
            assert(path_in(remote, p));
        } else {
            lemma_delete_items_members(local, remote, ln, x);
        }
    }
    if path_in(remote, p) && !path_in(local, p) {
        let i = choose|i: int| 0 <= i < rn && (#[trigger] remote[i]).rel_path@ == p;
        let x = DiffItem::Add(remote[i]);
        assert(remote_item(local, remote, i) == Some(x));
        lemma_remote_items_members(local, remote, rn, x);
        let k = choose|k: int| 0 <= k < ri.len() && ri[k] == x;
        assert(d[k] == x);
        assert(adds(d[k], p));
    }
    // Updates.
    if update_paths(d).contains(p) {
        let j = choose|j: int| 0 <= j < d.len() && #[trigger] updates(d[j], p);
        let x = d[j];
        if j < ri.len() {
            lemma_remote_items_members(local, remote, rn, x);
            let i = choose|i: int| 0 <= i < rn && remote_item(local, remote, i) == Some(x);
            assert(remote[i].rel_path@ == p);
            assert(path_in(remote, p));
            let k = choose|k: int| 0 <= k < rn && remote[k].rel_path@ == p && latest_with_path(remote, p) == Some(#[trigger] remote[k]);
            assert(k == i) by {
                if k != i {
                    if k < i {
                        assert(remote[k].rel_path@ != remote[i].rel_path@);
                    } else {
                        assert(remote[i].rel_path@ != remote[k].rel_path@);
                    }
                }
            }
        } else {
            lemma_delete_items_members(local, remote, ln, x);
        }
    }
    if path_in(remote, p) && path_in(local, p) && differs(latest_with_path(local, p)->0, latest_with_path(remote, p)->0) {
        let i = choose|i: int| 0 <= i < rn && remote[i].rel_path@ == p && latest_with_path(remote, p) == Some(#[trigger] remote[i]);
        let x = DiffItem::Update(remote[i]);
        assert(remote_item(local, remote, i) == Some(x));
        lemma_remote_items_members(local, remote, rn, x);
        let k = choose|k: int| 0 <= k < ri.len() && ri[k] == x;
        assert(d[k] == x);
        assert(updates(d[k], p));
    }
    // Retirements.
    if delete_paths(d).contains(p) {
        let j = choose|j: int| 0 <= j < d.len() && #[trigger] retires(d[j], p);
        let x = d[j];
        if j < ri.len() {
            lemma_remote_items_members(local, remote, rn, x);
            let i = choose|i: int| 0 <= i < rn && remote_item(local, remote, i) == Some(x);
        } else {
            lemma_delete_items_members(local, remote, ln, x);
            let k = choose|k: int| 0 <= k < ln && delete_item(local, remote, k) == Some(x);
            assert(local[k].rel_path@ == p);
            assert(path_in(local, p));
        }
    }
    if path_in(local, p) && !path_in(remote, p) {
        let k = choose|k: int| 0 <= k < ln && (#[trigger] local[k]).rel_path@ == p;
        let x = DiffItem::DeleteLocal { rel_path: local[k].rel_path, size: local[k].size };
        assert(delete_item(local, remote, k) == Some(x));
        lemma_delete_items_members(local, remote, ln, x);
        let m = choose|m: int| 0 <= m < di.len() && di[m] == x;
        assert(d[ri.len() + m] == x);
        assert(retires(d[ri.len() + m], p));
    }
}

/// Swapping the two listings (neither repeating a path) swaps additions and retirements and
/// keeps the updates: a path added when the phone is diffed against the index is retired
/// when the index is diffed against the phone, and the other way round; the updated paths
/// are the same both ways. So one diff is empty exactly when the other is.
pub proof fn law_diff_swap(local: Seq<FileEntry>, remote: Seq<FileEntry>)
    requires
        distinct_paths(local),
        distinct_paths(remote),
    ensures
        add_paths(diff_spec(local, remote)) == delete_paths(diff_spec(remote, local)),
        delete_paths(diff_spec(local, remote)) == add_paths(diff_spec(remote, local)),
        update_paths(diff_spec(local, remote)) == update_paths(diff_spec(remote, local)),
        (diff_spec(local, remote).len() == 0) == (diff_spec(remote, local).len() == 0),
{
    let d1 = diff_spec(local, remote);
    let d2 = diff_spec(remote, local);
    assert forall|p: Seq<char>| add_paths(d1).contains(p) == delete_paths(d2).contains(p) by {
        lemma_diff_paths(local, remote, p);
        lemma_diff_paths(remote, local, p);
    }
    assert forall|p: Seq<char>| delete_paths(d1).contains(p) == add_paths(d2).contains(p) by {
        lemma_diff_paths(local, remote, p);
        lemma_diff_paths(remote, local, p);
    }
    assert forall|p: Seq<char>| update_paths(d1).contains(p) == update_paths(d2).contains(p) by {
        lemma_diff_paths(local, remote, p);
        lemma_diff_paths(remote, local, p);
    }
    assert(add_paths(d1) =~= delete_paths(d2));
    assert(delete_paths(d1) =~= add_paths(d2));
    assert(update_paths(d1) =~= update_paths(d2));
    lemma_diff_empty_when_no_paths(local, remote);
    lemma_diff_empty_when_no_paths(remote, local);
}

/// A diff is empty exactly when it names no path as added, updated or retired.
proof fn lemma_diff_empty_when_no_paths(local: Seq<FileEntry>, remote: Seq<FileEntry>)
    ensures
        (diff_spec(local, remote).len() == 0) == (add_paths(diff_spec(local, remote)) =~= Set::empty()
            && update_paths(diff_spec(local, remote)) =~= Set::empty()
            && delete_paths(diff_spec(local, remote)) =~= Set::empty()),
{
    let d = diff_spec(local, remote);
    if d.len() > 0 {
        match d[0] {
            DiffItem::Add(e) => {
                assert(adds(d[0], e.rel_path@));
                assert(add_paths(d).contains(e.rel_path@));
            },
            DiffItem::Update(e) => {
                assert(updates(d[0], e.rel_path@));
                assert(update_paths(d).contains(e.rel_path@));
            },
            DiffItem::DeleteLocal { rel_path, .. } => {
                assert(retires(d[0], rel_path@));
                assert(delete_paths(d).contains(rel_path@));
            },
        }
    }
}

/// The path `p` is retired or updated by `d`: its local entry does not stay as it is.
pub open spec fn touched(d: Seq<DiffItem>, p: Seq<char>) -> bool {
    delete_paths(d).contains(p) || update_paths(d).contains(p)
}

/// The local entries that `d` leaves alone, in local order.
pub open spec fn kept(local: Seq<FileEntry>, d: Seq<DiffItem>) -> Seq<FileEntry>
    decreases local.len(),
{
    if local.len() == 0 {
        local
    } else {
        kept(local.drop_last(), d) + if touched(d, local.last().rel_path@) {
            Seq::<FileEntry>::empty()
        } else {
            seq![local.last()]
        }
    }
}

/// The phone's entries that the `Add` and `Update` items of `d` bring, in diff order.
pub open spec fn carried(d: Seq<DiffItem>) -> Seq<FileEntry>
    decreases d.len(),
{
    if d.len() == 0 {
        Seq::empty()
    } else {
        carried(d.drop_last()) + match d.last() {
            DiffItem::Add(e) => seq![e],
            DiffItem::Update(e) => seq![e],
            DiffItem::DeleteLocal { .. } => Seq::<FileEntry>::empty(),
        }
    }
}

/// The local listing after `d` is carried out: the entries it leaves alone, then the
/// entries it brings from the phone.
pub open spec fn applied(local: Seq<FileEntry>, d: Seq<DiffItem>) -> Seq<FileEntry> {
    kept(local, d) + carried(d)
}

proof fn lemma_kept_members(local: Seq<FileEntry>, d: Seq<DiffItem>, e: FileEntry)
    ensures
        kept(local, d).contains(e) <==> local.contains(e) && !touched(d, e.rel_path@),
    decreases local.len(),
{
    if local.len() > 0 {
        let rest = local.drop_last();
        lemma_kept_members(rest, d, e);
        let a = kept(rest, d);
        let b = if touched(d, local.last().rel_path@) {
            Seq::<FileEntry>::empty()
        } else {
            seq![local.last()]
        };
        if (a + b).contains(e) {
            let k = choose|k: int| 0 <= k < (a + b).len() && (a + b)[k] == e;
            if k < a.len() {
                assert(a[k] == e);
                assert(a.contains(e));
                let j = choose|j: int| 0 <= j < rest.len() && rest[j] == e;
                assert(local[j] == e);
            } else {
                assert(local[local.len() - 1] == e);
            }
        }
        if local.contains(e) && !touched(d, e.rel_path@) {
            let j = choose|j: int| 0 <= j < local.len() && local[j] == e;
            if j < local.len() - 1 {
                assert(rest[j] == e);
                assert(a.contains(e));
                let k = choose|k: int| 0 <= k < a.len() && a[k] == e;
                assert((a + b)[k] == e);
            } else {
                assert((a + b)[a.len() as int] == e);
            }
        }
    }
}

proof fn lemma_carried_members(d: Seq<DiffItem>, e: FileEntry)
    ensures
        carried(d).contains(e) <==> d.contains(DiffItem::Add(e)) || d.contains(DiffItem::Update(e)),
    decreases d.len(),
{
    if d.len() > 0 {
        let rest = d.drop_last();
        lemma_carried_members(rest, e);
        let a = carried(rest);
        let b = match d.last() {
            DiffItem::Add(x) => seq![x],
            DiffItem::Update(x) => seq![x],
            DiffItem::DeleteLocal { .. } => Seq::<FileEntry>::empty(),
        };
        assert(carried(d) == a + b);
        if (a + b).contains(e) {
            let k = choose|k: int| 0 <= k < (a + b).len() && (a + b)[k] == e;
            if k < a.len() {
                assert(a[k] == e);
                assert(a.contains(e));
                if rest.contains(DiffItem::Add(e)) {
                    let j = choose|j: int| 0 <= j < rest.len() && rest[j] == DiffItem::Add(e);
                    assert(d[j] == DiffItem::Add(e));
                } else {
                    let j = choose|j: int| 0 <= j < rest.len() && rest[j] == DiffItem::Update(e);
                    assert(d[j] == DiffItem::Update(e));
                }
            } else {
                assert(d[d.len() - 1] == d.last());
            }
        }
        if d.contains(DiffItem::Add(e)) || d.contains(DiffItem::Update(e)) {
            let x = if d.contains(DiffItem::Add(e)) {
                DiffItem::Add(e)
            } else {
                DiffItem::Update(e)
            };
            let j = choose|j: int| 0 <= j < d.len() && d[j] == x;
            if j < d.len() - 1 {
                assert(rest[j] == x);
                assert(rest.contains(x));
                assert(a.contains(e));
                let k = choose|k: int| 0 <= k < a.len() && a[k] == e;
                assert((a + b)[k] == e);
            } else {
                assert(d.last() == x);
                assert((a + b)[a.len() as int] == e);
            }
        }
    }
}

proof fn lemma_latest_member(s: Seq<FileEntry>, p: Seq<char>)
    ensures
        path_in(s, p) ==> latest_with_path(s, p) is Some,
        latest_with_path(s, p) matches Some(e) ==> s.contains(e) && e.rel_path@ == p,
    decreases s.len(),
{
    if s.len() > 0 {
        let rest = s.drop_last();
        lemma_latest_member(rest, p);
        if s.last().rel_path@ != p {
            if path_in(s, p) {
                let j = choose|j: int| 0 <= j < s.len() && (#[trigger] s[j]).rel_path@ == p;
                assert(j < s.len() - 1);
                assert(rest[j] == s[j]);
                assert(path_in(rest, p));
            }
            if latest_with_path(rest, p) is Some {
                let e = latest_with_path(rest, p)->0;
                let j = choose|j: int| 0 <= j < rest.len() && rest[j] == e;
                assert(s[j] == e);
            }
        } else {
            assert(s[s.len() - 1] == s.last());
        }
    }
}

/// The entries of a listing without repeated paths that have the path of `s[k]` are `s[k]`.
proof fn lemma_one_entry_per_path(s: Seq<FileEntry>, e: FileEntry, k: int)
    requires
        distinct_paths(s),
        0 <= k < s.len(),
        s.contains(e),
        e.rel_path@ == s[k].rel_path@,
    ensures
        e == s[k],
{
    let j = choose|j: int| 0 <= j < s.len() && s[j] == e;
    if j < k {
        assert(s[j].rel_path@ != s[k].rel_path@);
    } else if k < j {
        assert(s[k].rel_path@ != s[j].rel_path@);
    }
}

/// Carrying out the diff brings the local listing in line with the phone (neither listing
/// repeating a path): the entries that the diff leaves alone, together with the phone's
/// entries of the added and updated paths, diff against the phone to nothing.
pub proof fn law_applied_diff_leaves_nothing(local: Seq<FileEntry>, remote: Seq<FileEntry>)
    requires
        distinct_paths(local),
        distinct_paths(remote),
    ensures
        diff_spec(applied(local, diff_spec(local, remote)), remote) == Seq::<DiffItem>::empty(),
{
    let d = diff_spec(local, remote);
    let l2 = applied(local, d);
    let kp = kept(local, d);
    let cr = carried(d);
    let rn = remote.len() as int;
    let ln = local.len() as int;
    // Every entry of `l2` has a path of the phone and agrees with the phone's entry there.
    assert forall|e: FileEntry| #[trigger] l2.contains(e) implies (exists|j: int| 0 <= j < rn && remote[j].rel_path@ == e.rel_path@ && !differs(e, #[trigger] remote[j])) by {
        let p = e.rel_path@;
        lemma_diff_paths(local, remote, p);
        lemma_latest_distinct(local, p);
        lemma_latest_distinct(remote, p);
        let k = choose|k: int| 0 <= k < l2.len() && l2[k] == e;
        if k < kp.len() {
            assert(kp[k] == e);
            assert(kp.contains(e));
            lemma_kept_members(local, d, e);
            let i = choose|i: int| 0 <= i < ln && local[i] == e;
            assert(path_in(local, p));
            assert(path_in(remote, p));
            let li = choose|i: int| 0 <= i < ln && local[i].rel_path@ == p && latest_with_path(local, p) == Some(#[trigger] local[i]);
            lemma_one_entry_per_path(local, e, li);
            let j = choose|j: int| 0 <= j < rn && remote[j].rel_path@ == p && latest_with_path(remote, p) == Some(#[trigger] remote[j]);
            assert(!differs(e, remote[j]));
        } else {
            assert(cr[k - kp.len()] == e);
            assert(cr.contains(e));
            lemma_carried_members(d, e);
            let x = if d.contains(DiffItem::Add(e)) {
                DiffItem::Add(e)
            } else {
                DiffItem::Update(e)
            };
            let m = choose|m: int| 0 <= m < d.len() && d[m] == x;
            let ri = remote_items(local, remote, rn);
            let di = delete_items(local, remote, ln);
            if m < ri.len() {
                assert(ri[m] == x);
                lemma_remote_items_members(local, remote, rn, x);
                let i = choose|i: int| 0 <= i < rn && remote_item(local, remote, i) == Some(x);
                assert(remote[i] == e);
                assert(!differs(e, remote[i]));
            } else {
                assert(di[m - ri.len()] == x);
                lemma_delete_items_members(local, remote, ln, x);
            }
        }
    }
    // Every path of the phone has an entry in `l2`.
    assert forall|j: int| 0 <= j < rn implies path_in(l2, #[trigger] remote[j].rel_path@) by {
        let p = remote[j].rel_path@;
        lemma_diff_paths(local, remote, p);
        lemma_latest_distinct(local, p);
        lemma_latest_distinct(remote, p);
        assert(path_in(remote, p));
        let rj = choose|i: int| 0 <= i < rn && remote[i].rel_path@ == p && latest_with_path(remote, p) == Some(#[trigger] remote[i]);
        let e = if path_in(local, p) && !touched(d, p) {
            let li = choose|i: int| 0 <= i < ln && local[i].rel_path@ == p && latest_with_path(local, p) == Some(#[trigger] local[i]);
            local[li]
        } else {
            remote[rj]
        };
        if path_in(local, p) && !touched(d, p) {
            let li = choose|i: int| 0 <= i < ln && local[i].rel_path@ == p && latest_with_path(local, p) == Some(#[trigger] local[i]);
            assert(local.contains(local[li]));
            lemma_kept_members(local, d, e);
            let k = choose|k: int| 0 <= k < kp.len() && kp[k] == e;
            assert(l2[k] == e);
        } else {
            let x = if path_in(local, p) {
                DiffItem::Update(remote[rj])
            } else {
                DiffItem::Add(remote[rj])
            };
            assert(remote_item(local, remote, rj) == Some(x));
            lemma_remote_items_members(local, remote, rn, x);
            let ri = remote_items(local, remote, rn);
            let m = choose|m: int| 0 <= m < ri.len() && ri[m] == x;
            assert(d[m] == x);
            assert(d.contains(x));
            lemma_carried_members(d, e);
            let k = choose|k: int| 0 <= k < cr.len() && cr[k] == e;
            assert(l2[kp.len() + k] == e);
        }
        assert(l2.contains(e));
        let k = choose|k: int| 0 <= k < l2.len() && l2[k] == e;
        assert(l2[k].rel_path@ == p);
    }
    lemma_applied_no_remote_items(l2, remote, rn);
    lemma_applied_no_delete_items(l2, remote, l2.len() as int);
    assert(diff_spec(l2, remote) =~= Seq::<DiffItem>::empty());
}

proof fn lemma_applied_no_remote_items(l2: Seq<FileEntry>, remote: Seq<FileEntry>, n: int)
    requires
        0 <= n <= remote.len(),
        distinct_paths(remote),
        forall|e: FileEntry| #[trigger] l2.contains(e) ==> (exists|j: int| 0 <= j < remote.len() && remote[j].rel_path@ == e.rel_path@ && !differs(e, #[trigger] remote[j])),
        forall|j: int| 0 <= j < remote.len() ==> path_in(l2, #[trigger] remote[j].rel_path@),
    ensures
        remote_items(l2, remote, n) == Seq::<DiffItem>::empty(),
    decreases n,
{
    if n > 0 {
        let k = n - 1;
        lemma_applied_no_remote_items(l2, remote, k);
        let p = remote[k].rel_path@;
        assert(path_in(l2, p));
        lemma_latest_member(l2, p);
        let e = latest_with_path(l2, p)->0;
        let j = choose|j: int| 0 <= j < remote.len() && remote[j].rel_path@ == e.rel_path@ && !differs(e, #[trigger] remote[j]);
        lemma_one_entry_per_path(remote, remote[j], k);
        assert forall|i: int| 0 <= i < k implies (#[trigger] remote[i]).rel_path@ != remote[k].rel_path@ by {
            assert(remote[i].rel_path@ != remote[k].rel_path@);
        }
        assert(first_of_path(remote, k));
        assert(remote_item(l2, remote, k) is None);
        assert(remote_items(l2, remote, n) =~= Seq::<DiffItem>::empty());
    }
}

proof fn lemma_applied_no_delete_items(l2: Seq<FileEntry>, remote: Seq<FileEntry>, n: int)
    requires
        0 <= n <= l2.len(),
        forall|e: FileEntry| #[trigger] l2.contains(e) ==> (exists|j: int| 0 <= j < remote.len() && remote[j].rel_path@ == e.rel_path@ && !differs(e, #[trigger] remote[j])),
    ensures
        delete_items(l2, remote, n) == Seq::<DiffItem>::empty(),
    decreases n,
{
    if n > 0 {
        let k = n - 1;
        lemma_applied_no_delete_items(l2, remote, k);
        assert(l2.contains(l2[k]));
        let j = choose|j: int| 0 <= j < remote.len() && remote[j].rel_path@ == l2[k].rel_path@ && !differs(l2[k], #[trigger] remote[j]);
        assert(path_in(remote, l2[k].rel_path@));
        assert(delete_item(l2, remote, k) is None);
        assert(delete_items(l2, remote, n) =~= Seq::<DiffItem>::empty());
    }
}

} // verus!
