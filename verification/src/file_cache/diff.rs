//! Bringing the cache in step with a fresh scan: what is staged for the
//! durable table, and what becomes of the tree.

use crate::file_cache::cache::FileCache;
use crate::file_cache::db::batch_commit;
use crate::file_cache::db::encoded_rows;
use crate::file_cache::db::StoreBatch;
use crate::file_cache::entry::EntryKind;
use crate::file_cache::entry::EntryView;
use crate::file_cache::meta::FileCachePath;
use crate::file_cache::meta::FileMeta;
use crate::file_cache::meta::FileMetaView;
use crate::file_cache::laws::mirrors;
use crate::file_cache::mirror::law_diff_mirrors;
use crate::file_cache::mirror::names_total;
use crate::file_cache::mirror::scan_is_plain;
use crate::file_cache::tree::apply_ops;
use crate::file_cache::tree::lemma_index_of;
use crate::file_cache::tree::put_ops;
use crate::file_cache::tree::has_id;
use crate::file_cache::tree::index_of;
use crate::file_cache::tree::tree_wf;
use crate::file_cache::tree::key_at;
use crate::file_cache::tree::record_at;
use crate::file_cache::tree::replaced_key;
use crate::file_cache::tree::drop_ops;
use crate::file_cache::tree::resolve;
use crate::file_cache::tree::TreeOp;
use vstd::prelude::*;

verus! {

/// A scan as mathematical values: paths with the records found at them.
pub type ScanView = Seq<(Seq<char>, FileMetaView)>;

/// The paths of a scan, in its order.
pub open spec fn paths_of(records: ScanView) -> Seq<Seq<char>> {
    Seq::new(records.len(), |j: int| records[j].0)
}

/// Whether one of the first `n` paths leads to the entry with this id.
pub open spec fn is_hit(tree: Seq<EntryView>, paths: Seq<Seq<char>>, n: int, id: u64) -> bool {
    exists|j: int| 0 <= j < n && j < paths.len() && resolve(tree, #[trigger] paths[j]) == Some(id)
}

/// Whether the entry at `i` is a file that none of the paths leads to.
pub open spec fn is_stale(tree: Seq<EntryView>, paths: Seq<Seq<char>>, i: int) -> bool {
    &&& 0 < i < tree.len()
    &&& tree[i].kind is File
    &&& !is_hit(tree, paths, paths.len() as int, tree[i].id)
}

/// The ids of the stale files among the first `n` entries.
pub open spec fn stale_ids(tree: Seq<EntryView>, paths: Seq<Seq<char>>, n: int) -> Seq<u64>
    decreases n,
{
    if n <= 0 {
        Seq::empty()
    } else {
        let rest = stale_ids(tree, paths, n - 1);
        if is_stale(tree, paths, n - 1) {
            rest.push(tree[n - 1].id)
        } else {
            rest
        }
    }
}

/// The keys of the stale files among the first `n` entries: the keys
/// under which the table holds their records.
pub open spec fn stale_keys(tree: Seq<EntryView>, paths: Seq<Seq<char>>, n: int) -> Seq<Seq<char>>
    decreases n,
{
    if n <= 0 {
        Seq::empty()
    } else {
        let rest = stale_keys(tree, paths, n - 1);
        if is_stale(tree, paths, n - 1) {
            rest.push(tree[n - 1].kind->key)
        } else {
            rest
        }
    }
}

/// Whether the tree does not hold this record at this path with the path
/// as its key.
pub open spec fn is_changed(tree: Seq<EntryView>, found: (Seq<char>, FileMetaView)) -> bool {
    !(record_at(tree, found.0) == Some(found.1) && key_at(tree, found.0) == Some(found.0))
}

/// The keys that the first `n` records of a scan replace, in the order of
/// the scan: where the tree holds a file at the path of a record under
/// another key than that path, the table holds it under that key, and the
/// key goes when the record is stored under its path.
pub open spec fn replaced_keys(tree: Seq<EntryView>, records: ScanView, n: int) -> Seq<Seq<char>>
    decreases n,
{
    if n <= 0 {
        Seq::empty()
    } else {
        replaced_keys(tree, records, n - 1) + replaced_key(tree, records[n - 1].0)
    }
}

/// The keys that a scan stages for removal from the table: those of the
/// stale files, then those that its records replace.
pub open spec fn staged_removals(tree: Seq<EntryView>, records: ScanView) -> Seq<Seq<char>> {
    stale_keys(tree, paths_of(records), tree.len() as int) + replaced_keys(
        tree,
        records,
        records.len() as int,
    )
}

/// Of the first `n` records of a scan, those that the tree does not hold
/// at their paths: the new and the altered ones.
pub open spec fn changed_records(tree: Seq<EntryView>, records: ScanView, n: int) -> ScanView
    decreases n,
{
    if n <= 0 {
        Seq::empty()
    } else {
        let rest = changed_records(tree, records, n - 1);
        if is_changed(tree, records[n - 1]) {
            rest.push(records[n - 1])
        } else {
            rest
        }
    }
}

/// The changes that bring the tree in step with a scan: what the stale
/// files hold is dropped, in the order of their ids, then the changed
/// records are put at their paths, in the order of the scan. A stale file
/// goes where nothing lies below it, and stays as a directory where
/// something does.
pub open spec fn diff_ops(tree: Seq<EntryView>, records: ScanView) -> Seq<TreeOp> {
    let stale = stale_ids(tree, paths_of(records), tree.len() as int);
    let changed = changed_records(tree, records, records.len() as int);
    drop_ops(stale) + put_ops(changed)
}

/// Marking the entry that the next path leads to keeps the marks in step:
/// where each entry was marked just if one of the first `j` paths leads to
/// it, each is then marked just if one of the first `j + 1` does.
pub proof fn lemma_hits_step(
    tree: Seq<EntryView>,
    paths: Seq<Seq<char>>,
    j: int,
    before: Seq<bool>,
    after: Seq<bool>,
)
    requires
        tree_wf(tree),
        0 <= j < paths.len(),
        before.len() == tree.len(),
        forall|i: int| 0 <= i < tree.len() ==> before[i] == is_hit(tree, paths, j, tree[i].id),
        match resolve(tree, paths[j]) {
            Some(id) => has_id(tree, id) && after == before.update(index_of(tree, id), true),
            None => after == before,
        },
    ensures
        after.len() == tree.len(),
        forall|i: int| 0 <= i < tree.len() ==> after[i] == is_hit(tree, paths, j + 1, tree[i].id),
{
    assert forall|i: int| 0 <= i < tree.len() implies after[i] == is_hit(
        tree,
        paths,
        j + 1,
        tree[i].id,
    ) by {
        let id = tree[i].id;
        lemma_index_of(tree, i);
        if is_hit(tree, paths, j, id) {
            let w = choose|w: int|
                0 <= w < j && w < paths.len() && resolve(tree, #[trigger] paths[w]) == Some(id);
            assert(0 <= w < j + 1 && resolve(tree, paths[w]) == Some(id));
        }
        if resolve(tree, paths[j]) == Some(id) {
            assert(is_hit(tree, paths, j + 1, id));
        }
        if is_hit(tree, paths, j + 1, id) {
            let w = choose|w: int|
                0 <= w < j + 1 && w < paths.len() && resolve(tree, #[trigger] paths[w]) == Some(
                    id,
                );
            if w < j {
                assert(is_hit(tree, paths, j, id));
            }
        }
    }
}

/// What a scan stages against the cache.
pub struct Diff {
    /// The ids of the files that the scan no longer holds.
    pub stale: Vec<u64>,
    /// The keys to take out of the table: those of the stale files, then
    /// those that records of the scan replace.
    pub to_remove: Vec<FileCachePath>,
    /// The records that are new or altered.
    pub to_add_or_update: Vec<(FileCachePath, FileMeta)>,
}

impl FileCache {
    /// Compares a scan with the cache. A file of the cache that no path of
    /// the scan leads to is staged for removal, under the key by which the
    /// table holds it; a record of the scan that the cache does not hold at
    /// its path is staged for upsert under that path; what is unchanged is
    /// staged for nothing. The cache is not changed.
    pub fn diff(&self, new_files: &Vec<(FileCachePath, FileMeta)>) -> (staged: Diff)
        requires
            self.wf(),
        ensures
            staged.stale@ == stale_ids(
                self@,
                paths_of(new_files.deep_view()),
                self@.len() as int,
            ),
            staged.to_remove.deep_view() == staged_removals(self@, new_files.deep_view()),
            staged.to_add_or_update.deep_view() == changed_records(
                self@,
                new_files.deep_view(),
                new_files.len() as int,
            ),
    {
        let n: usize = self.len();
        let ghost tree = self@;
        let ghost records = new_files.deep_view();
        let ghost paths = paths_of(records);
        let mut hits: Vec<bool> = Vec::new();
        let mut h: usize = 0;
        while h < n
            invariant
                h <= n,
                hits.len() == h,
                forall|i: int| 0 <= i < h ==> !hits[i],
            decreases n - h,
        {
            hits.push(false);
            h += 1;
        }
        let mut upserts: Vec<(FileCachePath, FileMeta)> = Vec::new();
        let mut replaced: Vec<FileCachePath> = Vec::new();
        let mut j: usize = 0;
        assert(upserts.deep_view() =~= changed_records(tree, records, 0));
        assert(replaced.deep_view() =~= replaced_keys(tree, records, 0));
        while j < new_files.len()
            invariant
                self.wf(),
                tree == self@,
                records == new_files.deep_view(),
                paths == paths_of(records),
                n == tree.len(),
                j <= new_files.len(),
                hits.len() == n,
                forall|i: int| 0 <= i < n ==> hits[i] == is_hit(tree, paths, j as int, tree[i].id),
                upserts.deep_view() == changed_records(tree, records, j as int),
                replaced.deep_view() == replaced_keys(tree, records, j as int),
            decreases new_files.len() - j,
        {
            let path = &new_files[j].0;
            let meta = &new_files[j].1;
            assert(records[j as int] == (path@, meta@));
            assert(paths[j as int] == path@);
            let ghost hits_before = hits@;
            let ghost staged_before = upserts.deep_view();
            let ghost replaced_before = replaced.deep_view();
            let mut unchanged: bool = false;
            let found = self.resolve_index(path.as_str());
            match found {
                Some(i) => {
                    hits[i] = true;
                    match &self.entry_at(i).kind {
                        EntryKind::File { record, key } => {
                            if key.0 == path.0 {
                                unchanged = record.same_as(meta);
                            } else {
                                replaced.push(key.clone());
                                assert(replaced.deep_view() =~= replaced_before + seq![key@]);
                            }
                        },
                        EntryKind::Directory => {},
                    }
                },
                None => {},
            }
            if !unchanged {
                upserts.push((path.clone(), meta.clone()));
                assert(upserts.deep_view() =~= staged_before.push((path@, meta@)));
            }
            assert(replaced.deep_view() =~= replaced_before + replaced_key(tree, path@));
            proof {
                lemma_hits_step(tree, paths, j as int, hits_before, hits@);
            }
            j += 1;
        }
        let mut stale: Vec<u64> = Vec::new();
        let mut keys: Vec<FileCachePath> = Vec::new();
        let mut i: usize = 0;
        assert(keys.deep_view() =~= stale_keys(tree, paths, 0));
        while i < n
            invariant
                self.wf(),
                tree == self@,
                n == tree.len(),
                i <= n,
                hits.len() == n,
                paths.len() == new_files.len(),
                j == new_files.len(),
                forall|k: int| 0 <= k < n ==> hits[k] == is_hit(tree, paths, j as int, tree[k].id),
                stale@ == stale_ids(tree, paths, i as int),
                keys.deep_view() == stale_keys(tree, paths, i as int),
            decreases n - i,
        {
            let e = self.entry_at(i);
            let ghost keys_before = keys.deep_view();
            if i > 0 && !hits[i] {
                match &e.kind {
                    EntryKind::File { record, key } => {
                        stale.push(e.id);
                        keys.push(key.clone());
                        assert(keys.deep_view() =~= keys_before.push(key@));
                    },
                    EntryKind::Directory => {},
                }
            }
            i += 1;
        }
        let ghost stale_part = keys.deep_view();
        let ghost replaced_part = replaced.deep_view();
        keys.append(&mut replaced);
        assert(keys.deep_view() =~= stale_part + replaced_part);
        Diff { stale, to_remove: keys, to_add_or_update: upserts }
    }

    /// Brings the cache in step with a scan and returns the batch that does
    /// the same to the durable table: the keys of the stale files and the
    /// keys that records of the scan replace are removed, and the new and
    /// altered records are stored under their paths. The tree is
    /// changed as `diff_ops` says. Where the scan is plain and the ids
    /// suffice, the cache then mirrors the scan.
    pub fn diff_and_update(&mut self, new_files: &Vec<(FileCachePath, FileMeta)>) -> (batch:
        StoreBatch)
        requires
            old(self).wf(),
        ensures
            final(self).wf(),
            final(self).root_id() == old(self).root_id(),
            batch@.removals == staged_removals(old(self)@, new_files.deep_view()),
            batch@.upserts == encoded_rows(
                changed_records(old(self)@, new_files.deep_view(), new_files.len() as int),
            ),
            final(self).state() == apply_ops(
                old(self).state(),
                diff_ops(old(self)@, new_files.deep_view()),
            ),
            scan_is_plain(old(self)@, new_files.deep_view()) && old(self).next_id() + names_total(
                old(self)@,
                new_files.deep_view(),
                new_files.len() as int,
            ) <= u64::MAX ==> mirrors(final(self)@, new_files.deep_view()),
    {
        proof {
            if scan_is_plain(self@, new_files.deep_view()) && self.next_id() + names_total(
                self@,
                new_files.deep_view(),
                new_files.len() as int,
            ) <= u64::MAX {
                law_diff_mirrors(self.state(), new_files.deep_view());
            }
        }
        let staged = self.diff(new_files);
        let batch = batch_commit(staged.to_remove.as_slice(), staged.to_add_or_update.as_slice());
        let ghost start = self.state();
        let ghost ops = diff_ops(self@, new_files.deep_view());
        let ghost changed = staged.to_add_or_update.deep_view();
        let mut r: usize = 0;
        assert(ops.take(0).len() == 0);
        while r < staged.stale.len()
            invariant
                self.wf(),
                self.root_id() == old(self).root_id(),
                r <= staged.stale.len(),
                ops.len() == staged.stale.len() + changed.len(),
                forall|k: int|
                    0 <= k < staged.stale.len() ==> ops[k] == (TreeOp::Drop {
                        id: staged.stale[k],
                    }),
                self.state() == apply_ops(start, ops.take(r as int)),
            decreases staged.stale.len() - r,
        {
            assert(ops.take(r + 1).drop_last() =~= ops.take(r as int));
            assert(ops.take(r + 1).last() == ops[r as int]);
            self.drop_record(staged.stale[r]);
            r += 1;
        }
        let mut u: usize = 0;
        while u < staged.to_add_or_update.len()
            invariant
                self.wf(),
                self.root_id() == old(self).root_id(),
                u <= staged.to_add_or_update.len(),
                r == staged.stale.len(),
                changed == staged.to_add_or_update.deep_view(),
                ops.len() == r + changed.len(),
                forall|k: int|
                    0 <= k < changed.len() ==> ops[r + k] == (TreeOp::PutFile {
                        path: changed[k].0,
                        record: changed[k].1,
                    }),
                self.state() == apply_ops(start, ops.take(r + u)),
            decreases staged.to_add_or_update.len() - u,
        {
            assert(ops.take(r + u + 1).drop_last() =~= ops.take(r + u));
            assert(ops.take(r + u + 1).last() == ops[r + u]);
            let path = &staged.to_add_or_update[u].0;
            let meta = &staged.to_add_or_update[u].1;
            assert(changed[u as int] == (path@, meta@));
            let _ = self.update_file(path.as_str(), meta.clone());
            u += 1;
        }
        assert(ops.take(r + u) =~= ops);
        batch
    }
}

} // verus!
