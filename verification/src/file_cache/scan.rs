//! The streaming scan of one directory level: files are recorded in the
//! tree and gathered in a batch; a full batch is handed out for the durable
//! table and its entries leave the tree, so that the tree never holds more
//! of the scanned files than one batch.

use crate::file_cache::cache::FileCache;
use crate::file_cache::db::batch_commit;
use crate::file_cache::db::encoded_rows;
use crate::file_cache::db::StoreBatch;
use crate::file_cache::entry::CacheError;
use crate::file_cache::entry::EntryView;
use crate::file_cache::meta::FileCachePath;
use crate::file_cache::meta::FileMeta;
use crate::file_cache::meta::FileMetaView;
use crate::file_cache::tree::child_index;
use crate::file_cache::tree::file_kind;
use crate::file_cache::tree::has_child;
use crate::file_cache::tree::has_id;
use crate::file_cache::tree::is_child_at;
use crate::file_cache::tree::is_removed;
use crate::file_cache::tree::kept_entries;
use crate::file_cache::tree::lemma_kept_stays;
use crate::file_cache::tree::remove_ops;
use crate::file_cache::tree::remove_subtree;
use crate::file_cache::tree::stays;
use crate::file_cache::tree::tree_wf;
use crate::file_cache::tree::upsert_error;
use crate::file_cache::tree::upsert_id;
use crate::file_cache::tree::apply_ops;
use crate::file_cache::tree::upsert_tree;
use crate::file_cache::tree::TreeState;
use crate::ignore_config::ignores;
use crate::ignore_config::IgnoreConfig;
use vstd::prelude::*;

verus! {

/// How many of the first `n` entries have an id below `bound`.
pub open spec fn count_below(tree: Seq<EntryView>, bound: u64, n: int) -> nat
    decreases n,
{
    if n <= 0 {
        0
    } else if tree[n - 1].id < bound {
        count_below(tree, bound, n - 1) + 1
    } else {
        count_below(tree, bound, n - 1)
    }
}

/// How many entries have an id below `bound`: those that were in the tree
/// before the id `bound` was given out.
pub open spec fn older_entries(tree: Seq<EntryView>, bound: u64) -> nat {
    count_below(tree, bound, tree.len() as int)
}

/// The count looks at ids only.
pub proof fn lemma_count_below_same_ids(a: Seq<EntryView>, b: Seq<EntryView>, bound: u64, n: int)
    requires
        0 <= n <= a.len(),
        n <= b.len(),
        forall|i: int| 0 <= i < n ==> (#[trigger] a[i]).id == b[i].id,
    ensures
        count_below(a, bound, n) == count_below(b, bound, n),
    decreases n,
{
    if n > 0 {
        lemma_count_below_same_ids(a, b, bound, n - 1);
    }
}

/// Where every id lies below the bound, every entry counts.
pub proof fn lemma_count_below_all(tree: Seq<EntryView>, bound: u64, n: int)
    requires
        0 <= n <= tree.len(),
        forall|i: int| 0 <= i < n ==> (#[trigger] tree[i]).id < bound,
    ensures
        count_below(tree, bound, n) == n,
    decreases n,
{
    if n > 0 {
        lemma_count_below_all(tree, bound, n - 1);
    }
}

/// Removing a subtree does not raise the count.
pub proof fn lemma_count_below_kept(tree: Seq<EntryView>, top: u64, bound: u64, n: int)
    requires
        0 <= n <= tree.len(),
    ensures
        count_below(
            kept_entries(tree, top, n),
            bound,
            kept_entries(tree, top, n).len() as int,
        ) <= count_below(tree, bound, n),
    decreases n,
{
    if n > 0 {
        lemma_count_below_kept(tree, top, bound, n - 1);
        let rest = kept_entries(tree, top, n - 1);
        let kept = kept_entries(tree, top, n);
        if !is_removed(tree, top, n - 1) {
            lemma_count_below_same_ids(rest, kept, bound, rest.len() as int);
        }
    }
}

/// What is left when a subtree is removed was there before, and the top of
/// the subtree is not left unless it is the root.
pub proof fn lemma_removed_top_is_gone(tree: Seq<EntryView>, top: u64, k: int)
    requires
        tree_wf(tree),
        0 <= k < remove_subtree(tree, top).len(),
    ensures
        has_id(tree, remove_subtree(tree, top)[k].id),
        remove_subtree(tree, top)[k].id == top ==> top == tree[0].id,
{
    let n = tree.len() as int;
    let kept = remove_subtree(tree, top);
    lemma_kept_stays(tree, top, n);
    assert(stays(tree, top, n, kept[k]));
    let j = choose|j: int|
        0 <= j < n && j < tree.len() && !is_removed(tree, top, j) && #[trigger] tree[j] == kept[k];
    assert(tree[j].id == kept[k].id);
}

/// The scan of the files of one directory.
pub struct StreamingBatch {
    parent: u64,
    batch_size: usize,
    first_id: u64,
    baseline: usize,
    created: usize,
    batch: Vec<(FileCachePath, FileMeta)>,
    keys: Vec<u64>,
    batch_count: usize,
}

impl StreamingBatch {
    /// The entry under which the files are recorded.
    pub closed spec fn parent(&self) -> u64 {
        self.parent
    }

    /// The number of files at which a batch is handed out.
    pub closed spec fn batch_size(&self) -> usize {
        self.batch_size
    }

    /// The number of entries that the tree held when the scan began.
    pub closed spec fn baseline(&self) -> nat {
        self.baseline as nat
    }

    /// The id from which on entries are new to the tree since the scan
    /// began.
    pub closed spec fn first_id(&self) -> u64 {
        self.first_id
    }

    /// The records gathered since the last batch was handed out.
    pub closed spec fn pending(&self) -> Seq<(Seq<char>, FileMetaView)> {
        self.batch.deep_view()
    }

    /// The ids of the entries that hold the pending records.
    pub closed spec fn pending_ids(&self) -> Seq<u64> {
        self.keys@
    }

    /// The number of batches handed out so far.
    pub closed spec fn batches(&self) -> usize {
        self.batch_count
    }

    /// What holds between a scan and the cache it feeds, from its start to
    /// its end, as long as nothing else changes the cache: the cache is well
    /// formed, fewer records are pending than fill a batch, each has its
    /// entry's id, every entry that is new since the scan began holds a
    /// pending record, and the older entries are no more than at the start.
    pub closed spec fn inv(&self, cache: &FileCache) -> bool {
        &&& cache.wf()
        &&& self.keys.len() == self.batch.len()
        &&& self.batch_size > 0 ==> self.batch.len() < self.batch_size
        &&& self.batch_size == 0 ==> self.batch.len() == 0
        &&& cache@[0].id < self.first_id
        &&& self.first_id <= cache.next_id()
        &&& older_entries(cache@, self.first_id) <= self.baseline
        &&& cache@.len() == older_entries(cache@, self.first_id) + self.created
        &&& self.created <= self.keys.len()
        &&& forall|i: int|
            0 <= i < cache@.len() && (#[trigger] cache@[i]).id >= self.first_id
                ==> self.keys@.contains(cache@[i].id)
    }

    /// While a scan runs the cache is well formed, the tree holds at most the
    /// entries it began with and one for each pending record, and the
    /// pending records are fewer than fill a batch.
    pub proof fn law_resident_bound(&self, cache: &FileCache)
        requires
            self.inv(cache),
        ensures
            cache.wf(),
            cache@.len() <= self.baseline() + self.pending().len(),
            self.pending().len() == self.pending_ids().len(),
            self.batch_size() > 0 ==> self.pending().len() < self.batch_size(),
            self.batch_size() == 0 ==> self.pending().len() == 0,
    {
    }

    /// Begins the scan of a directory whose files go under `parent`, or
    /// under the root when none is given.
    pub fn new(cache: &FileCache, parent: Option<u64>, batch_size: usize) -> (scan: Self)
        requires
            cache.wf(),
        ensures
            scan.inv(cache),
            scan.parent() == match parent {
                Some(p) => p,
                None => cache.root_id(),
            },
            scan.batch_size() == batch_size,
            scan.baseline() == cache@.len(),
            scan.first_id() == cache.next_id(),
            scan.pending() == Seq::<(Seq<char>, FileMetaView)>::empty(),
            scan.pending_ids() == Seq::<u64>::empty(),
            scan.batches() == 0,
    {
        let parent_key: u64 = match parent {
            Some(p) => p,
            None => cache.root(),
        };
        let scan = StreamingBatch {
            parent: parent_key,
            batch_size,
            first_id: cache.next_free_id(),
            baseline: cache.len(),
            created: 0,
            batch: Vec::new(),
            keys: Vec::new(),
            batch_count: 0,
        };
        proof {
            lemma_count_below_all(cache@, scan.first_id, cache@.len() as int);
            assert(scan.pending() =~= Seq::<(Seq<char>, FileMetaView)>::empty());
        }
        scan
    }

    /// The number of batches handed out so far.
    pub fn batch_count(&self) -> (n: usize)
        ensures
            n == self.batches(),
    {
        self.batch_count
    }

    /// The number of records gathered since the last batch.
    pub fn pending_len(&self) -> (n: usize)
        ensures
            n == self.pending().len(),
    {
        self.batch.len()
    }

    /// Hands out the pending records as a batch and takes their entries out
    /// of the tree.
    fn flush(&mut self, cache: &mut FileCache) -> (batch: StoreBatch)
        requires
            old(cache).wf(),
            old(self).keys.len() == old(self).batch.len(),
            old(cache)@[0].id < old(self).first_id,
            old(self).first_id <= old(cache).next_id(),
            older_entries(old(cache)@, old(self).first_id) <= old(self).baseline,
            forall|i: int|
                0 <= i < old(cache)@.len() && (#[trigger] old(cache)@[i]).id >= old(self).first_id
                    ==> old(self).keys@.contains(old(cache)@[i].id),
        ensures
            final(self).inv(final(cache)),
            final(self).parent() == old(self).parent(),
            final(self).batch_size() == old(self).batch_size(),
            final(self).baseline() == old(self).baseline(),
            final(self).first_id() == old(self).first_id(),
            final(self).pending() == Seq::<(Seq<char>, FileMetaView)>::empty(),
            final(self).pending_ids() == Seq::<u64>::empty(),
            final(self).batches() == if old(self).batches() < usize::MAX {
                (old(self).batches() + 1) as usize
            } else {
                old(self).batches()
            },
            final(cache).root_id() == old(cache).root_id(),
            final(cache).next_id() == old(cache).next_id(),
            final(cache).state() == apply_ops(old(cache).state(), remove_ops(old(self).keys@)),
            final(cache)@.len() <= old(self).baseline(),
            forall|i: int|
                0 <= i < final(cache)@.len() ==> (#[trigger] final(cache)@[i]).id < old(
                    self,
                ).first_id(),
            batch@.removals == Seq::<Seq<char>>::empty(),
            batch@.upserts == encoded_rows(old(self).pending()),
    {
        let none: Vec<FileCachePath> = Vec::new();
        let batch = batch_commit(none.as_slice(), self.batch.as_slice());
        assert(none.deep_view() =~= Seq::<Seq<char>>::empty());
        let ghost start = cache.state();
        let ghost ops = remove_ops(self.keys@);
        let ghost root = cache@[0].id;
        let mut k: usize = 0;
        assert(ops.take(0).len() == 0);
        while k < self.keys.len()
            invariant
                cache.wf(),
                cache.root_id() == old(cache).root_id(),
                cache.next_id() == old(cache).next_id(),
                cache@[0].id == root,
                root < self.first_id,
                self.first_id <= cache.next_id(),
                k <= self.keys.len(),
                ops == remove_ops(self.keys@),
                older_entries(cache@, self.first_id) <= self.baseline,
                forall|i: int|
                    0 <= i < cache@.len() && (#[trigger] cache@[i]).id >= self.first_id
                        ==> exists|w: int|
                        k <= w < self.keys.len() && self.keys[w] == cache@[i].id,
                cache.state() == apply_ops(start, ops.take(k as int)),
            decreases self.keys.len() - k,
        {
            let ghost tree = cache@;
            let top: u64 = self.keys[k];
            proof {
                assert(ops.take(k + 1).drop_last() =~= ops.take(k as int));
                assert(ops.take(k + 1).last() == ops[k as int]);
                lemma_count_below_kept(tree, top, self.first_id, tree.len() as int);
            }
            cache.remove_entry(top);
            proof {
                assert forall|i: int|
                    0 <= i < cache@.len() && (#[trigger] cache@[i]).id
                        >= self.first_id implies exists|w: int|
                    k + 1 <= w < self.keys.len() && self.keys[w] == cache@[i].id by {
                    lemma_removed_top_is_gone(tree, top, i);
                    let id = cache@[i].id;
                    let j = choose|j: int| 0 <= j < tree.len() && #[trigger] tree[j].id == id;
                    let w = choose|w: int| k <= w < self.keys.len() && self.keys[w] == tree[j].id;
                    assert(w != k);
                }
            }
            k += 1;
        }
        proof {
            assert(ops.take(k as int) =~= ops);
            assert forall|i: int| 0 <= i < cache@.len() implies (#[trigger] cache@[i]).id
                < self.first_id by {
                if cache@[i].id >= self.first_id {
                    let w = choose|w: int| k <= w < self.keys.len() && self.keys[w] == cache@[i].id;
                }
            }
            lemma_count_below_all(cache@, self.first_id, cache@.len() as int);
        }
        self.batch.clear();
        self.keys.clear();
        self.created = 0;
        if self.batch_count < usize::MAX {
            self.batch_count = self.batch_count + 1;
        }
        assert(self.pending() =~= Seq::<(Seq<char>, FileMetaView)>::empty());
        batch
    }

    /// Records a file of the directory. Its record goes into the tree, under
    /// the scan's parent, and is gathered with the pending ones. Once as many
    /// are pending as fill a batch they are handed out, and their entries
    /// leave the tree. A file that the tree refuses changes nothing.
    pub fn add_file(&mut self, cache: &mut FileCache, name: &str, meta: FileMeta) -> (result:
        Result<Option<StoreBatch>, CacheError>)
        requires
            old(self).inv(old(cache)),
        ensures
            final(cache).wf(),
            final(self).inv(final(cache)),
            final(self).parent() == old(self).parent(),
            final(self).batch_size() == old(self).batch_size(),
            final(self).baseline() == old(self).baseline(),
            final(self).first_id() == old(self).first_id(),
            final(cache).root_id() == old(cache).root_id(),
            final(cache)@.len() <= final(self).baseline() + final(self).pending().len(),
            match result {
                Ok(flushed) => {
                    let id = upsert_id(
                        old(cache)@,
                        old(cache).next_id(),
                        name@,
                        old(self).parent(),
                    );
                    let recorded = upsert_tree(
                        old(cache)@,
                        old(cache).next_id(),
                        name@,
                        old(self).parent(),
                        file_kind(meta@, meta@.path),
                    );
                    let gathered = old(self).pending().push((meta@.path, meta@));
                    &&& upsert_error(
                        old(cache)@,
                        old(cache).next_id(),
                        name@,
                        old(self).parent(),
                    ) is None
                    &&& match flushed {
                        Some(batch) => {
                            &&& gathered.len() >= old(self).batch_size()
                            &&& batch@.removals == Seq::<Seq<char>>::empty()
                            &&& batch@.upserts == encoded_rows(gathered)
                            &&& final(self).pending() == Seq::<(Seq<char>, FileMetaView)>::empty()
                            &&& final(self).pending_ids() == Seq::<u64>::empty()
                            &&& final(self).batches() == if old(self).batches() < usize::MAX {
                                (old(self).batches() + 1) as usize
                            } else {
                                old(self).batches()
                            }
                            &&& final(cache)@ == apply_ops(
                                TreeState { tree: recorded, next_id: final(cache).next_id() as int },
                                remove_ops(old(self).pending_ids().push(id)),
                            ).tree
                            &&& final(cache)@.len() <= old(self).baseline()
                        },
                        None => {
                            &&& gathered.len() < old(self).batch_size()
                            &&& final(self).pending() == gathered
                            &&& final(self).pending_ids() == old(self).pending_ids().push(id)
                            &&& final(self).batches() == old(self).batches()
                            &&& final(cache)@ == recorded
                        },
                    }
                },
                Err(e) => {
                    &&& upsert_error(
                        old(cache)@,
                        old(cache).next_id(),
                        name@,
                        old(self).parent(),
                    ) == Some(e)
                    &&& final(cache)@ == old(cache)@
                    &&& final(cache).next_id() == old(cache).next_id()
                    &&& final(self).pending() == old(self).pending()
                    &&& final(self).pending_ids() == old(self).pending_ids()
                    &&& final(self).batches() == old(self).batches()
                },
            },
    {
        let ghost tree = cache@;
        let ghost pending_before = self.batch.deep_view();
        let next_before: u64 = cache.next_free_id();
        let copy = meta.clone();
        let path = meta.path.clone();
        match cache.update_or_insert_file(name, self.parent, meta) {
            Ok(id) => {
                proof {
                    let after = cache@;
                    lemma_count_below_same_ids(tree, after, self.first_id, tree.len() as int);
                    if has_child(tree, self.parent, name@) {
                        let i = child_index(tree, self.parent, name@);
                        assert(is_child_at(tree, i, self.parent, name@));
                        assert(id == tree[i].id);
                        assert(id < next_before);
                        assert(after.len() == tree.len());
                    } else {
                        assert(id == next_before);
                        assert(after.len() == tree.len() + 1);
                        assert(after[tree.len() as int].id == next_before);
                    }
                    assert(older_entries(after, self.first_id) == older_entries(
                        tree,
                        self.first_id,
                    ));
                }
                if id == next_before {
                    self.created = self.created + 1;
                }
                self.batch.push((path, copy));
                self.keys.push(id);
                proof {
                    assert(self.batch.deep_view() =~= pending_before.push((meta@.path, meta@)));
                    assert forall|i: int|
                        0 <= i < cache@.len() && (#[trigger] cache@[i]).id
                            >= self.first_id implies self.keys@.contains(cache@[i].id) by {
                        if i < tree.len() && cache@[i].id != id {
                            assert(tree[i].id == cache@[i].id);
                            assert(old(self).keys@.contains(tree[i].id));
                            let w = choose|w: int|
                                0 <= w < old(self).keys@.len() && old(self).keys@[w] == tree[i].id;
                            assert(self.keys@[w] == tree[i].id);
                        } else {
                            assert(self.keys@[self.keys@.len() - 1] == id);
                        }
                    }
                }
                if self.batch.len() >= self.batch_size {
                    let ghost recorded = cache.state();
                    let batch = self.flush(cache);
                    assert(recorded.next_id == cache.next_id());
                    Ok(Some(batch))
                } else {
                    Ok(None)
                }
            },
            Err(e) => Err(e),
        }
    }

    /// Ends the scan of the directory: records still pending are handed out
    /// as a last batch and their entries leave the tree. Afterwards the tree
    /// holds no entry that is new since the scan began, and no more entries
    /// than when it began.
    pub fn finish(&mut self, cache: &mut FileCache) -> (last: Option<StoreBatch>)
        requires
            old(self).inv(old(cache)),
        ensures
            final(cache).wf(),
            final(self).inv(final(cache)),
            final(self).parent() == old(self).parent(),
            final(self).batch_size() == old(self).batch_size(),
            final(self).baseline() == old(self).baseline(),
            final(self).first_id() == old(self).first_id(),
            final(self).pending() == Seq::<(Seq<char>, FileMetaView)>::empty(),
            final(cache).root_id() == old(cache).root_id(),
            final(cache).next_id() == old(cache).next_id(),
            final(cache).state() == apply_ops(
                old(cache).state(),
                remove_ops(old(self).pending_ids()),
            ),
            final(cache)@.len() <= old(self).baseline(),
            forall|i: int|
                0 <= i < final(cache)@.len() ==> (#[trigger] final(cache)@[i]).id < old(
                    self,
                ).first_id(),
            match last {
                Some(batch) => {
                    &&& old(self).pending().len() > 0
                    &&& batch@.removals == Seq::<Seq<char>>::empty()
                    &&& batch@.upserts == encoded_rows(old(self).pending())
                    &&& final(self).batches() == if old(self).batches() < usize::MAX {
                        (old(self).batches() + 1) as usize
                    } else {
                        old(self).batches()
                    }
                },
                None => {
                    &&& old(self).pending().len() == 0
                    &&& final(self).batches() == old(self).batches()
                },
            },
    {
        if self.batch.len() > 0 {
            Some(self.flush(cache))
        } else {
            proof {
                assert(remove_ops(self.keys@).len() == 0);
                assert forall|i: int| 0 <= i < cache@.len() implies (#[trigger] cache@[i]).id
                    < self.first_id by {
                    if cache@[i].id >= self.first_id {
                        assert(self.keys@.contains(cache@[i].id));
                    }
                }
                lemma_count_below_all(cache@, self.first_id, cache@.len() as int);
                assert(self.pending() =~= Seq::<(Seq<char>, FileMetaView)>::empty());
            }
            None
        }
    }
}

/// An entry of a directory as the disk lists it: its path, and whether it
/// is a directory.
#[derive(Debug, PartialEq, Eq)]
pub struct DirItem {
    pub path: String,
    pub is_dir: bool,
}

/// An entry of a directory as mathematical values.
pub ghost struct DirItemView {
    pub path: Seq<char>,
    pub is_dir: bool,
}

impl View for DirItem {
    type V = DirItemView;

    open spec fn view(&self) -> DirItemView {
        DirItemView { path: self.path@, is_dir: self.is_dir }
    }
}

impl DeepView for DirItem {
    type V = DirItemView;

    open spec fn deep_view(&self) -> DirItemView {
        self@
    }
}

/// What is to be done with the entries of one directory: the files to
/// record, and the directories to descend into.
#[derive(Debug, PartialEq, Eq)]
pub struct LevelPlan {
    pub files: Vec<String>,
    pub dirs: Vec<String>,
}

/// Of the first `n` entries, the paths of those that are a directory or
/// not, as `dirs` asks, and are not ignored, in their order.
pub open spec fn planned(
    patterns: Seq<Seq<char>>,
    items: Seq<DirItemView>,
    dirs: bool,
    n: int,
) -> Seq<Seq<char>>
    decreases n,
{
    if n <= 0 {
        Seq::empty()
    } else {
        let before = planned(patterns, items, dirs, n - 1);
        let item = items[n - 1];
        if item.is_dir == dirs && !ignores(patterns, item.path, item.is_dir) {
            before.push(item.path)
        } else {
            before
        }
    }
}

/// Of the first `n` entries, the paths of those that are a directory or
/// not, as `dirs` asks, in their order.
pub open spec fn listed(items: Seq<DirItemView>, dirs: bool, n: int) -> Seq<Seq<char>>
    decreases n,
{
    if n <= 0 {
        Seq::empty()
    } else {
        let before = listed(items, dirs, n - 1);
        if items[n - 1].is_dir == dirs {
            before.push(items[n - 1].path)
        } else {
            before
        }
    }
}

/// Sorts the entries of a directory into files and directories, and leaves
/// out what the patterns ignore, before anything is read of it. Without
/// patterns nothing is left out.
pub fn plan_level(ignore: &IgnoreConfig, items: &Vec<DirItem>) -> (plan: LevelPlan)
    ensures
        plan.files.deep_view() == planned(ignore@, items.deep_view(), false, items.len() as int),
        plan.dirs.deep_view() == planned(ignore@, items.deep_view(), true, items.len() as int),
        ignore@.len() == 0 ==> plan.files.deep_view() == listed(
            items.deep_view(),
            false,
            items.len() as int,
        ),
        ignore@.len() == 0 ==> plan.dirs.deep_view() == listed(
            items.deep_view(),
            true,
            items.len() as int,
        ),
{
    let ghost all = items.deep_view();
    let mut files: Vec<String> = Vec::new();
    let mut dirs: Vec<String> = Vec::new();
    let mut i: usize = 0;
    assert(files.deep_view() =~= planned(ignore@, all, false, 0));
    assert(dirs.deep_view() =~= planned(ignore@, all, true, 0));
    while i < items.len()
        invariant
            i <= items.len(),
            all == items.deep_view(),
            files.deep_view() == planned(ignore@, all, false, i as int),
            dirs.deep_view() == planned(ignore@, all, true, i as int),
            ignore@.len() == 0 ==> files.deep_view() == listed(all, false, i as int),
            ignore@.len() == 0 ==> dirs.deep_view() == listed(all, true, i as int),
        decreases items.len() - i,
    {
        let item = &items[i];
        assert(all[i as int] == item@);
        let ghost files_before = files.deep_view();
        let ghost dirs_before = dirs.deep_view();
        if !ignore.is_ignored_as(item.path.as_str(), item.is_dir) {
            if item.is_dir {
                dirs.push(item.path.clone());
                assert(dirs.deep_view() =~= dirs_before.push(item@.path));
            } else {
                files.push(item.path.clone());
                assert(files.deep_view() =~= files_before.push(item@.path));
            }
        }
        i += 1;
    }
    LevelPlan { files, dirs }
}

/// The number of files between two reports of progress.
pub const PROGRESS_STEP: usize = 100;

/// Whether progress is to be reported once `count` files have been seen.
pub fn progress_due(count: usize) -> (due: bool)
    ensures
        due == (count % PROGRESS_STEP == 0),
{
    count % PROGRESS_STEP == 0
}

} // verus!
