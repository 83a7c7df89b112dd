//! What the watcher does with one notification: which paths it passes over,
//! what it tells the cache and the move heuristics, and what is to be
//! written to the durable table.

use crate::file_cache::cache::FileCache;
use crate::file_cache::db::batch_commit;
use crate::file_cache::db::encoded_rows;
use crate::file_cache::db::StoreBatch;
use crate::file_cache::entry::EntryKindView;
use crate::file_cache::tree::key_at;
use crate::file_cache::entry::EntryView;
use crate::file_cache::meta::FileCachePath;
use crate::file_cache::meta::FileMeta;
use crate::file_cache::meta::FileMetaView;
use crate::file_cache::tree::ensure_path_tree;
use crate::file_cache::tree::file_kind;
use crate::file_cache::tree::missing_names;
use crate::file_cache::tree::path_error;
use crate::file_cache::tree::record_at;
use crate::file_cache::tree::relative_names;
use crate::file_cache::tree::remove_subtree;
use crate::file_cache::tree::replaced_key;
use crate::file_cache::tree::removed_keys;
use crate::file_cache::tree::resolve;
use crate::file_cache::tree::TreeState;
use crate::ignore_config::ignores;
use crate::ignore_config::IgnoreConfig;
use crate::move_heuristics::best_match;
use crate::move_heuristics::live_events;
use crate::move_heuristics::make_file_event;
use crate::move_heuristics::pair_score;
use crate::move_heuristics::FileEventKind;
use crate::move_heuristics::FileEventView;
use crate::move_heuristics::MoveHeuristics;
use crate::paths::file_name;
use crate::paths::file_name_of;
use crate::paths::path_components;
use crate::paths::split_components;
use vstd::prelude::*;

verus! {

/// The file name of the database, whose own changes are not reported.
pub const DATABASE_FILE_NAME: &'static str = "linkfield.redb";

/// The kinds of notification that the watcher tells apart.
#[derive(Debug, Clone, Copy, PartialEq, Eq, Structural)]
pub enum WatchKind {
    /// A path was removed.
    Remove,
    /// A path was created.
    Create,
    /// A name changed: a rename or a move.
    ModifyName,
    /// Something about a path changed, it is not known what.
    ModifyAny,
    /// Any other notification.
    Other,
}

/// A path of a notification with what a look at the disk gave for it:
/// whether it is a directory there, and its record where it could be read.
#[derive(Debug, PartialEq, Eq)]
pub struct ObservedPath {
    pub path: String,
    pub is_dir: bool,
    pub meta: Option<FileMeta>,
}

/// An observed path as mathematical values.
pub ghost struct ObservedPathView {
    pub path: Seq<char>,
    pub is_dir: bool,
    pub meta: Option<FileMetaView>,
}

impl View for ObservedPath {
    type V = ObservedPathView;

    open spec fn view(&self) -> ObservedPathView {
        ObservedPathView { path: self.path@, is_dir: self.is_dir, meta: self.meta.deep_view() }
    }
}

impl DeepView for ObservedPath {
    type V = ObservedPathView;

    open spec fn deep_view(&self) -> ObservedPathView {
        self@
    }
}

/// One notification.
#[derive(Debug, PartialEq, Eq)]
pub struct WatchEvent {
    pub kind: WatchKind,
    pub paths: Vec<ObservedPath>,
}

/// The paths that were the target of a move a moment ago. The notification
/// that follows such a move is swallowed, and the path leaves the set when
/// it is looked up.
pub struct RecentlyMoved {
    paths: Vec<String>,
}

impl View for RecentlyMoved {
    type V = Set<Seq<char>>;

    closed spec fn view(&self) -> Set<Seq<char>> {
        self.paths.deep_view().to_set()
    }
}

impl RecentlyMoved {
    /// The empty set.
    pub fn new() -> (set: Self)
        ensures
            set@ == Set::<Seq<char>>::empty(),
    {
        let set = RecentlyMoved { paths: Vec::new() };
        assert(set@ =~= Set::<Seq<char>>::empty());
        set
    }

    /// Whether the set holds a path.
    pub fn contains(&self, path: &str) -> (yes: bool)
        ensures
            yes == self@.contains(path@),
    {
        let wanted: String = path.to_owned();
        let mut i: usize = 0;
        while i < self.paths.len()
            invariant
                i <= self.paths.len(),
                wanted@ == path@,
                forall|j: int| 0 <= j < i ==> self.paths.deep_view()[j] != path@,
            decreases self.paths.len() - i,
        {
            if self.paths[i] == wanted {
                assert(self.paths.deep_view()[i as int] == path@);
                return true;
            }
            i += 1;
        }
        false
    }

    /// Adds a path.
    pub fn insert(&mut self, path: &str)
        ensures
            final(self)@ == old(self)@.insert(path@),
    {
        let ghost before = self.paths.deep_view();
        if !self.contains(path) {
            self.paths.push(path.to_owned());
            proof {
                let after = self.paths.deep_view();
                assert(after =~= before.push(path@));
                assert forall|p: Seq<char>| after.to_set().contains(p) <==> before.to_set().insert(
                    path@,
                ).contains(p) by {
                    if after.contains(p) {
                        let i = choose|i: int| 0 <= i < after.len() && after[i] == p;
                        if i < before.len() {
                            assert(before[i] == p);
                        }
                    }
                    if before.contains(p) {
                        let i = choose|i: int| 0 <= i < before.len() && before[i] == p;
                        assert(after[i] == p);
                    }
                    if p == path@ {
                        assert(after[before.len() as int] == p);
                    }
                }
                assert(self@ =~= old(self)@.insert(path@));
            }
        } else {
            assert(self@ =~= old(self)@.insert(path@));
        }
    }

    /// Takes a path out, and says whether it was in.
    pub fn remove(&mut self, path: &str) -> (was_in: bool)
        ensures
            was_in == old(self)@.contains(path@),
            final(self)@ == old(self)@.remove(path@),
    {
        let wanted: String = path.to_owned();
        let ghost before = self.paths.deep_view();
        let mut all: Vec<String> = Vec::new();
        core::mem::swap(&mut self.paths, &mut all);
        let mut kept: Vec<String> = Vec::new();
        let mut was_in: bool = false;
        for p in it: all
            invariant
                wanted@ == path@,
                it.seq().len() == before.len(),
                forall|j: int| 0 <= j < before.len() ==> (#[trigger] it.seq()[j])@ == before[j],
                was_in == exists|j: int| 0 <= j < it.index() && before[j] == path@,
                forall|j: int| 0 <= j < kept.len() ==> kept.deep_view()[j] != path@,
                forall|j: int| 0 <= j < kept.len() ==> before.contains(#[trigger] kept.deep_view()[j]),
                forall|j: int|
                    0 <= j < it.index() && before[j] != path@ ==> kept.deep_view().contains(
                        #[trigger] before[j],
                    ),
        {
            let ghost i = it.index();
            assert(p@ == before[i]);
            let ghost kept_before = kept.deep_view();
            if p == wanted {
                was_in = true;
            } else {
                kept.push(p);
                proof {
                    let now = kept.deep_view();
                    assert(now =~= kept_before.push(p@));
                    assert forall|j: int| 0 <= j < i + 1 && before[j] != path@ implies now.contains(
                        #[trigger] before[j],
                    ) by {
                        if j < i {
                            let w = choose|w: int|
                                0 <= w < kept_before.len() && kept_before[w] == before[j];
                            assert(now[w] == before[j]);
                        } else {
                            assert(now[kept_before.len() as int] == before[j]);
                        }
                    }
                    assert forall|j: int| 0 <= j < now.len() implies before.contains(
                        #[trigger] now[j],
                    ) by {
                        if j < kept_before.len() {
                            assert(now[j] == kept_before[j]);
                        }
                    }
                }
            }
        }
        self.paths = kept;
        proof {
            let after = self.paths.deep_view();
            assert forall|q: Seq<char>| after.to_set().contains(q) <==> before.to_set().remove(
                path@,
            ).contains(q) by {
                if after.contains(q) {
                    let w = choose|w: int| 0 <= w < after.len() && after[w] == q;
                    assert(before.contains(after[w]));
                }
                if before.contains(q) && q != path@ {
                    let w = choose|w: int| 0 <= w < before.len() && before[w] == q;
                    assert(after.contains(before[w]));
                }
            }
            assert(self@ =~= old(self)@.remove(path@));
            if was_in {
                let j = choose|j: int| 0 <= j < before.len() && before[j] == path@;
                assert(before.contains(path@));
            }
        }
        was_in
    }
}

/// What became of a notification.
#[derive(Debug, PartialEq, Eq)]
pub enum Outcome {
    /// A path of the notification is ignored: nothing was done.
    Ignored,
    /// The notification names no path: nothing was done.
    NoPath,
    /// A removal was buffered and the path left the cache.
    Removed { path: String },
    /// A creation was paired with a buffered removal.
    MoveDetected { from: String, to: String, score: u32 },
    /// A creation without a matching removal.
    Created { path: String },
    /// A change of name within one directory.
    Renamed { from: String, to: String },
    /// A change of name from one directory to another.
    Moved { from: String, to: String },
    /// A change of name of which only one path is known.
    RenameSinglePath { path: String },
    /// A change of name with no path, or with more than two.
    RenameUnexpectedPaths,
    /// A change that follows a move, or concerns a directory or the
    /// database file: not reported.
    Swallowed,
    /// Any other notification: reported as it is.
    Info,
}

/// An outcome as mathematical values.
pub ghost enum OutcomeView {
    Ignored,
    NoPath,
    Removed { path: Seq<char> },
    MoveDetected { from: Seq<char>, to: Seq<char>, score: u32 },
    Created { path: Seq<char> },
    Renamed { from: Seq<char>, to: Seq<char> },
    Moved { from: Seq<char>, to: Seq<char> },
    RenameSinglePath { path: Seq<char> },
    RenameUnexpectedPaths,
    Swallowed,
    Info,
}

impl View for Outcome {
    type V = OutcomeView;

    open spec fn view(&self) -> OutcomeView {
        match self {
            Outcome::Ignored => OutcomeView::Ignored,
            Outcome::NoPath => OutcomeView::NoPath,
            Outcome::Removed { path } => OutcomeView::Removed { path: path@ },
            Outcome::MoveDetected { from, to, score } => OutcomeView::MoveDetected {
                from: from@,
                to: to@,
                score: *score,
            },
            Outcome::Created { path } => OutcomeView::Created { path: path@ },
            Outcome::Renamed { from, to } => OutcomeView::Renamed { from: from@, to: to@ },
            Outcome::Moved { from, to } => OutcomeView::Moved { from: from@, to: to@ },
            Outcome::RenameSinglePath { path } => OutcomeView::RenameSinglePath { path: path@ },
            Outcome::RenameUnexpectedPaths => OutcomeView::RenameUnexpectedPaths,
            Outcome::Swallowed => OutcomeView::Swallowed,
            Outcome::Info => OutcomeView::Info,
        }
    }
}

/// What the watcher did with a notification: what became of it, and what
/// is to be written to the durable table.
#[derive(Debug, PartialEq, Eq)]
pub struct Dispatch {
    pub outcome: Outcome,
    pub batch: StoreBatch,
}

/// The state that the watcher works on: the tree of the cache with its next
/// id, the buffered removals with the age at which they are given up, and
/// the targets of recent moves.
pub ghost struct WatchView {
    pub cache: TreeState,
    pub deletes: Seq<FileEventView>,
    pub max_age: u64,
    pub moved: Set<Seq<char>>,
}

/// The state made of a cache, a buffer of removals and a set of recent
/// moves.
pub open spec fn watch_view(cache: &FileCache, heuristics: &MoveHeuristics, moved: &RecentlyMoved)
    -> WatchView {
    WatchView {
        cache: cache.state(),
        deletes: heuristics@,
        max_age: heuristics.max_age,
        moved: moved@,
    }
}

/// The tree after the subtree that a path leads to has been removed.
pub open spec fn tree_without(tree: Seq<EntryView>, path: Seq<char>) -> Seq<EntryView> {
    match resolve(tree, path) {
        Some(id) => remove_subtree(tree, id),
        None => tree,
    }
}

/// The record paths of the files that go with the subtree that a path leads
/// to.
pub open spec fn keys_under(tree: Seq<EntryView>, path: Seq<char>) -> Seq<Seq<char>> {
    match resolve(tree, path) {
        Some(id) => removed_keys(tree, id, tree.len() as int),
        None => Seq::empty(),
    }
}

/// Whether a look at the disk gave the record of a file that the tree can
/// take at the path.
pub open spec fn can_put(cache: TreeState, seen: ObservedPathView) -> bool {
    !seen.is_dir && seen.meta is Some && path_error(cache.tree, cache.next_id as u64, seen.path)
        is None
}

/// Whether a look at the disk found a directory that the tree can take at
/// the path.
pub open spec fn can_put_dir(cache: TreeState, seen: ObservedPathView) -> bool {
    seen.is_dir && path_error(cache.tree, cache.next_id as u64, seen.path) is None
}

/// The cache after what a look at the disk gave has been put at its path:
/// a directory as a directory, and a file as a file with its record. Where
/// the look gave neither, or the tree cannot take it, the cache is as
/// before.
pub open spec fn cache_with(cache: TreeState, seen: ObservedPathView) -> TreeState {
    if can_put(cache, seen) || can_put_dir(cache, seen) {
        let names = relative_names(cache.tree, seen.path);
        TreeState {
            tree: ensure_path_tree(
                cache.tree,
                cache.next_id,
                cache.tree[0].id,
                names,
                if seen.is_dir {
                    EntryKindView::Directory
                } else {
                    file_kind(seen.meta->0, seen.path)
                },
            ),
            next_id: cache.next_id + missing_names(cache.tree, cache.tree[0].id, names),
        }
    } else {
        cache
    }
}

/// The keys that leave the table when what a look at the disk gave is put
/// at its path. Where a record is stored, it is the key under which the
/// table held the file at that path before, if it is another than the path;
/// where a directory takes the place of a file, it is the key of that file.
pub open spec fn keys_replaced(cache: TreeState, seen: ObservedPathView) -> Seq<Seq<char>> {
    if can_put(cache, seen) {
        replaced_key(cache.tree, seen.path)
    } else if can_put_dir(cache, seen) {
        match key_at(cache.tree, seen.path) {
            Some(key) => seq![key],
            None => Seq::empty(),
        }
    } else {
        Seq::empty()
    }
}

/// The rows that store the record that a look at the disk gave, where the
/// tree took it, and no rows otherwise.
pub open spec fn rows_for(cache: TreeState, seen: ObservedPathView, rows: Seq<(Seq<char>, Seq<u8>)>)
    -> bool {
    if can_put(cache, seen) {
        rows == encoded_rows(seq![(seen.path, seen.meta->0)])
    } else {
        rows.len() == 0
    }
}

/// What the removal of a path does: the record that the cache held for it
/// is buffered with the removal, what has grown too old leaves the buffer,
/// the path and all below it leave the cache, and the keys of the files that
/// went are to be removed from the table.
pub open spec fn remove_applied(
    pre: WatchView,
    post: WatchView,
    path: Seq<char>,
    now: u64,
    batch: crate::file_cache::db::StoreBatchView,
) -> bool {
    let removal = FileEventView {
        path,
        kind: FileEventKind::Remove,
        meta: record_at(pre.cache.tree, path),
        time: now,
    };
    &&& post.cache == (TreeState { tree: tree_without(pre.cache.tree, path), ..pre.cache })
    &&& post.deletes == live_events(pre.deletes.push(removal), now, pre.max_age)
    &&& post.max_age == pre.max_age
    &&& post.moved == pre.moved
    &&& batch.removals == keys_under(pre.cache.tree, path)
    &&& batch.upserts.len() == 0
}

/// What the creation of a path does: the record that a look at the disk
/// gave is put into the cache and stored under the path, in place of what
/// the table held for that file under another key; the creation is then
/// held against
/// the buffered removals that are still young. Where one pairs with it, that
/// removal leaves the buffer, the path is remembered as the target of a
/// move, and the move is reported; otherwise the creation is reported.
pub open spec fn create_applied(
    pre: WatchView,
    post: WatchView,
    seen: ObservedPathView,
    now: u64,
    outcome: OutcomeView,
    batch: crate::file_cache::db::StoreBatchView,
) -> bool {
    let cache = cache_with(pre.cache, seen);
    let creation = FileEventView {
        path: seen.path,
        kind: FileEventKind::Create,
        meta: record_at(cache.tree, seen.path),
        time: now,
    };
    let live = live_events(pre.deletes, now, pre.max_age);
    &&& post.cache == cache
    &&& post.max_age == pre.max_age
    &&& batch.removals == keys_replaced(pre.cache, seen)
    &&& rows_for(pre.cache, seen, batch.upserts)
    &&& match best_match(live, creation, live.len() as int) {
        Some(i) => {
            &&& post.deletes == live.remove(i)
            &&& post.moved == pre.moved.insert(seen.path)
            &&& outcome == (OutcomeView::MoveDetected {
                from: live[i].path,
                to: seen.path,
                score: pair_score(live[i], creation) as u32,
            })
        },
        None => {
            &&& post.deletes == live
            &&& post.moved == pre.moved
            &&& outcome == (OutcomeView::Created { path: seen.path })
        },
    }
}

/// The components of the directory in which a path lies: its components
/// but for the last.
pub open spec fn parent_names(path: Seq<char>) -> Seq<Seq<char>> {
    let names = path_components(path);
    if names.len() == 0 {
        names
    } else {
        names.drop_last()
    }
}

/// Whether two paths lie in the same directory.
pub open spec fn same_parent(a: Seq<char>, b: Seq<char>) -> bool {
    parent_names(a) == parent_names(b)
}

/// What a change of name from one path to another does: the old path and
/// all below it leave the cache, the record that a look at the disk gave for
/// the new path is put into the cache, and the new path is remembered as the
/// target of a move. It is reported as a rename where both paths lie in one
/// directory, and as a move otherwise.
pub open spec fn rename_applied(
    pre: WatchView,
    post: WatchView,
    from: Seq<char>,
    to: ObservedPathView,
    outcome: OutcomeView,
    batch: crate::file_cache::db::StoreBatchView,
) -> bool {
    let without = TreeState { tree: tree_without(pre.cache.tree, from), ..pre.cache };
    &&& post.cache == cache_with(without, to)
    &&& post.deletes == pre.deletes
    &&& post.max_age == pre.max_age
    &&& post.moved == pre.moved.insert(to.path)
    &&& batch.removals == keys_under(pre.cache.tree, from) + keys_replaced(without, to)
    &&& rows_for(without, to, batch.upserts)
    &&& outcome == if same_parent(from, to.path) {
        OutcomeView::Renamed { from, to: to.path }
    } else {
        OutcomeView::Moved { from, to: to.path }
    }
}

/// Whether a path names the database file.
pub open spec fn is_database(path: Seq<char>) -> bool {
    file_name_of(path) == Some(DATABASE_FILE_NAME@)
}

/// Whether one of the paths gives reason to swallow a notification: it
/// names the database file, is a directory, or was the target of a recent
/// move. The paths are asked in their order, and the first that gives reason
/// ends the asking.
pub open spec fn gives_reason(paths: Seq<ObservedPathView>, moved: Set<Seq<char>>) -> bool
    decreases paths.len(),
{
    if paths.len() == 0 {
        false
    } else if is_database(paths[0].path) || paths[0].is_dir || moved.contains(paths[0].path) {
        true
    } else {
        gives_reason(paths.skip(1), moved)
    }
}

/// The recent moves after the paths have been asked: a path that was asked
/// for a recent move and was one has left the set.
pub open spec fn moves_left(paths: Seq<ObservedPathView>, moved: Set<Seq<char>>) -> Set<Seq<char>>
    decreases paths.len(),
{
    if paths.len() == 0 {
        moved
    } else if is_database(paths[0].path) || paths[0].is_dir {
        moved
    } else if moved.contains(paths[0].path) {
        moved.remove(paths[0].path)
    } else {
        moves_left(paths.skip(1), moved)
    }
}

/// Whether the patterns ignore one of the paths.
pub open spec fn any_ignored(patterns: Seq<Seq<char>>, paths: Seq<ObservedPathView>) -> bool {
    exists|i: int|
        0 <= i < paths.len() && ignores(patterns, (#[trigger] paths[i]).path, paths[i].is_dir)
}

/// Whether two paths lie in the same directory.
pub fn in_same_directory(a: &str, b: &str) -> (same: bool)
    ensures
        same == same_parent(a@, b@),
{
    let mut left = split_components(a);
    let mut right = split_components(b);
    left.pop();
    right.pop();
    assert(left.deep_view() =~= parent_names(a@));
    assert(right.deep_view() =~= parent_names(b@));
    if left.len() != right.len() {
        return false;
    }
    let mut i: usize = 0;
    while i < left.len()
        invariant
            i <= left.len(),
            left.len() == right.len(),
            left.deep_view() == parent_names(a@),
            right.deep_view() == parent_names(b@),
            forall|j: int| 0 <= j < i ==> left.deep_view()[j] == right.deep_view()[j],
        decreases left.len() - i,
    {
        if left[i] != right[i] {
            assert(left.deep_view()[i as int] != right.deep_view()[i as int]);
            return false;
        }
        i += 1;
    }
    assert(left.deep_view() =~= right.deep_view());
    true
}

/// Whether a path names the database file.
pub fn names_database(path: &str) -> (yes: bool)
    ensures
        yes == is_database(path@),
{
    match file_name(path) {
        Some(name) => name == DATABASE_FILE_NAME.to_owned(),
        None => false,
    }
}

/// Puts what a look at the disk gave into the cache, and returns what is
/// to be done to the table for it: the key to remove, where the table held
/// a file at the path under another key or a directory takes the place of
/// a file, and the record to store under its path. Both are empty where the
/// look gave nothing or the tree cannot take it.
pub fn put_observed(cache: &mut FileCache, seen: &ObservedPath) -> (staged: (
    Vec<FileCachePath>,
    Vec<(FileCachePath, FileMeta)>,
))
    requires
        old(cache).wf(),
    ensures
        final(cache).wf(),
        final(cache).root_id() == old(cache).root_id(),
        final(cache).state() == cache_with(old(cache).state(), seen@),
        staged.0.deep_view() == keys_replaced(old(cache).state(), seen@),
        staged.1.deep_view() == if can_put(old(cache).state(), seen@) {
            seq![(seen@.path, seen@.meta->0)]
        } else {
            Seq::empty()
        },
{
    let mut removed: Vec<FileCachePath> = Vec::new();
    let mut stored: Vec<(FileCachePath, FileMeta)> = Vec::new();
    assert(removed.deep_view() =~= Seq::<Seq<char>>::empty());
    assert(stored.deep_view() =~= Seq::<(Seq<char>, FileMetaView)>::empty());
    let before = cache.key_of(seen.path.as_str());
    if seen.is_dir {
        match cache.update_dir(seen.path.as_str()) {
            Ok(_) => {
                match before {
                    Some(key) => {
                        let ghost held = key@;
                        removed.push(key);
                        assert(removed.deep_view() =~= seq![held]);
                    },
                    None => {},
                }
            },
            Err(_) => {},
        }
        return (removed, stored);
    }
    match &seen.meta {
        Some(meta) => {
            match cache.update_file(seen.path.as_str(), meta.clone()) {
                Ok(_) => {
                    match before {
                        Some(key) => {
                            if key.0 != seen.path {
                                let ghost held = key@;
                                removed.push(key);
                                assert(removed.deep_view() =~= seq![held]);
                            }
                        },
                        None => {},
                    }
                    stored.push((FileCachePath::new(seen.path.as_str()), meta.clone()));
                    assert(stored.deep_view() =~= seq![(seen@.path, seen@.meta->0)]);
                },
                Err(_) => {},
            }
        },
        None => {},
    }
    (removed, stored)
}

/// Handles the removal of a path.
pub fn handle_remove_event(
    path: &str,
    cache: &mut FileCache,
    heuristics: &mut MoveHeuristics,
    now: u64,
) -> (batch: StoreBatch)
    requires
        old(cache).wf(),
    ensures
        final(cache).wf(),
        final(cache).root_id() == old(cache).root_id(),
        remove_applied(
            WatchView {
                cache: old(cache).state(),
                deletes: old(heuristics)@,
                max_age: old(heuristics).max_age,
                moved: Set::empty(),
            },
            WatchView {
                cache: final(cache).state(),
                deletes: final(heuristics)@,
                max_age: final(heuristics).max_age,
                moved: Set::empty(),
            },
            path@,
            now,
            batch@,
        ),
{
    let meta = cache.get(path);
    let removal = make_file_event(path.to_owned(), FileEventKind::Remove, meta, now);
    heuristics.add_remove(removal, now);
    let removed = cache.remove_file(path);
    let none: Vec<(FileCachePath, FileMeta)> = Vec::new();
    assert(none.deep_view() =~= Seq::<(Seq<char>, FileMetaView)>::empty());
    batch_commit(removed.as_slice(), none.as_slice())
}

/// Handles the creation of a path.
pub fn handle_create_event(
    seen: &ObservedPath,
    cache: &mut FileCache,
    heuristics: &mut MoveHeuristics,
    recently_moved: &mut RecentlyMoved,
    now: u64,
) -> (done: Dispatch)
    requires
        old(cache).wf(),
    ensures
        final(cache).wf(),
        final(cache).root_id() == old(cache).root_id(),
        create_applied(
            watch_view(old(cache), old(heuristics), old(recently_moved)),
            watch_view(final(cache), final(heuristics), final(recently_moved)),
            seen@,
            now,
            done.outcome@,
            done.batch@,
        ),
{
    let (removed, stored) = put_observed(cache, seen);
    let batch = batch_commit(removed.as_slice(), stored.as_slice());
    let meta = cache.get(seen.path.as_str());
    let creation = make_file_event(seen.path.clone(), FileEventKind::Create, meta, now);
    match heuristics.pair_create(&creation, now) {
        Some(pair) => {
            recently_moved.insert(seen.path.as_str());
            Dispatch {
                outcome: Outcome::MoveDetected {
                    from: pair.from.path,
                    to: pair.to.path,
                    score: pair.score,
                },
                batch,
            }
        },
        None => Dispatch { outcome: Outcome::Created { path: seen.path.clone() }, batch },
    }
}

/// Handles a change of name.
pub fn handle_modify_name_event(
    paths: &Vec<ObservedPath>,
    cache: &mut FileCache,
    recently_moved: &mut RecentlyMoved,
) -> (done: Dispatch)
    requires
        old(cache).wf(),
    ensures
        final(cache).wf(),
        final(cache).root_id() == old(cache).root_id(),
        paths.len() == 2 ==> rename_applied(
            WatchView {
                cache: old(cache).state(),
                deletes: Seq::empty(),
                max_age: 0,
                moved: old(recently_moved)@,
            },
            WatchView {
                cache: final(cache).state(),
                deletes: Seq::empty(),
                max_age: 0,
                moved: final(recently_moved)@,
            },
            paths[0]@.path,
            paths[1]@,
            done.outcome@,
            done.batch@,
        ),
        paths.len() != 2 ==> {
            &&& final(cache).state() == old(cache).state()
            &&& final(recently_moved)@ == old(recently_moved)@
            &&& done.batch@.removals.len() == 0
            &&& done.batch@.upserts.len() == 0
            &&& done.outcome@ == if paths.len() == 1 {
                OutcomeView::RenameSinglePath { path: paths[0]@.path }
            } else {
                OutcomeView::RenameUnexpectedPaths
            }
        },
{
    if paths.len() == 2 {
        let from = &paths[0];
        let to = &paths[1];
        let same = in_same_directory(from.path.as_str(), to.path.as_str());
        let mut removed = cache.remove_file(from.path.as_str());
        let ghost gone = removed.deep_view();
        let (mut replaced, stored) = put_observed(cache, to);
        let ghost rekeyed = replaced.deep_view();
        removed.append(&mut replaced);
        assert(removed.deep_view() =~= gone + rekeyed);
        recently_moved.insert(to.path.as_str());
        let batch = batch_commit(removed.as_slice(), stored.as_slice());
        let outcome = if same {
            Outcome::Renamed { from: from.path.clone(), to: to.path.clone() }
        } else {
            Outcome::Moved { from: from.path.clone(), to: to.path.clone() }
        };
        Dispatch { outcome, batch }
    } else {
        let batch = StoreBatch { removals: Vec::new(), upserts: Vec::new() };
        if paths.len() == 1 {
            Dispatch { outcome: Outcome::RenameSinglePath { path: paths[0].path.clone() }, batch }
        } else {
            Dispatch { outcome: Outcome::RenameUnexpectedPaths, batch }
        }
    }
}

/// Handles a notification that is no removal, creation or change of name:
/// it is swallowed where it is a change of unknown kind and one of its
/// paths gives reason, and reported otherwise. A path that was asked for a
/// recent move and was one leaves the set, whatever the kind.
pub fn handle_other_event(
    kind: WatchKind,
    paths: &Vec<ObservedPath>,
    recently_moved: &mut RecentlyMoved,
) -> (outcome: Outcome)
    ensures
        final(recently_moved)@ == moves_left(paths.deep_view(), old(recently_moved)@),
        outcome@ == if kind == WatchKind::ModifyAny && gives_reason(
            paths.deep_view(),
            old(recently_moved)@,
        ) {
            OutcomeView::Swallowed
        } else {
            OutcomeView::Info
        },
{
    let ghost all = paths.deep_view();
    let ghost before = recently_moved@;
    let mut reason: bool = false;
    let mut i: usize = 0;
    assert(all.skip(0) =~= all);
    while i < paths.len() && !reason
        invariant
            i <= paths.len(),
            all == paths.deep_view(),
            reason ==> gives_reason(all, before) && recently_moved@ == moves_left(all, before),
            !reason ==> {
                &&& recently_moved@ == before
                &&& gives_reason(all.skip(i as int), before) == gives_reason(all, before)
                &&& moves_left(all.skip(i as int), before) == moves_left(all, before)
            },
        decreases paths.len() - i + (if reason { 0int } else { 1int }),
    {
        let seen = &paths[i];
        proof {
            assert(all.skip(i as int)[0] == seen@);
            assert(all.skip(i as int).skip(1) =~= all.skip(i + 1));
        }
        if names_database(seen.path.as_str()) || seen.is_dir {
            reason = true;
        } else if recently_moved.remove(seen.path.as_str()) {
            reason = true;
        } else {
            assert(recently_moved@ =~= before);
            i += 1;
        }
    }
    match kind {
        WatchKind::ModifyAny => {
            if reason {
                Outcome::Swallowed
            } else {
                Outcome::Info
            }
        },
        _ => Outcome::Info,
    }
}

/// Whether the patterns ignore one of the paths of a notification.
pub fn is_ignored_event(ignore: &IgnoreConfig, paths: &Vec<ObservedPath>) -> (ignored: bool)
    ensures
        ignored == any_ignored(ignore@, paths.deep_view()),
{
    let mut i: usize = 0;
    while i < paths.len()
        invariant
            i <= paths.len(),
            forall|j: int|
                0 <= j < i ==> !ignores(
                    ignore@,
                    (#[trigger] paths.deep_view()[j]).path,
                    paths.deep_view()[j].is_dir,
                ),
        decreases paths.len() - i,
    {
        assert(paths.deep_view()[i as int] == paths[i as int]@);
        if ignore.is_ignored_as(paths[i].path.as_str(), paths[i].is_dir) {
            return true;
        }
        i += 1;
    }
    false
}

/// Whether nothing changed and nothing is to be written.
pub open spec fn nothing_done(
    pre: WatchView,
    post: WatchView,
    batch: crate::file_cache::db::StoreBatchView,
) -> bool {
    post == pre && batch.removals.len() == 0 && batch.upserts.len() == 0
}

/// What the watcher does with a notification. One with an ignored path is
/// dropped. A removal and a creation are handled for their first path, a
/// change of name for its two paths, and any other notification is
/// swallowed or reported.
pub open spec fn dispatched(
    pre: WatchView,
    post: WatchView,
    patterns: Seq<Seq<char>>,
    kind: WatchKind,
    paths: Seq<ObservedPathView>,
    now: u64,
    outcome: OutcomeView,
    batch: crate::file_cache::db::StoreBatchView,
) -> bool {
    if any_ignored(patterns, paths) {
        nothing_done(pre, post, batch) && outcome == OutcomeView::Ignored
    } else {
        match kind {
            WatchKind::Remove => if paths.len() == 0 {
                nothing_done(pre, post, batch) && outcome == OutcomeView::NoPath
            } else {
                remove_applied(pre, post, paths[0].path, now, batch) && outcome == (
                OutcomeView::Removed { path: paths[0].path })
            },
            WatchKind::Create => if paths.len() == 0 {
                nothing_done(pre, post, batch) && outcome == OutcomeView::NoPath
            } else {
                create_applied(pre, post, paths[0], now, outcome, batch)
            },
            WatchKind::ModifyName => if paths.len() == 2 {
                rename_applied(pre, post, paths[0].path, paths[1], outcome, batch)
            } else {
                nothing_done(pre, post, batch) && outcome == if paths.len() == 1 {
                    OutcomeView::RenameSinglePath { path: paths[0].path }
                } else {
                    OutcomeView::RenameUnexpectedPaths
                }
            },
            _ => {
                &&& post == (WatchView { moved: moves_left(paths, pre.moved), ..pre })
                &&& batch.removals.len() == 0
                &&& batch.upserts.len() == 0
                &&& outcome == if kind == WatchKind::ModifyAny && gives_reason(paths, pre.moved) {
                    OutcomeView::Swallowed
                } else {
                    OutcomeView::Info
                }
            },
        }
    }
}

/// Handles one notification: tells the cache and the move heuristics what
/// it means for them, and returns what became of it and what is to be
/// written to the durable table.
pub fn handle_event(
    event: &WatchEvent,
    cache: &mut FileCache,
    heuristics: &mut MoveHeuristics,
    recently_moved: &mut RecentlyMoved,
    ignore: &IgnoreConfig,
    now: u64,
) -> (done: Dispatch)
    requires
        old(cache).wf(),
    ensures
        final(cache).wf(),
        final(cache).root_id() == old(cache).root_id(),
        dispatched(
            watch_view(old(cache), old(heuristics), old(recently_moved)),
            watch_view(final(cache), final(heuristics), final(recently_moved)),
            ignore@,
            event.kind,
            event.paths.deep_view(),
            now,
            done.outcome@,
            done.batch@,
        ),
{
    let ghost paths = event.paths.deep_view();
    if is_ignored_event(ignore, &event.paths) {
        return Dispatch {
            outcome: Outcome::Ignored,
            batch: StoreBatch { removals: Vec::new(), upserts: Vec::new() },
        };
    }
    match event.kind {
        WatchKind::Remove => {
            if event.paths.len() == 0 {
                Dispatch {
                    outcome: Outcome::NoPath,
                    batch: StoreBatch { removals: Vec::new(), upserts: Vec::new() },
                }
            } else {
                assert(paths[0] == event.paths[0]@);
                let path = &event.paths[0].path;
                let batch = handle_remove_event(path.as_str(), cache, heuristics, now);
                Dispatch { outcome: Outcome::Removed { path: path.clone() }, batch }
            }
        },
        WatchKind::Create => {
            if event.paths.len() == 0 {
                Dispatch {
                    outcome: Outcome::NoPath,
                    batch: StoreBatch { removals: Vec::new(), upserts: Vec::new() },
                }
            } else {
                assert(paths[0] == event.paths[0]@);
                handle_create_event(&event.paths[0], cache, heuristics, recently_moved, now)
            }
        },
        WatchKind::ModifyName => {
            proof {
                if event.paths.len() >= 1 {
                    assert(paths[0] == event.paths[0]@);
                }
                if event.paths.len() >= 2 {
                    assert(paths[1] == event.paths[1]@);
                }
            }
            handle_modify_name_event(&event.paths, cache, recently_moved)
        },
        _ => {
            let outcome = handle_other_event(event.kind, &event.paths, recently_moved);
            Dispatch { outcome, batch: StoreBatch { removals: Vec::new(), upserts: Vec::new() } }
        },
    }
}

} // verus!
