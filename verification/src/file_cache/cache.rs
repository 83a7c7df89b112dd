//! The path tree cache: an arena of entries ordered by id, in which every
//! entry but the root names its parent by id.

use crate::file_cache::entry::entries_view;
use crate::file_cache::entry::CacheError;
use crate::file_cache::entry::Entry;
use crate::file_cache::entry::EntryKind;
use crate::file_cache::entry::EntryKindView;
use crate::file_cache::entry::EntryView;
use crate::file_cache::meta::FileCachePath;
use crate::file_cache::meta::FileMeta;
use crate::file_cache::laws::mirrors;
use crate::file_cache::mirror::law_load_mirrors;
use crate::file_cache::mirror::names_total;
use crate::file_cache::mirror::scan_is_plain;
use crate::paths::join;
use crate::paths::join_components;
use crate::paths::split_components;
use crate::file_cache::tree::names_to;
use crate::file_cache::tree::child_index;
use crate::file_cache::tree::child_of;
use crate::file_cache::tree::ensure_path_id;
use crate::file_cache::tree::ensure_path_tree;
use crate::file_cache::tree::has_child;
use crate::file_cache::tree::has_id;
use crate::file_cache::tree::in_subtree;
use crate::file_cache::tree::index_of;
use crate::file_cache::tree::drop_record;
use crate::file_cache::tree::is_child_at;
use crate::file_cache::tree::is_leaf;
use crate::file_cache::tree::kept_entries;
use crate::file_cache::tree::lemma_child_unique;
use crate::file_cache::tree::lemma_ensure_path;
use crate::file_cache::tree::lemma_fresh_id_has_no_child;
use crate::file_cache::tree::lemma_index_of;
use crate::file_cache::tree::parent_index;
use crate::file_cache::tree::lemma_names_to_step;
use crate::file_cache::tree::lemma_parent_index;
use crate::file_cache::tree::lemma_push_wf;
use crate::file_cache::tree::lemma_put_route;
use crate::file_cache::tree::lemma_remove_subtree_wf;
use crate::file_cache::tree::lemma_resolve_split;
use crate::file_cache::tree::lemma_update_kind_wf;
use crate::file_cache::tree::missing_names;
use crate::file_cache::tree::new_directory;
use crate::file_cache::tree::path_error;
use crate::file_cache::tree::record_at;
use crate::file_cache::tree::relative_names;
use crate::file_cache::tree::remove_subtree;
use crate::file_cache::tree::removed_keys;
use crate::file_cache::tree::resolve;
use crate::file_cache::tree::resolve_from;
use crate::file_cache::tree::stays;
use crate::file_cache::tree::tree_wf;
use crate::file_cache::tree::upsert_error;
use crate::file_cache::tree::upsert_id;
use crate::file_cache::tree::upsert_next_id;
use crate::file_cache::tree::upsert_tree;
use crate::file_cache::tree::apply_ops;
use crate::file_cache::tree::file_kind;
use crate::file_cache::tree::file_records;
use crate::file_cache::tree::key_at;
use crate::file_cache::tree::put_ops;
use crate::file_cache::tree::TreeState;
use vstd::prelude::*;

verus! {

/// The path tree cache.
pub struct FileCache {
    entries: Vec<Entry>,
    root: u64,
    next_id: u64,
}

impl View for FileCache {
    type V = Seq<EntryView>;

    closed spec fn view(&self) -> Seq<EntryView> {
        entries_view(self.entries@)
    }
}

impl FileCache {
    /// The id of the root.
    pub closed spec fn root_id(&self) -> u64 {
        self.root
    }

    /// The id that the next new entry gets.
    pub closed spec fn next_id(&self) -> u64 {
        self.next_id
    }

    /// The tree with the id that its next new entry gets.
    pub open spec fn state(&self) -> TreeState {
        TreeState { tree: self@, next_id: self.next_id() as int }
    }

    /// The invariant of the cache: its tree is well formed, the root's id is
    /// the one it was created with, and every id in use lies below the next
    /// one to be given out.
    pub open spec fn wf(&self) -> bool {
        &&& tree_wf(self@)
        &&& self@[0].id == self.root_id()
        &&& forall|i: int| 0 <= i < self@.len() ==> (#[trigger] self@[i]).id < self.next_id()
    }

    /// A cache that holds only its root, a directory with the given name and
    /// the id 0.
    pub fn new_root(name: &str) -> (cache: Self)
        ensures
            cache.wf(),
            cache.root_id() == 0,
            cache.next_id() == 1,
            cache@ == seq![
                EntryView { id: 0, name: name@, parent: None, kind: EntryKindView::Directory },
            ],
    {
        let root = Entry { id: 0, name: name.to_owned(), parent: None, kind: EntryKind::Directory };
        let mut entries: Vec<Entry> = Vec::new();
        entries.push(root);
        let cache = FileCache { entries, root: 0, next_id: 1 };
        assert(cache@ =~= seq![
            EntryView { id: 0, name: name@, parent: None, kind: EntryKindView::Directory },
        ]);
        cache
    }

    /// A cache that holds only its root, with the given id, from which on
    /// ids are given out. The greatest id leaves none to follow it and is
    /// refused.
    pub fn with_root_id(name: &str, root_id: u64) -> (result: Result<Self, CacheError>)
        ensures
            match result {
                Ok(cache) => {
                    &&& root_id < u64::MAX
                    &&& cache.wf()
                    &&& cache.root_id() == root_id
                    &&& cache.next_id() == root_id + 1
                    &&& cache@ == seq![
                        EntryView {
                            id: root_id,
                            name: name@,
                            parent: None,
                            kind: EntryKindView::Directory,
                        },
                    ]
                },
                Err(e) => e == CacheError::IdsExhausted && root_id == u64::MAX,
            },
    {
        if root_id == u64::MAX {
            return Err(CacheError::IdsExhausted);
        }
        let root = Entry {
            id: root_id,
            name: name.to_owned(),
            parent: None,
            kind: EntryKind::Directory,
        };
        let mut entries: Vec<Entry> = Vec::new();
        entries.push(root);
        let cache = FileCache { entries, root: root_id, next_id: root_id + 1 };
        assert(cache@ =~= seq![
            EntryView {
                id: root_id,
                name: name@,
                parent: None,
                kind: EntryKindView::Directory,
            },
        ]);
        Ok(cache)
    }

    /// The id of the root.
    pub fn root(&self) -> (id: u64)
        ensures
            id == self.root_id(),
    {
        self.root
    }

    /// The id that the next new entry gets.
    pub fn next_free_id(&self) -> (id: u64)
        ensures
            id == self.next_id(),
    {
        self.next_id
    }

    /// The number of entries, the root included.
    pub fn len(&self) -> (n: usize)
        ensures
            n == self@.len(),
    {
        self.entries.len()
    }

    /// The position of the entry with the given id.
    fn find_index(&self, id: u64) -> (found: Option<usize>)
        requires
            self.wf(),
        ensures
            match found {
                Some(i) => i < self@.len() && self@[i as int].id == id && index_of(self@, id) == i,
                None => !has_id(self@, id),
            },
    {
        let mut low: usize = 0;
        let mut high: usize = self.entries.len();
        while low < high
            invariant
                self.wf(),
                low <= high <= self.entries.len(),
                forall|j: int| 0 <= j < low ==> (#[trigger] self@[j]).id < id,
                forall|j: int| high <= j < self@.len() ==> (#[trigger] self@[j]).id > id,
            decreases high - low,
        {
            let mid: usize = low + (high - low) / 2;
            let here: u64 = self.entries[mid].id;
            assert(self@[mid as int].id == here);
            if here == id {
                proof {
                    lemma_index_of(self@, mid as int);
                }
                return Some(mid);
            } else if here < id {
                assert forall|j: int| 0 <= j < mid + 1 implies (#[trigger] self@[j]).id < id by {
                    if j < mid {
                        assert(self@[j].id < self@[mid as int].id);
                    }
                }
                low = mid + 1;
            } else {
                assert forall|j: int| mid <= j < self@.len() implies (#[trigger] self@[j]).id
                    > id by {
                    if j > mid {
                        assert(self@[mid as int].id < self@[j].id);
                    }
                }
                high = mid;
            }
        }
        None
    }

    /// Whether an entry has the given id.
    pub fn contains(&self, id: u64) -> (yes: bool)
        requires
            self.wf(),
        ensures
            yes == has_id(self@, id),
    {
        self.find_index(id).is_some()
    }

    /// The entry with the given id, if the tree holds one.
    pub fn entry(&self, id: u64) -> (found: Option<&Entry>)
        requires
            self.wf(),
        ensures
            match found {
                Some(e) => has_id(self@, id) && e@ == self@[index_of(self@, id)],
                None => !has_id(self@, id),
            },
    {
        match self.find_index(id) {
            Some(i) => Some(&self.entries[i]),
            None => None,
        }
    }

    /// The entry at a position.
    pub(crate) fn entry_at(&self, i: usize) -> (e: &Entry)
        requires
            i < self@.len(),
        ensures
            e@ == self@[i as int],
    {
        &self.entries[i]
    }

    /// The position of the child of `parent` with the given name.
    fn find_child(&self, parent: u64, name: &String) -> (found: Option<usize>)
        requires
            self.wf(),
        ensures
            match found {
                Some(i) => is_child_at(self@, i as int, parent, name@) && child_of(
                    self@,
                    parent,
                    name@,
                ) == Some(self@[i as int].id),
                None => !has_child(self@, parent, name@),
            },
    {
        let mut i: usize = 1;
        while i < self.entries.len()
            invariant
                self.wf(),
                1 <= i,
                forall|j: int| 0 < j < i ==> !is_child_at(self@, j, parent, name@),
            decreases self.entries.len() - i,
        {
            let e = &self.entries[i];
            assert(e@ == self@[i as int]);
            let same_parent = match e.parent {
                Some(p) => p == parent,
                None => false,
            };
            if same_parent && e.name == *name {
                proof {
                    lemma_child_unique(self@, i as int, parent, name@);
                }
                return Some(i);
            }
            i += 1;
        }
        None
    }

    /// The position of the entry that a path leads to.
    pub(crate) fn resolve_index(&self, path: &str) -> (found: Option<usize>)
        requires
            self.wf(),
        ensures
            match found {
                Some(i) => i < self@.len() && resolve(self@, path@) == Some(self@[i as int].id)
                    && index_of(self@, self@[i as int].id) == i,
                None => resolve(self@, path@) is None,
            },
    {
        let names = split_components(path);
        let ghost all = names.deep_view();
        let mut i: usize = 0;
        if names.len() > 0 && names[0] == self.entries[0].name {
            assert(all[0] == names[0]@);
            assert(self@[0].name == self.entries[0].name@);
            i = 1;
        } else {
            assert(all.skip(0) =~= all);
            if names.len() > 0 {
                assert(all[0] == names[0]@);
                assert(self@[0].name == self.entries[0].name@);
            }
        }
        let mut at: usize = 0;
        while i < names.len()
            invariant
                self.wf(),
                all == names.deep_view(),
                i <= names.len(),
                at < self@.len(),
                resolve_from(self@, self@[at as int].id, all.skip(i as int)) == resolve(
                    self@,
                    path@,
                ),
            decreases names.len() - i,
        {
            assert(all.skip(i as int)[0] == names[i as int]@);
            assert(all.skip(i as int).skip(1) =~= all.skip(i + 1));
            assert(self@[at as int].id == self.entries[at as int].id);
            match self.find_child(self.entries[at].id, &names[i]) {
                Some(child) => {
                    at = child;
                },
                None => {
                    return None;
                },
            }
            i += 1;
        }
        proof {
            lemma_index_of(self@, at as int);
        }
        Some(at)
    }

    /// The id of the entry that a path leads to. The walk starts at the root;
    /// a first component equal to the root's name is passed over, and each
    /// further component names a child of the entry reached so far.
    pub fn find_entry_by_path(&self, path: &str) -> (found: Option<u64>)
        requires
            self.wf(),
        ensures
            found == resolve(self@, path@),
    {
        match self.resolve_index(path) {
            Some(i) => {
                assert(self@[i as int].id == self.entries[i as int].id);
                Some(self.entries[i].id)
            },
            None => None,
        }
    }

    /// A copy of the record of the file that a path leads to.
    pub fn get(&self, path: &str) -> (found: Option<FileMeta>)
        requires
            self.wf(),
        ensures
            match found {
                Some(meta) => record_at(self@, path@) == Some(meta@),
                None => record_at(self@, path@) is None,
            },
    {
        match self.resolve_index(path) {
            Some(i) => {
                assert(self@[i as int].kind == self.entries[i as int].kind@);
                match &self.entries[i].kind {
                    EntryKind::File { record, key } => Some(record.clone()),
                    EntryKind::Directory => None,
                }
            },
            None => None,
        }
    }

    /// A copy of the key under which the table holds the record of the file
    /// that a path leads to.
    pub fn key_of(&self, path: &str) -> (found: Option<FileCachePath>)
        requires
            self.wf(),
        ensures
            found.deep_view() == key_at(self@, path@),
    {
        match self.resolve_index(path) {
            Some(i) => {
                assert(self@[i as int].kind == self.entries[i as int].kind@);
                match &self.entries[i].kind {
                    EntryKind::File { record, key } => Some(key.clone()),
                    EntryKind::Directory => None,
                }
            },
            None => None,
        }
    }

    /// Puts an entry of the given kind under `parent` with the given name.
    fn upsert(&mut self, name: &str, parent: u64, kind: EntryKind) -> (result: Result<
        u64,
        CacheError,
    >)
        requires
            old(self).wf(),
        ensures
            final(self).wf(),
            final(self).root_id() == old(self).root_id(),
            match result {
                Ok(id) => {
                    &&& upsert_error(old(self)@, old(self).next_id(), name@, parent) is None
                    &&& id == upsert_id(old(self)@, old(self).next_id(), name@, parent)
                    &&& final(self)@ == upsert_tree(
                        old(self)@,
                        old(self).next_id(),
                        name@,
                        parent,
                        kind@,
                    )
                    &&& final(self).next_id() == upsert_next_id(
                        old(self)@,
                        old(self).next_id(),
                        name@,
                        parent,
                    )
                },
                Err(e) => {
                    &&& upsert_error(old(self)@, old(self).next_id(), name@, parent) == Some(e)
                    &&& final(self)@ == old(self)@
                    &&& final(self).next_id() == old(self).next_id()
                },
            },
    {
        if self.find_index(parent).is_none() {
            return Err(CacheError::ParentMissing);
        }
        let owned: String = name.to_owned();
        match self.find_child(parent, &owned) {
            Some(i) => {
                let id: u64 = self.entries[i].id;
                proof {
                    lemma_update_kind_wf(self@, i as int, kind@);
                }
                let ghost before = self@;
                self.entries[i].kind = kind;
                assert(self@ =~= before.update(i as int, EntryView { kind: kind@, ..before[i as int] }));
                Ok(id)
            },
            None => {
                if self.next_id == u64::MAX {
                    return Err(CacheError::IdsExhausted);
                }
                let id: u64 = self.next_id;
                let e = Entry { id, name: owned, parent: Some(parent), kind };
                proof {
                    lemma_push_wf(self@, e@);
                }
                let ghost before = self@;
                self.entries.push(e);
                self.next_id = id + 1;
                assert(self@ =~= before.push(e@));
                Ok(id)
            },
        }
    }

    /// Records a file under `parent`. A child of that name already there
    /// keeps its id and takes the record in place of what it held; otherwise
    /// a new entry with the next id is added. Nothing else changes. The key
    /// under which the table holds the record is the record's own path.
    pub fn update_or_insert_file(&mut self, name: &str, parent: u64, record: FileMeta) -> (result:
        Result<u64, CacheError>)
        requires
            old(self).wf(),
        ensures
            final(self).wf(),
            final(self).root_id() == old(self).root_id(),
            match result {
                Ok(id) => {
                    &&& upsert_error(old(self)@, old(self).next_id(), name@, parent) is None
                    &&& id == upsert_id(old(self)@, old(self).next_id(), name@, parent)
                    &&& final(self)@ == upsert_tree(
                        old(self)@,
                        old(self).next_id(),
                        name@,
                        parent,
                        file_kind(record@, record@.path),
                    )
                    &&& final(self).next_id() == upsert_next_id(
                        old(self)@,
                        old(self).next_id(),
                        name@,
                        parent,
                    )
                },
                Err(e) => {
                    &&& upsert_error(old(self)@, old(self).next_id(), name@, parent) == Some(e)
                    &&& final(self)@ == old(self)@
                    &&& final(self).next_id() == old(self).next_id()
                },
            },
    {
        let key = record.path.clone();
        self.upsert(name, parent, EntryKind::File { record, key })
    }

    /// Records a directory under `parent`, as `update_or_insert_file` records
    /// a file.
    pub fn add_dir(&mut self, name: &str, parent: u64) -> (result: Result<u64, CacheError>)
        requires
            old(self).wf(),
        ensures
            final(self).wf(),
            final(self).root_id() == old(self).root_id(),
            match result {
                Ok(id) => {
                    &&& upsert_error(old(self)@, old(self).next_id(), name@, parent) is None
                    &&& id == upsert_id(old(self)@, old(self).next_id(), name@, parent)
                    &&& final(self)@ == upsert_tree(
                        old(self)@,
                        old(self).next_id(),
                        name@,
                        parent,
                        EntryKindView::Directory,
                    )
                    &&& final(self).next_id() == upsert_next_id(
                        old(self)@,
                        old(self).next_id(),
                        name@,
                        parent,
                    )
                },
                Err(e) => {
                    &&& upsert_error(old(self)@, old(self).next_id(), name@, parent) == Some(e)
                    &&& final(self)@ == old(self)@
                    &&& final(self).next_id() == old(self).next_id()
                },
            },
    {
        self.upsert(name, parent, EntryKind::Directory)
    }

    /// For each position, whether the entry there is `top` or lies below it.
    fn subtree_flags(&self, top: u64) -> (flags: Vec<bool>)
        requires
            self.wf(),
        ensures
            flags.len() == self@.len(),
            forall|i: int| 0 <= i < flags.len() ==> flags[i] == in_subtree(self@, top, i),
    {
        let n: usize = self.entries.len();
        let mut flags: Vec<bool> = Vec::new();
        let mut i: usize = 0;
        while i < n
            invariant
                self.wf(),
                n == self@.len(),
                i <= n,
                flags.len() == i,
                forall|j: int| 0 <= j < i ==> flags[j] == in_subtree(self@, top, j),
            decreases n - i,
        {
            let e = &self.entries[i];
            assert(e@ == self@[i as int]);
            let inside: bool = if e.id == top {
                true
            } else {
                match e.parent {
                    Some(p) => {
                        proof {
                            if i > 0 {
                                lemma_parent_index(self@, i as int);
                            }
                        }
                        match self.find_index(p) {
                            Some(j) => j < i && flags[j],
                            None => false,
                        }
                    },
                    None => false,
                }
            };
            flags.push(inside);
            i += 1;
        }
        flags
    }

    /// Removes the entry with the given id and every entry below it, and
    /// returns the keys of the files removed: the keys under which the table
    /// holds their records. The root itself stays:
    /// removing it removes all that lies below it. An id that is not in the
    /// tree removes nothing.
    pub fn remove_entry(&mut self, id: u64) -> (removed: Vec<FileCachePath>)
        requires
            old(self).wf(),
        ensures
            final(self).wf(),
            final(self).root_id() == old(self).root_id(),
            final(self).next_id() == old(self).next_id(),
            final(self)@ == remove_subtree(old(self)@, id),
            removed.deep_view() == removed_keys(old(self)@, id, old(self)@.len() as int),
    {
        let flags = self.subtree_flags(id);
        let ghost tree = self@;
        let n: usize = self.entries.len();
        let mut all: Vec<Entry> = Vec::new();
        core::mem::swap(&mut self.entries, &mut all);
        let mut kept: Vec<Entry> = Vec::new();
        let mut removed: Vec<FileCachePath> = Vec::new();
        assert(removed.deep_view() =~= removed_keys(tree, id, 0));
        assert(entries_view(kept@) =~= kept_entries(tree, id, 0));
        let mut i: usize = 0;
        for e in it: all
            invariant
                i == it.index(),
                n == tree.len(),
                flags.len() == n,
                entries_view(it.seq()) == tree,
                forall|j: int| 0 <= j < n ==> flags[j] == in_subtree(tree, id, j),
                entries_view(kept@) == kept_entries(tree, id, i as int),
                removed.deep_view() == removed_keys(tree, id, i as int),
        {
            assert(e@ == tree[i as int]);
            let ghost kept_before = entries_view(kept@);
            let ghost removed_before = removed.deep_view();
            if i > 0 && flags[i] {
                match e.kind {
                    EntryKind::File { record, key } => {
                        removed.push(key);
                        assert(removed.deep_view() =~= removed_before.push(key@));
                    },
                    EntryKind::Directory => {},
                }
            } else {
                kept.push(e);
                assert(entries_view(kept@) =~= kept_before.push(e@));
            }
            i += 1;
        }
        proof {
            lemma_remove_subtree_wf(tree, id);
        }
        self.entries = kept;
        assert forall|k: int| 0 <= k < self@.len() implies (#[trigger] self@[k]).id
            < self.next_id() by {
            assert(has_id(tree, self@[k].id));
            let j = choose|j: int| 0 <= j < tree.len() && #[trigger] tree[j].id == self@[k].id;
            assert(tree[j].id < self.next_id());
        }
        removed
    }

    /// Whether an entry lies below the entry with the given id.
    pub fn has_entry_below(&self, id: u64) -> (below: bool)
        ensures
            below == !is_leaf(self@, id),
    {
        let mut i: usize = 1;
        while i < self.entries.len()
            invariant
                1 <= i,
                forall|k: int| 0 < k < i && k < self@.len() ==> (#[trigger] self@[k]).parent != Some(
                    id,
                ),
            decreases self.entries.len() - i,
        {
            assert(self@[i as int].parent == self.entries[i as int].parent);
            match self.entries[i].parent {
                Some(p) => {
                    if p == id {
                        return true;
                    }
                },
                None => {},
            }
            i += 1;
        }
        false
    }

    /// Drops what the entry with the given id holds, and returns the key of
    /// its record where it is a file. Where no entry lies below it the entry
    /// goes; where one does it stays as a directory, so that what lies below
    /// keeps its place. The root, and an id that is not in the tree, change
    /// nothing.
    pub fn drop_record(&mut self, id: u64) -> (key: Option<FileCachePath>)
        requires
            old(self).wf(),
        ensures
            final(self).wf(),
            final(self).root_id() == old(self).root_id(),
            final(self).next_id() == old(self).next_id(),
            final(self)@ == drop_record(old(self)@, id),
            key.deep_view() == if has_id(old(self)@, id) {
                match old(self)@[index_of(old(self)@, id)].kind {
                    EntryKindView::File { record, key } => Some(key),
                    EntryKindView::Directory => None,
                }
            } else {
                None
            },
    {
        let i: usize = match self.find_index(id) {
            Some(i) => i,
            None => {
                return None;
            },
        };
        assert(self@[i as int].kind == self.entries[i as int].kind@);
        let key = match &self.entries[i].kind {
            EntryKind::File { record, key } => Some(key.clone()),
            EntryKind::Directory => None,
        };
        if id == self.root {
            return key;
        }
        if self.has_entry_below(id) {
            proof {
                lemma_update_kind_wf(self@, i as int, EntryKindView::Directory);
            }
            let ghost before = self@;
            self.entries[i].kind = EntryKind::Directory;
            assert(self@ =~= before.update(
                i as int,
                EntryView { kind: EntryKindView::Directory, ..before[i as int] },
            ));
        } else {
            self.remove_entry(id);
        }
        key
    }

    /// Removes the entry that a path leads to, with all that lies below it,
    /// and returns the keys of the files removed. A path that leads
    /// nowhere removes nothing.
    pub fn remove_file(&mut self, path: &str) -> (removed: Vec<FileCachePath>)
        requires
            old(self).wf(),
        ensures
            final(self).wf(),
            final(self).root_id() == old(self).root_id(),
            final(self).next_id() == old(self).next_id(),
            match resolve(old(self)@, path@) {
                Some(id) => {
                    &&& final(self)@ == remove_subtree(old(self)@, id)
                    &&& removed.deep_view() == removed_keys(
                        old(self)@,
                        id,
                        old(self)@.len() as int,
                    )
                },
                None => final(self)@ == old(self)@ && removed.deep_view() == Seq::<
                    Seq<char>,
                >::empty(),
            },
    {
        match self.find_entry_by_path(path) {
            Some(id) => self.remove_entry(id),
            None => {
                let removed: Vec<FileCachePath> = Vec::new();
                assert(removed.deep_view() =~= Seq::<Seq<char>>::empty());
                removed
            },
        }
    }

    /// Descends from the root through `names[start..stop]` as far as entries
    /// exist. Returns the position reached and the index of the first name
    /// that has no entry, or `stop`.
    fn descend(&self, names: &Vec<String>, start: usize, stop: usize) -> (reached: (usize, usize))
        requires
            self.wf(),
            start <= stop <= names.len(),
        ensures
            reached.0 < self@.len(),
            start <= reached.1 <= stop,
            index_of(self@, self@[reached.0 as int].id) == reached.0,
            has_id(self@, self@[reached.0 as int].id),
            resolve_from(
                self@,
                self@[0].id,
                names.deep_view().subrange(start as int, reached.1 as int),
            ) == Some(self@[reached.0 as int].id),
            reached.1 < stop ==> !has_child(
                self@,
                self@[reached.0 as int].id,
                names.deep_view()[reached.1 as int],
            ),
    {
        let ghost all = names.deep_view();
        let ghost root = self@[0].id;
        let mut at: usize = 0;
        let mut i: usize = start;
        let mut blocked: bool = false;
        assert(all.subrange(start as int, start as int).len() == 0);
        while i < stop && !blocked
            invariant
                self.wf(),
                all == names.deep_view(),
                root == self@[0].id,
                start <= i <= stop <= names.len(),
                at < self@.len(),
                resolve_from(self@, root, all.subrange(start as int, i as int)) == Some(
                    self@[at as int].id,
                ),
                blocked ==> i < stop && !has_child(self@, self@[at as int].id, all[i as int]),
            decreases stop - i + (if blocked { 0int } else { 1int }),
        {
            assert(all[i as int] == names[i as int]@);
            assert(self@[at as int].id == self.entries[at as int].id);
            match self.find_child(self.entries[at].id, &names[i]) {
                Some(child) => {
                    proof {
                        let longer = all.subrange(start as int, i + 1);
                        assert(longer.take(i - start) =~= all.subrange(start as int, i as int));
                        assert(longer.skip(i - start) =~= seq![all[i as int]]);
                        lemma_resolve_split(self@, root, longer, i - start);
                        assert(seq![all[i as int]].skip(1).len() == 0);
                        assert(resolve_from(self@, self@[child as int].id, seq![all[i as int]].skip(1))
                            == Some(self@[child as int].id));
                    }
                    at = child;
                    i += 1;
                },
                None => {
                    blocked = true;
                },
            }
        }
        proof {
            lemma_index_of(self@, at as int);
        }
        (at, i)
    }

    /// Creates a directory for each of `names[first..last]`, the first under
    /// `parent` and each further one under the one before it, and returns
    /// the id of the entry under which `names[last]` belongs.
    fn create_dirs(
        &mut self,
        names: &Vec<String>,
        first: usize,
        last: usize,
        parent: u64,
        Ghost(kind): Ghost<EntryKindView>,
    ) -> (innermost: u64)
        requires
            old(self).wf(),
            first <= last < names.len(),
            has_id(old(self)@, parent),
            !has_child(old(self)@, parent, names.deep_view()[first as int]),
            old(self).next_id() + (last - first) < u64::MAX,
        ensures
            final(self).wf(),
            final(self).root_id() == old(self).root_id(),
            final(self)@[0] == old(self)@[0],
            final(self).next_id() == old(self).next_id() + (last - first),
            has_id(final(self)@, innermost),
            !has_child(final(self)@, innermost, names.deep_view()[last as int]),
            ensure_path_tree(
                final(self)@,
                final(self).next_id() as int,
                innermost,
                names.deep_view().skip(last as int),
                kind,
            ) == ensure_path_tree(
                old(self)@,
                old(self).next_id() as int,
                parent,
                names.deep_view().skip(first as int),
                kind,
            ),
            ensure_path_id(
                final(self)@,
                final(self).next_id() as int,
                innermost,
                names.deep_view().skip(last as int),
            ) == ensure_path_id(
                old(self)@,
                old(self).next_id() as int,
                parent,
                names.deep_view().skip(first as int),
            ),
    {
        let ghost all = names.deep_view();
        let ghost target = ensure_path_tree(self@, self.next_id as int, parent, all.skip(first as int), kind);
        let ghost target_id = ensure_path_id(self@, self.next_id as int, parent, all.skip(first as int));
        let ghost end = self.next_id + (last - first);
        let ghost root_entry = self@[0];
        let mut cur: u64 = parent;
        let mut i: usize = first;
        while i < last
            invariant
                self.wf(),
                self@[0] == root_entry,
                self.root == old(self).root,
                all == names.deep_view(),
                first <= i <= last < names.len(),
                has_id(self@, cur),
                !has_child(self@, cur, all[i as int]),
                self.next_id + (last - i) == end,
                end < u64::MAX,
                ensure_path_tree(self@, self.next_id as int, cur, all.skip(i as int), kind)
                    == target,
                ensure_path_id(self@, self.next_id as int, cur, all.skip(i as int)) == target_id,
            decreases last - i,
        {
            let ghost before = self@;
            let id: u64 = self.next_id;
            let dir = Entry {
                id,
                name: names[i].clone(),
                parent: Some(cur),
                kind: EntryKind::Directory,
            };
            proof {
                assert(all.skip(i as int)[0] == names[i as int]@);
                assert(all.skip(i as int).skip(1) =~= all.skip(i + 1));
                assert(all.skip(i as int).len() == names.len() - i);
                assert(all.skip(i + 1)[0] == all[i + 1]);
                assert(dir@ == new_directory(id as int, all[i as int], cur));
                lemma_push_wf(before, dir@);
                lemma_fresh_id_has_no_child(before, id, all[i + 1]);
            }
            self.entries.push(dir);
            self.next_id = id + 1;
            proof {
                assert(self@ =~= before.push(dir@));
                lemma_index_of(self@, before.len() as int);
                assert(!has_child(self@, id, all[i + 1])) by {
                    if has_child(self@, id, all[i + 1]) {
                        let c = child_index(self@, id, all[i + 1]);
                        assert(is_child_at(self@, c, id, all[i + 1]));
                        if c < before.len() {
                            assert(is_child_at(before, c, id, all[i + 1]));
                        } else {
                            let j = choose|j: int|
                                0 <= j < before.len() && #[trigger] before[j].id == cur;
                            assert(before[j].id < id);
                        }
                    }
                }
                assert(ensure_path_id(self@, self.next_id as int, id, all.skip(i + 1))
                    == target_id);
            }
            cur = id;
            i += 1;
        }
        cur
    }

    /// Puts an entry of the given kind under `from` by the name
    /// `names[last]`, the last of the names.
    fn put_last(&mut self, names: &Vec<String>, from: u64, kind: EntryKind) -> (result: Result<
        u64,
        CacheError,
    >)
        requires
            old(self).wf(),
            names.len() > 0,
            has_id(old(self)@, from),
        ensures
            final(self).wf(),
            final(self).root_id() == old(self).root_id(),
            final(self)@[0] == old(self)@[0],
            match result {
                Ok(id) => {
                    let rest = names.deep_view().skip(names.len() - 1);
                    &&& old(self).next_id() + missing_names(old(self)@, from, rest) <= u64::MAX
                    &&& final(self)@ == ensure_path_tree(
                        old(self)@,
                        old(self).next_id() as int,
                        from,
                        rest,
                        kind@,
                    )
                    &&& final(self).next_id() == old(self).next_id() + missing_names(
                        old(self)@,
                        from,
                        rest,
                    )
                    &&& id == ensure_path_id(old(self)@, old(self).next_id() as int, from, rest)
                },
                Err(e) => {
                    let rest = names.deep_view().skip(names.len() - 1);
                    &&& e == CacheError::IdsExhausted
                    &&& old(self).next_id() + missing_names(old(self)@, from, rest) > u64::MAX
                    &&& final(self)@ == old(self)@
                    &&& final(self).next_id() == old(self).next_id()
                },
            },
    {
        let ghost tree = self@;
        let ghost next = self.next_id as int;
        let last: usize = names.len() - 1;
        let ghost rest = names.deep_view().skip(last as int);
        proof {
            assert(rest[0] == names[last as int]@);
            assert(rest.len() == 1);
            assert(rest.skip(1).len() == 0);
            if has_child(tree, from, rest[0]) {
                let k = child_index(tree, from, rest[0]);
                assert(is_child_at(tree, k, from, rest[0]));
                assert(missing_names(tree, tree[k].id, rest.skip(1)) == 0);
                assert(ensure_path_id(tree, next, tree[k].id, rest.skip(1)) == tree[k].id);
            }
        }
        self.upsert(names[last].as_str(), from, kind)
    }

    /// Puts an entry of the given kind at the end of the path that
    /// `names[first..]` describes below `from`, where `from` has no child by
    /// the first of those names and more than one name is left.
    fn put_below(
        &mut self,
        names: &Vec<String>,
        first: usize,
        from: u64,
        kind: EntryKind,
    ) -> (result: Result<u64, CacheError>)
        requires
            old(self).wf(),
            first + 1 < names.len(),
            has_id(old(self)@, from),
            !has_child(old(self)@, from, names.deep_view()[first as int]),
        ensures
            final(self).wf(),
            final(self).root_id() == old(self).root_id(),
            final(self)@[0] == old(self)@[0],
            match result {
                Ok(id) => {
                    let rest = names.deep_view().skip(first as int);
                    &&& old(self).next_id() + rest.len() <= u64::MAX
                    &&& final(self)@ == ensure_path_tree(
                        old(self)@,
                        old(self).next_id() as int,
                        from,
                        rest,
                        kind@,
                    )
                    &&& final(self).next_id() == old(self).next_id() + rest.len()
                    &&& id == ensure_path_id(old(self)@, old(self).next_id() as int, from, rest)
                },
                Err(e) => {
                    &&& e == CacheError::IdsExhausted
                    &&& old(self).next_id() + (names.len() - first) > u64::MAX
                    &&& final(self)@ == old(self)@
                    &&& final(self).next_id() == old(self).next_id()
                },
            },
    {
        let needed: usize = names.len() - first;
        if needed as u64 > u64::MAX - self.next_id {
            return Err(CacheError::IdsExhausted);
        }
        let ghost all = names.deep_view();
        let last: usize = names.len() - 1;
        let cur: u64 = self.create_dirs(names, first, last, from, Ghost(kind@));
        let ghost before = self@;
        let ghost before_next = self.next_id as int;
        proof {
            assert(all.skip(last as int)[0] == all[last as int]);
            assert(all.skip(last as int).len() == 1);
            assert(missing_names(before, cur, all.skip(last as int)) == 1);
        }
        let result = self.put_last(names, cur, kind);
        proof {
            assert(result is Ok);
        }
        result
    }

    /// Puts an entry of the given kind at the end of the path that
    /// `names[start..]` describes below the root.
    fn put_file(&mut self, names: &Vec<String>, start: usize, kind: EntryKind) -> (result: Result<
        u64,
        CacheError,
    >)
        requires
            old(self).wf(),
            start < names.len(),
        ensures
            final(self).wf(),
            final(self).root_id() == old(self).root_id(),
            final(self)@[0] == old(self)@[0],
            match result {
                Ok(id) => {
                    let rel = names.deep_view().skip(start as int);
                    &&& old(self).next_id() + missing_names(old(self)@, old(self).root_id(), rel)
                        <= u64::MAX
                    &&& final(self)@ == ensure_path_tree(
                        old(self)@,
                        old(self).next_id() as int,
                        old(self).root_id(),
                        rel,
                        kind@,
                    )
                    &&& final(self).next_id() == old(self).next_id() + missing_names(
                        old(self)@,
                        old(self).root_id(),
                        rel,
                    )
                    &&& id == ensure_path_id(
                        old(self)@,
                        old(self).next_id() as int,
                        old(self).root_id(),
                        rel,
                    )
                },
                Err(e) => {
                    let rel = names.deep_view().skip(start as int);
                    &&& e == CacheError::IdsExhausted
                    &&& old(self).next_id() + missing_names(old(self)@, old(self).root_id(), rel)
                        > u64::MAX
                    &&& final(self)@ == old(self)@
                    &&& final(self).next_id() == old(self).next_id()
                },
            },
    {
        let last: usize = names.len() - 1;
        let (at, i) = self.descend(names, start, last);
        let from: u64 = self.entries[at].id;
        proof {
            assert(self@[at as int].id == from);
            lemma_put_route(
                self@,
                self.next_id as int,
                names.deep_view(),
                start as int,
                i as int,
                from,
                kind@,
            );
        }
        if i < last {
            self.put_below(names, i, from, kind)
        } else {
            self.put_last(names, from, kind)
        }
    }

    /// Puts an entry of the given kind at `path`, with a directory for each
    /// component on the way that has no entry yet.
    fn put_path(&mut self, path: &str, kind: EntryKind) -> (result: Result<u64, CacheError>)
        requires
            old(self).wf(),
        ensures
            final(self).wf(),
            final(self).root_id() == old(self).root_id(),
            match result {
                Ok(id) => {
                    let names = relative_names(old(self)@, path@);
                    &&& path_error(old(self)@, old(self).next_id(), path@) is None
                    &&& final(self)@ == ensure_path_tree(
                        old(self)@,
                        old(self).next_id() as int,
                        old(self).root_id(),
                        names,
                        kind@,
                    )
                    &&& final(self).next_id() == old(self).next_id() + missing_names(
                        old(self)@,
                        old(self).root_id(),
                        names,
                    )
                    &&& id == ensure_path_id(
                        old(self)@,
                        old(self).next_id() as int,
                        old(self).root_id(),
                        names,
                    )
                    &&& resolve(final(self)@, path@) == Some(id)
                    &&& has_id(final(self)@, id)
                    &&& final(self)@[index_of(final(self)@, id)].kind == kind@
                },
                Err(e) => {
                    &&& path_error(old(self)@, old(self).next_id(), path@) == Some(e)
                    &&& final(self)@ == old(self)@
                    &&& final(self).next_id() == old(self).next_id()
                },
            },
    {
        let names = split_components(path);
        let ghost all = names.deep_view();
        let ghost tree = self@;
        let mut start: usize = 0;
        assert(tree[0].name == self.entries[0].name@);
        if names.len() > 0 {
            assert(all[0] == names[0]@);
            if names[0] == self.entries[0].name {
                start = 1;
            }
        }
        assert(relative_names(tree, path@) =~= all.skip(start as int));
        if start >= names.len() {
            return Err(CacheError::EmptyPath);
        }
        let ghost held = kind@;
        let ghost next = self.next_id as int;
        proof {
            lemma_index_of(tree, 0);
        }
        match self.put_file(&names, start, kind) {
            Ok(id) => {
                proof {
                    lemma_ensure_path(tree, next, tree[0].id, all.skip(start as int), held);
                    assert(relative_names(self@, path@) == all.skip(start as int));
                }
                Ok(id)
            },
            Err(e) => Err(e),
        }
    }

    /// Records the file at `path`. A directory entry is created for each
    /// component on the way that has no entry yet, and the last component
    /// becomes, or stays, a file entry holding `record`, with `path` as the
    /// key under which the table holds it. Either all of it happens or
    /// nothing: a path with no component below the root, and one that needs
    /// more ids than are left, change nothing.
    pub fn update_file(&mut self, path: &str, record: FileMeta) -> (result: Result<u64, CacheError>)
        requires
            old(self).wf(),
        ensures
            final(self).wf(),
            final(self).root_id() == old(self).root_id(),
            match result {
                Ok(id) => {
                    let names = relative_names(old(self)@, path@);
                    &&& path_error(old(self)@, old(self).next_id(), path@) is None
                    &&& final(self)@ == ensure_path_tree(
                        old(self)@,
                        old(self).next_id() as int,
                        old(self).root_id(),
                        names,
                        file_kind(record@, path@),
                    )
                    &&& final(self).next_id() == old(self).next_id() + missing_names(
                        old(self)@,
                        old(self).root_id(),
                        names,
                    )
                    &&& id == ensure_path_id(
                        old(self)@,
                        old(self).next_id() as int,
                        old(self).root_id(),
                        names,
                    )
                    &&& resolve(final(self)@, path@) == Some(id)
                    &&& record_at(final(self)@, path@) == Some(record@)
                    &&& key_at(final(self)@, path@) == Some(path@)
                },
                Err(e) => {
                    &&& path_error(old(self)@, old(self).next_id(), path@) == Some(e)
                    &&& final(self)@ == old(self)@
                    &&& final(self).next_id() == old(self).next_id()
                },
            },
    {
        self.put_path(path, EntryKind::File { record, key: FileCachePath::new(path) })
    }

    /// Records the directory at `path`. A directory entry is created for
    /// each component on the way that has no entry yet, and the last
    /// component becomes, or stays, a directory; a file that stood there
    /// gives up its record. Either all of it happens or nothing, as with
    /// `update_file`.
    pub fn update_dir(&mut self, path: &str) -> (result: Result<u64, CacheError>)
        requires
            old(self).wf(),
        ensures
            final(self).wf(),
            final(self).root_id() == old(self).root_id(),
            match result {
                Ok(id) => {
                    let names = relative_names(old(self)@, path@);
                    &&& path_error(old(self)@, old(self).next_id(), path@) is None
                    &&& final(self)@ == ensure_path_tree(
                        old(self)@,
                        old(self).next_id() as int,
                        old(self).root_id(),
                        names,
                        EntryKindView::Directory,
                    )
                    &&& final(self).next_id() == old(self).next_id() + missing_names(
                        old(self)@,
                        old(self).root_id(),
                        names,
                    )
                    &&& id == ensure_path_id(
                        old(self)@,
                        old(self).next_id() as int,
                        old(self).root_id(),
                        names,
                    )
                    &&& resolve(final(self)@, path@) == Some(id)
                    &&& record_at(final(self)@, path@) is None
                    &&& key_at(final(self)@, path@) is None
                },
                Err(e) => {
                    &&& path_error(old(self)@, old(self).next_id(), path@) == Some(e)
                    &&& final(self)@ == old(self)@
                    &&& final(self).next_id() == old(self).next_id()
                },
            },
    {
        self.put_path(path, EntryKind::Directory)
    }

    /// Copies of the records of all files, in the order of their ids.
    pub fn all_files(&self) -> (files: Vec<FileMeta>)
        ensures
            files.deep_view() == file_records(self@, self@.len() as int),
    {
        let mut files: Vec<FileMeta> = Vec::new();
        let mut i: usize = 0;
        assert(files.deep_view() =~= file_records(self@, 0));
        while i < self.entries.len()
            invariant
                i <= self.entries.len(),
                files.deep_view() == file_records(self@, i as int),
            decreases self.entries.len() - i,
        {
            let ghost before = files.deep_view();
            assert(self@[i as int].kind == self.entries[i as int].kind@);
            match &self.entries[i].kind {
                EntryKind::File { record, key } => {
                    files.push(record.clone());
                    assert(files.deep_view() =~= before.push(record@));
                },
                EntryKind::Directory => {},
            }
            i += 1;
        }
        files
    }

    /// Puts each record at its path, in the order given. A record that the
    /// tree cannot take is passed over.
    pub fn put_all(&mut self, records: &Vec<(FileCachePath, FileMeta)>)
        requires
            old(self).wf(),
        ensures
            final(self).wf(),
            final(self).root_id() == old(self).root_id(),
            final(self).state() == apply_ops(old(self).state(), put_ops(records.deep_view())),
    {
        let ghost start = self.state();
        let ghost ops = put_ops(records.deep_view());
        let mut u: usize = 0;
        assert(ops.take(0).len() == 0);
        while u < records.len()
            invariant
                self.wf(),
                self.root_id() == old(self).root_id(),
                u <= records.len(),
                ops == put_ops(records.deep_view()),
                self.state() == apply_ops(start, ops.take(u as int)),
            decreases records.len() - u,
        {
            assert(ops.take(u + 1).drop_last() =~= ops.take(u as int));
            assert(ops.take(u + 1).last() == ops[u as int]);
            let path = &records[u].0;
            let meta = &records[u].1;
            assert(records.deep_view()[u as int] == (path@, meta@));
            let _ = self.update_file(path.as_str(), meta.clone());
            u += 1;
        }
        assert(ops.take(u as int) =~= ops);
    }

    /// Forgets every entry but the root, then puts each record at its path:
    /// the cache as the durable table holds it. Where the records are a plain
    /// scan and the ids suffice, the cache then mirrors them.
    pub fn load_records(&mut self, records: &Vec<(FileCachePath, FileMeta)>)
        requires
            old(self).wf(),
        ensures
            final(self).wf(),
            final(self).root_id() == old(self).root_id(),
            final(self).state() == apply_ops(
                TreeState {
                    tree: remove_subtree(old(self)@, old(self).root_id()),
                    next_id: old(self).next_id() as int,
                },
                put_ops(records.deep_view()),
            ),
            scan_is_plain(old(self)@, records.deep_view()) && old(self).next_id() + names_total(
                old(self)@,
                records.deep_view(),
                records.len() as int,
            ) <= u64::MAX ==> mirrors(final(self)@, records.deep_view()),
    {
        proof {
            if scan_is_plain(self@, records.deep_view()) && self.next_id() + names_total(
                self@,
                records.deep_view(),
                records.len() as int,
            ) <= u64::MAX {
                law_load_mirrors(self.state(), records.deep_view());
            }
        }
        let root: u64 = self.root;
        self.remove_entry(root);
        self.put_all(records);
    }

    /// The path of an entry: the names on the way from the root down to it,
    /// the root's own left out, joined by separators. The root has the empty
    /// path.
    pub fn path_of(&self, id: u64) -> (path: Option<String>)
        requires
            self.wf(),
        ensures
            match path {
                Some(p) => has_id(self@, id) && p@ == join_components(
                    names_to(self@, index_of(self@, id)),
                ),
                None => !has_id(self@, id),
            },
    {
        let start: usize = match self.find_index(id) {
            Some(i) => i,
            None => {
                return None;
            },
        };
        let ghost tree = self@;
        let ghost target = names_to(tree, start as int);
        let mut upward: Vec<String> = Vec::new();
        let mut at: usize = start;
        let ghost tail: Seq<Seq<char>> = Seq::empty();
        assert(names_to(tree, at as int) + tail =~= target);
        while at > 0
            invariant
                self.wf(),
                tree == self@,
                at < tree.len(),
                names_to(tree, at as int) + tail == target,
                upward.len() == tail.len(),
                forall|k: int|
                    0 <= k < upward.len() ==> (#[trigger] upward@[k])@ == tail[tail.len() - 1 - k],
            decreases at,
        {
            let e = &self.entries[at];
            assert(e@ == tree[at as int]);
            proof {
                lemma_names_to_step(tree, at as int);
            }
            let above: usize = match e.parent {
                Some(p) => match self.find_index(p) {
                    Some(j) => j,
                    None => 0,
                },
                None => 0,
            };
            assert(above == parent_index(tree, at as int));
            let ghost longer = seq![e@.name] + tail;
            proof {
                assert(names_to(tree, above as int).push(e@.name) + tail =~= names_to(
                    tree,
                    above as int,
                ) + longer);
            }
            upward.push(e.name.clone());
            proof {
                assert forall|k: int| 0 <= k < upward.len() implies (#[trigger] upward@[k])@
                    == longer[longer.len() - 1 - k] by {
                    if k < tail.len() {
                        assert(longer[longer.len() - 1 - k] == tail[tail.len() - 1 - k]);
                    }
                }
                tail = longer;
            }
            at = above;
        }
        assert(tail =~= target) by {
            assert(names_to(tree, 0).len() == 0);
        }
        let mut names: Vec<String> = Vec::new();
        assert(names.deep_view() =~= tail.take(0));
        while upward.len() > 0
            invariant
                upward.len() + names.len() == tail.len(),
                forall|k: int|
                    0 <= k < upward.len() ==> (#[trigger] upward@[k])@ == tail[tail.len() - 1 - k],
                names.deep_view() == tail.take(names.len() as int),
            decreases upward.len(),
        {
            let ghost raw = upward@;
            let ghost done = names.deep_view();
            match upward.pop() {
                Some(name) => {
                    assert(name == raw[raw.len() - 1]);
                    assert(name@ == tail[done.len() as int]);
                    names.push(name);
                    proof {
                        assert(names.deep_view() =~= done.push(name@));
                        assert(done.push(name@) =~= tail.take(names.len() as int));
                    }
                },
                None => {},
            }
        }
        proof {
            assert(tail.take(tail.len() as int) =~= tail);
            assert(names.deep_view().take(names.len() as int) =~= names.deep_view());
        }
        Some(join(&names, names.len()))
    }
}

} // verus!
