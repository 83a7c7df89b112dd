//! The path tree as a sequence of entries ordered by id: its invariant,
//! what its operations compute, and the facts that hold of them.

use crate::file_cache::entry::CacheError;
use crate::file_cache::entry::EntryKindView;
use crate::file_cache::entry::EntryView;
use crate::file_cache::meta::FileMetaView;
use crate::paths::path_components;
use vstd::prelude::*;

verus! {

/// Whether some entry has this id.
pub open spec fn has_id(tree: Seq<EntryView>, id: u64) -> bool {
    exists|j: int| 0 <= j < tree.len() && #[trigger] tree[j].id == id
}

/// Whether an entry before position `i` has this id.
pub open spec fn holds_before(tree: Seq<EntryView>, i: int, id: u64) -> bool {
    exists|j: int| 0 <= j < i && j < tree.len() && #[trigger] tree[j].id == id
}

/// The position of the entry with this id.
pub open spec fn index_of(tree: Seq<EntryView>, id: u64) -> int {
    choose|j: int| 0 <= j < tree.len() && #[trigger] tree[j].id == id
}

/// The position of the parent of the entry at `i`, or -1 for an entry
/// without a parent.
pub open spec fn parent_index(tree: Seq<EntryView>, i: int) -> int {
    match tree[i].parent {
        Some(p) => index_of(tree, p),
        None => -1,
    }
}

/// The invariant of the path tree. The root stands first, is a directory
/// and alone has no parent; ids grow along the arena, so none occurs twice;
/// every other entry names a parent that stands before it; and no two
/// entries with the same parent bear the same name.
pub open spec fn tree_wf(tree: Seq<EntryView>) -> bool {
    &&& tree.len() > 0
    &&& tree[0].parent is None
    &&& tree[0].kind == EntryKindView::Directory
    &&& forall|i: int, j: int| 0 <= i < j < tree.len() ==> #[trigger] tree[i].id < #[trigger] tree[j].id
    &&& forall|i: int|
        0 < i < tree.len() ==> (#[trigger] tree[i]).parent is Some && holds_before(
            tree,
            i,
            tree[i].parent->0,
        )
    &&& forall|i: int, j: int|
        0 < i < j < tree.len() && (#[trigger] tree[i]).parent == (#[trigger] tree[j]).parent
            ==> tree[i].name != tree[j].name
}

/// In a well-formed tree the entry with a given id stands at one position.
pub proof fn lemma_index_of(tree: Seq<EntryView>, j: int)
    requires
        tree_wf(tree),
        0 <= j < tree.len(),
    ensures
        index_of(tree, tree[j].id) == j,
        has_id(tree, tree[j].id),
{
    let k = index_of(tree, tree[j].id);
    assert(0 <= k < tree.len() && tree[k].id == tree[j].id);
    if k < j {
        assert(tree[k].id < tree[j].id);
    } else if j < k {
        assert(tree[j].id < tree[k].id);
    }
}

/// The parent of an entry other than the root stands before it.
pub proof fn lemma_parent_index(tree: Seq<EntryView>, i: int)
    requires
        tree_wf(tree),
        0 < i < tree.len(),
    ensures
        0 <= parent_index(tree, i) < i,
        tree[parent_index(tree, i)].id == tree[i].parent->0,
{
    let p = tree[i].parent->0;
    assert(holds_before(tree, i, p));
    let j = choose|j: int| 0 <= j < i && j < tree.len() && #[trigger] tree[j].id == p;
    lemma_index_of(tree, j);
}

/// Whether the entry at `i` is the child of `parent` with this name.
pub open spec fn is_child_at(tree: Seq<EntryView>, i: int, parent: u64, name: Seq<char>) -> bool {
    0 < i < tree.len() && tree[i].parent == Some(parent) && tree[i].name == name
}

/// Whether `parent` has a child with this name.
pub open spec fn has_child(tree: Seq<EntryView>, parent: u64, name: Seq<char>) -> bool {
    exists|i: int| is_child_at(tree, i, parent, name)
}

/// The position of the child of `parent` with this name.
pub open spec fn child_index(tree: Seq<EntryView>, parent: u64, name: Seq<char>) -> int {
    choose|i: int| is_child_at(tree, i, parent, name)
}

/// The id of the child of `parent` with this name, if there is one.
pub open spec fn child_of(tree: Seq<EntryView>, parent: u64, name: Seq<char>) -> Option<u64> {
    if has_child(tree, parent, name) {
        Some(tree[child_index(tree, parent, name)].id)
    } else {
        None
    }
}

/// The entry reached from `from` by descending through the given names, one
/// child per name.
pub open spec fn resolve_from(tree: Seq<EntryView>, from: u64, names: Seq<Seq<char>>) -> Option<
    u64,
>
    decreases names.len(),
{
    if names.len() == 0 {
        Some(from)
    } else {
        match child_of(tree, from, names[0]) {
            Some(child) => resolve_from(tree, child, names.skip(1)),
            None => None,
        }
    }
}

/// The components of a path below the root: a first component equal to the
/// root's name is left out.
pub open spec fn relative_names(tree: Seq<EntryView>, path: Seq<char>) -> Seq<Seq<char>> {
    let names = path_components(path);
    if names.len() > 0 && names[0] == tree[0].name {
        names.skip(1)
    } else {
        names
    }
}

/// The entry that a path leads to from the root.
pub open spec fn resolve(tree: Seq<EntryView>, path: Seq<char>) -> Option<u64> {
    resolve_from(tree, tree[0].id, relative_names(tree, path))
}

/// The record of the file that a path leads to.
pub open spec fn record_at(tree: Seq<EntryView>, path: Seq<char>) -> Option<FileMetaView> {
    match resolve(tree, path) {
        Some(id) => match tree[index_of(tree, id)].kind {
            EntryKindView::File { record, key } => Some(record),
            EntryKindView::Directory => None,
        },
        None => None,
    }
}

/// The key under which the table holds the record of the file that a path
/// leads to.
pub open spec fn key_at(tree: Seq<EntryView>, path: Seq<char>) -> Option<Seq<char>> {
    match resolve(tree, path) {
        Some(id) => match tree[index_of(tree, id)].kind {
            EntryKindView::File { record, key } => Some(key),
            EntryKindView::Directory => None,
        },
        None => None,
    }
}

/// The file entry that holds `record` under the key `key`.
pub open spec fn file_kind(record: FileMetaView, key: Seq<char>) -> EntryKindView {
    EntryKindView::File { record, key }
}

/// The key that a record put at a path replaces: the key of the file that
/// the path leads to, where it is another than the path.
pub open spec fn replaced_key(tree: Seq<EntryView>, path: Seq<char>) -> Seq<Seq<char>> {
    match key_at(tree, path) {
        Some(key) => if key == path {
            Seq::empty()
        } else {
            seq![key]
        },
        None => Seq::empty(),
    }
}

/// A parent has at most one child of a given name.
pub proof fn lemma_child_unique(tree: Seq<EntryView>, i: int, parent: u64, name: Seq<char>)
    requires
        tree_wf(tree),
        is_child_at(tree, i, parent, name),
    ensures
        has_child(tree, parent, name),
        child_index(tree, parent, name) == i,
        child_of(tree, parent, name) == Some(tree[i].id),
{
    let k = child_index(tree, parent, name);
    assert(is_child_at(tree, k, parent, name));
    if k < i {
        assert(tree[k].name != tree[i].name);
    } else if i < k {
        assert(tree[i].name != tree[k].name);
    }
}

/// What a path resolves to is an entry of the tree.
pub proof fn lemma_resolve_from_in_tree(tree: Seq<EntryView>, from: u64, names: Seq<Seq<char>>)
    requires
        tree_wf(tree),
        has_id(tree, from),
    ensures
        resolve_from(tree, from, names) matches Some(id) ==> has_id(tree, id),
    decreases names.len(),
{
    if names.len() > 0 {
        if has_child(tree, from, names[0]) {
            let k = child_index(tree, from, names[0]);
            assert(is_child_at(tree, k, from, names[0]));
            lemma_index_of(tree, k);
            lemma_resolve_from_in_tree(tree, tree[k].id, names.skip(1));
        }
    }
}

/// Why an entry cannot be put under `parent` with this name, if it cannot:
/// the parent is not in the tree, or the name is new there and no id is
/// left for it.
pub open spec fn upsert_error(tree: Seq<EntryView>, next_id: u64, name: Seq<char>, parent: u64)
    -> Option<CacheError> {
    if !has_id(tree, parent) {
        Some(CacheError::ParentMissing)
    } else if !has_child(tree, parent, name) && next_id == u64::MAX {
        Some(CacheError::IdsExhausted)
    } else {
        None
    }
}

/// The id of the entry under `parent` with this name once it has been put
/// there: that of the child already there, or else the next new id.
pub open spec fn upsert_id(tree: Seq<EntryView>, next_id: u64, name: Seq<char>, parent: u64)
    -> u64 {
    match child_of(tree, parent, name) {
        Some(id) => id,
        None => next_id,
    }
}

/// The tree after an entry of the given kind has been put under `parent`
/// with this name: a child already there changes its kind and nothing
/// else; otherwise a new entry is added at the end.
pub open spec fn upsert_tree(
    tree: Seq<EntryView>,
    next_id: u64,
    name: Seq<char>,
    parent: u64,
    kind: EntryKindView,
) -> Seq<EntryView> {
    if has_child(tree, parent, name) {
        let i = child_index(tree, parent, name);
        tree.update(i, EntryView { kind, ..tree[i] })
    } else {
        tree.push(EntryView { id: next_id, name, parent: Some(parent), kind })
    }
}

/// The id that follows the ones in use once the entry has been put there.
pub open spec fn upsert_next_id(tree: Seq<EntryView>, next_id: u64, name: Seq<char>, parent: u64)
    -> int {
    if has_child(tree, parent, name) {
        next_id as int
    } else {
        next_id + 1
    }
}

/// Changing the kind of one entry other than the root keeps the tree well
/// formed.
pub proof fn lemma_update_kind_wf(tree: Seq<EntryView>, i: int, kind: EntryKindView)
    requires
        tree_wf(tree),
        0 < i < tree.len(),
    ensures
        tree_wf(tree.update(i, EntryView { kind, ..tree[i] })),
{
    let after = tree.update(i, EntryView { kind, ..tree[i] });
    assert forall|k: int| 0 < k < after.len() implies (#[trigger] after[k]).parent is Some
        && holds_before(after, k, after[k].parent->0) by {
        assert(tree[k].parent is Some && holds_before(tree, k, tree[k].parent->0));
        let j = choose|j: int| 0 <= j < k && j < tree.len() && #[trigger] tree[j].id == tree[k].parent->0;
        assert(after[j].id == tree[j].id);
    }
    assert forall|a: int, b: int| 0 <= a < b < after.len() implies #[trigger] after[a].id
        < #[trigger] after[b].id by {
        assert(tree[a].id < tree[b].id);
    }
    assert forall|a: int, b: int|
        0 < a < b < after.len() && (#[trigger] after[a]).parent == (#[trigger] after[b]).parent
        implies after[a].name != after[b].name by {
        assert(tree[a].parent == tree[b].parent);
    }
}

/// Adding an entry with a fresh id under an entry of the tree, with a name
/// that no child of that entry bears, keeps the tree well formed.
pub proof fn lemma_push_wf(tree: Seq<EntryView>, e: EntryView)
    requires
        tree_wf(tree),
        forall|i: int| 0 <= i < tree.len() ==> (#[trigger] tree[i]).id < e.id,
        e.parent is Some,
        has_id(tree, e.parent->0),
        !has_child(tree, e.parent->0, e.name),
    ensures
        tree_wf(tree.push(e)),
{
    let after = tree.push(e);
    assert forall|k: int| 0 < k < after.len() implies (#[trigger] after[k]).parent is Some
        && holds_before(after, k, after[k].parent->0) by {
        if k < tree.len() {
            assert(tree[k].parent is Some && holds_before(tree, k, tree[k].parent->0));
            let j = choose|j: int| 0 <= j < k && j < tree.len() && #[trigger] tree[j].id == tree[k].parent->0;
            assert(after[j].id == tree[j].id);
        } else {
            let j = choose|j: int| 0 <= j < tree.len() && #[trigger] tree[j].id == e.parent->0;
            assert(after[j].id == tree[j].id);
        }
    }
    assert forall|a: int, b: int| 0 <= a < b < after.len() implies #[trigger] after[a].id
        < #[trigger] after[b].id by {
        if b < tree.len() {
            assert(tree[a].id < tree[b].id);
        } else {
            assert(tree[a].id < e.id);
        }
    }
    assert forall|a: int, b: int|
        0 < a < b < after.len() && (#[trigger] after[a]).parent == (#[trigger] after[b]).parent
        implies after[a].name != after[b].name by {
        if b < tree.len() {
            assert(tree[a].parent == tree[b].parent);
        } else {
            if after[a].name == after[b].name {
                assert(is_child_at(tree, a, e.parent->0, e.name));
            }
        }
    }
}

/// Whether the entry at `i` is the entry `top` or lies below it.
pub open spec fn in_subtree(tree: Seq<EntryView>, top: u64, i: int) -> bool
    decreases i,
{
    if !(0 <= i < tree.len()) {
        false
    } else if tree[i].id == top {
        true
    } else {
        let j = parent_index(tree, i);
        0 <= j < i && in_subtree(tree, top, j)
    }
}

/// Whether removing the subtree of `top` removes the entry at `i`: every
/// entry of the subtree goes but the root, which always stays.
pub open spec fn is_removed(tree: Seq<EntryView>, top: u64, i: int) -> bool {
    0 < i && in_subtree(tree, top, i)
}

/// Of the first `n` entries, those that stay when the subtree of `top` is
/// removed, in their order.
pub open spec fn kept_entries(tree: Seq<EntryView>, top: u64, n: int) -> Seq<EntryView>
    decreases n,
{
    if n <= 0 {
        Seq::empty()
    } else {
        let rest = kept_entries(tree, top, n - 1);
        if is_removed(tree, top, n - 1) {
            rest
        } else {
            rest.push(tree[n - 1])
        }
    }
}

/// The tree without the subtree of `top`.
pub open spec fn remove_subtree(tree: Seq<EntryView>, top: u64) -> Seq<EntryView> {
    kept_entries(tree, top, tree.len() as int)
}

/// Of the first `n` entries, the keys of the files that go when the subtree
/// of `top` is removed, in the order of their ids: the keys under which the
/// table holds their records.
pub open spec fn removed_keys(tree: Seq<EntryView>, top: u64, n: int) -> Seq<Seq<char>>
    decreases n,
{
    if n <= 0 {
        Seq::empty()
    } else {
        let rest = removed_keys(tree, top, n - 1);
        match tree[n - 1].kind {
            EntryKindView::File { record, key } if is_removed(tree, top, n - 1) => rest.push(key),
            _ => rest,
        }
    }
}

/// Whether `e` is one of the first `n` entries and is not removed.
pub open spec fn stays(tree: Seq<EntryView>, top: u64, n: int, e: EntryView) -> bool {
    exists|j: int| 0 <= j < n && j < tree.len() && !is_removed(tree, top, j) && #[trigger] tree[j] == e
}

/// Each entry kept of the first `n` is one of them and is not removed.
pub proof fn lemma_kept_stays(tree: Seq<EntryView>, top: u64, n: int)
    requires
        0 <= n <= tree.len(),
    ensures
        forall|k: int|
            0 <= k < kept_entries(tree, top, n).len() ==> stays(
                tree,
                top,
                n,
                #[trigger] kept_entries(tree, top, n)[k],
            ),
        kept_entries(tree, top, n).len() <= n,
        n > 0 ==> kept_entries(tree, top, n).len() > 0 && kept_entries(tree, top, n)[0] == tree[0],
    decreases n,
{
    if n > 0 {
        lemma_kept_stays(tree, top, n - 1);
        let rest = kept_entries(tree, top, n - 1);
        let kept = kept_entries(tree, top, n);
        assert forall|k: int| 0 <= k < kept.len() implies stays(tree, top, n, #[trigger] kept[k]) by {
            if k < rest.len() {
                assert(stays(tree, top, n - 1, rest[k]));
                let j = choose|j: int|
                    0 <= j < n - 1 && j < tree.len() && !is_removed(tree, top, j) && #[trigger] tree[j]
                        == rest[k];
                assert(tree[j] == kept[k]);
            } else {
                assert(tree[n - 1] == kept[k]);
            }
        }
    }
}

/// Each of the first `n` entries that is not removed is kept.
pub proof fn lemma_kept_contains(tree: Seq<EntryView>, top: u64, n: int, j: int)
    requires
        0 <= j < n <= tree.len(),
        !is_removed(tree, top, j),
    ensures
        kept_entries(tree, top, n).contains(tree[j]),
    decreases n,
{
    let kept = kept_entries(tree, top, n);
    if j < n - 1 {
        lemma_kept_contains(tree, top, n - 1, j);
        let rest = kept_entries(tree, top, n - 1);
        let k = choose|k: int| 0 <= k < rest.len() && rest[k] == tree[j];
        assert(kept[k] == tree[j]);
    } else {
        assert(kept[kept.len() - 1] == tree[j]);
    }
}

/// The ids of the kept entries grow.
pub proof fn lemma_kept_sorted(tree: Seq<EntryView>, top: u64, n: int)
    requires
        tree_wf(tree),
        0 <= n <= tree.len(),
    ensures
        forall|a: int, b: int|
            0 <= a < b < kept_entries(tree, top, n).len() ==> (#[trigger] kept_entries(
                tree,
                top,
                n,
            )[a]).id < (#[trigger] kept_entries(tree, top, n)[b]).id,
    decreases n,
{
    if n > 0 {
        lemma_kept_sorted(tree, top, n - 1);
        lemma_kept_stays(tree, top, n - 1);
        let rest = kept_entries(tree, top, n - 1);
        let kept = kept_entries(tree, top, n);
        assert forall|a: int, b: int| 0 <= a < b < kept.len() implies (#[trigger] kept[a]).id < (
        #[trigger] kept[b]).id by {
            if b < rest.len() {
                assert(rest[a].id < rest[b].id);
            } else {
                assert(stays(tree, top, n - 1, rest[a]));
                let j = choose|j: int|
                    0 <= j < n - 1 && j < tree.len() && !is_removed(tree, top, j) && #[trigger] tree[j]
                        == rest[a];
                assert(tree[j].id < tree[n - 1].id);
            }
        }
    }
}

/// Removing a subtree keeps the tree well formed.
pub proof fn lemma_remove_subtree_wf(tree: Seq<EntryView>, top: u64)
    requires
        tree_wf(tree),
    ensures
        tree_wf(remove_subtree(tree, top)),
        remove_subtree(tree, top)[0] == tree[0],
        forall|k: int|
            0 <= k < remove_subtree(tree, top).len() ==> has_id(
                tree,
                (#[trigger] remove_subtree(tree, top)[k]).id,
            ),
{
    let n = tree.len() as int;
    let kept = remove_subtree(tree, top);
    lemma_kept_stays(tree, top, n);
    lemma_kept_sorted(tree, top, n);
    assert forall|k: int| 0 <= k < kept.len() implies has_id(tree, (#[trigger] kept[k]).id) by {
        assert(stays(tree, top, n, kept[k]));
    }
    assert forall|k: int| 0 < k < kept.len() implies (#[trigger] kept[k]).parent is Some
        && holds_before(kept, k, kept[k].parent->0) by {
        assert(stays(tree, top, n, kept[k]));
        let j = choose|j: int|
            0 <= j < n && j < tree.len() && !is_removed(tree, top, j) && #[trigger] tree[j] == kept[k];
        assert(kept[0].id < kept[k].id);
        assert(j > 0);
        lemma_parent_index(tree, j);
        let pj = parent_index(tree, j);
        assert(!is_removed(tree, top, pj)) by {
            if pj > 0 && in_subtree(tree, top, pj) {
                assert(in_subtree(tree, top, j));
            }
        }
        lemma_kept_contains(tree, top, n, pj);
        let pk = choose|pk: int| 0 <= pk < kept.len() && kept[pk] == tree[pj];
        assert(tree[pj].id < tree[j].id);
        if pk > k {
            assert(kept[k].id < kept[pk].id);
        }
        assert(kept[pk].id == kept[k].parent->0);
    }
    assert forall|a: int, b: int|
        0 < a < b < kept.len() && (#[trigger] kept[a]).parent == (#[trigger] kept[b]).parent
        implies kept[a].name != kept[b].name by {
        assert(stays(tree, top, n, kept[a]));
        assert(stays(tree, top, n, kept[b]));
        let ja = choose|j: int|
            0 <= j < n && j < tree.len() && !is_removed(tree, top, j) && #[trigger] tree[j] == kept[a];
        let jb = choose|j: int|
            0 <= j < n && j < tree.len() && !is_removed(tree, top, j) && #[trigger] tree[j] == kept[b];
        assert(kept[0].id < kept[a].id);
        assert(kept[a].id < kept[b].id);
        if ja > jb {
            assert(tree[jb].id < tree[ja].id);
        }
        assert(0 < ja < jb);
        assert(tree[ja].parent == tree[jb].parent);
    }
}

/// How many of the names have no entry yet when one descends from `from`:
/// from the first name without an entry on, all are missing.
pub open spec fn missing_names(tree: Seq<EntryView>, from: u64, names: Seq<Seq<char>>) -> nat
    decreases names.len(),
{
    if names.len() == 0 {
        0
    } else {
        match child_of(tree, from, names[0]) {
            Some(child) => missing_names(tree, child, names.skip(1)),
            None => names.len(),
        }
    }
}

/// The directory entry that is created for a missing name.
pub open spec fn new_directory(id: int, name: Seq<char>, parent: u64) -> EntryView {
    EntryView { id: id as u64, name, parent: Some(parent), kind: EntryKindView::Directory }
}

/// The tree after an entry of the given kind has been put at the end of the
/// path that `names` describes below `from`: a directory is created for each
/// missing name but the last, with ids in the order of the path, and the
/// entry of the last name is put under what the names before it lead to.
pub open spec fn ensure_path_tree(
    tree: Seq<EntryView>,
    next_id: int,
    from: u64,
    names: Seq<Seq<char>>,
    kind: EntryKindView,
) -> Seq<EntryView>
    decreases names.len(),
{
    if names.len() == 0 {
        tree
    } else if names.len() == 1 {
        upsert_tree(tree, next_id as u64, names[0], from, kind)
    } else {
        match child_of(tree, from, names[0]) {
            Some(child) => ensure_path_tree(tree, next_id, child, names.skip(1), kind),
            None => ensure_path_tree(
                tree.push(new_directory(next_id, names[0], from)),
                next_id + 1,
                next_id as u64,
                names.skip(1),
                kind,
            ),
        }
    }
}

/// The id of the entry at the end of that path.
pub open spec fn ensure_path_id(
    tree: Seq<EntryView>,
    next_id: int,
    from: u64,
    names: Seq<Seq<char>>,
) -> u64
    decreases names.len(),
{
    if names.len() == 0 {
        from
    } else {
        match child_of(tree, from, names[0]) {
            Some(child) => ensure_path_id(tree, next_id, child, names.skip(1)),
            None => (next_id + names.len() - 1) as u64,
        }
    }
}

/// Why a file cannot be put at a path, if it cannot: the path names nothing
/// below the root, or it needs more new ids than are left.
pub open spec fn path_error(tree: Seq<EntryView>, next_id: u64, path: Seq<char>) -> Option<
    CacheError,
> {
    let names = relative_names(tree, path);
    if names.len() == 0 {
        Some(CacheError::EmptyPath)
    } else if next_id + missing_names(tree, tree[0].id, names) > u64::MAX {
        Some(CacheError::IdsExhausted)
    } else {
        None
    }
}

/// Whether `after` holds every entry of `tree` at its position, with its id,
/// name and parent.
pub open spec fn extends(tree: Seq<EntryView>, after: Seq<EntryView>) -> bool {
    &&& tree.len() <= after.len()
    &&& forall|i: int|
        0 <= i < tree.len() ==> {
            &&& (#[trigger] after[i]).id == tree[i].id
            &&& after[i].name == tree[i].name
            &&& after[i].parent == tree[i].parent
        }
}

/// No entry has a parent whose id is not in use.
pub proof fn lemma_fresh_id_has_no_child(tree: Seq<EntryView>, fresh: u64, name: Seq<char>)
    requires
        tree_wf(tree),
        forall|i: int| 0 <= i < tree.len() ==> (#[trigger] tree[i]).id < fresh,
    ensures
        !has_child(tree, fresh, name),
{
    if has_child(tree, fresh, name) {
        let i = child_index(tree, fresh, name);
        assert(is_child_at(tree, i, fresh, name));
        lemma_parent_index(tree, i);
        assert(tree[parent_index(tree, i)].id == fresh);
    }
}

/// Whether `after` is what putting an entry of `kind` at the end of `names`
/// below `from` makes of `tree`, with `id` as the id of that entry: the tree
/// stays well formed, keeps every entry it had, takes its new ids from
/// `next_id` on, and the names then lead to the entry. Every other entry is
/// as before, or a new directory.
pub open spec fn put_done(
    tree: Seq<EntryView>,
    next_id: int,
    from: u64,
    names: Seq<Seq<char>>,
    kind: EntryKindView,
    after: Seq<EntryView>,
    id: u64,
) -> bool {
    &&& tree_wf(after)
    &&& extends(tree, after)
    &&& after.len() == tree.len() + missing_names(tree, from, names)
    &&& forall|i: int|
        0 <= i < after.len() ==> (#[trigger] after[i]).id < next_id + missing_names(
            tree,
            from,
            names,
        )
    &&& resolve_from(after, from, names) == Some(id)
    &&& has_id(after, id)
    &&& after[index_of(after, id)].kind == kind
    &&& index_of(after, id) > 0
    &&& forall|i: int|
        0 <= i < after.len() && (#[trigger] after[i]).id != id ==> if i < tree.len() {
            after[i] == tree[i]
        } else {
            after[i].kind == EntryKindView::Directory
        }
}

/// Putting an entry under `from` by one name.
pub proof fn lemma_put_one(
    tree: Seq<EntryView>,
    next_id: int,
    from: u64,
    names: Seq<Seq<char>>,
    kind: EntryKindView,
)
    requires
        tree_wf(tree),
        has_id(tree, from),
        names.len() == 1,
        forall|i: int| 0 <= i < tree.len() ==> (#[trigger] tree[i]).id < next_id,
        next_id + missing_names(tree, from, names) <= u64::MAX,
    ensures
        put_done(
            tree,
            next_id,
            from,
            names,
            kind,
            ensure_path_tree(tree, next_id, from, names, kind),
            ensure_path_id(tree, next_id, from, names),
        ),
{
    let after = ensure_path_tree(tree, next_id, from, names, kind);
    let id = ensure_path_id(tree, next_id, from, names);
    let name = names[0];
    let rest = names.skip(1);
    assert(rest.len() == 0);
    if has_child(tree, from, name) {
        let i = child_index(tree, from, name);
        assert(is_child_at(tree, i, from, name));
        assert(ensure_path_id(tree, next_id, tree[i].id, rest) == tree[i].id);
        assert(missing_names(tree, tree[i].id, rest) == 0);
        assert(id == tree[i].id);
        assert(missing_names(tree, from, names) == 0);
        lemma_update_kind_wf(tree, i, kind);
        assert(after == tree.update(i, EntryView { kind, ..tree[i] }));
        assert(is_child_at(after, i, from, name));
        lemma_child_unique(after, i, from, name);
        lemma_index_of(after, i);
        assert(resolve_from(after, after[i].id, rest) == Some(after[i].id));
        assert(resolve_from(after, from, names) == Some(id));
    } else {
        let e = EntryView { id: next_id as u64, name, parent: Some(from), kind };
        assert(id == next_id as u64);
        assert(missing_names(tree, from, names) == 1);
        lemma_push_wf(tree, e);
        assert(after == tree.push(e));
        let i = tree.len() as int;
        assert(is_child_at(after, i, from, name));
        lemma_child_unique(after, i, from, name);
        lemma_index_of(after, i);
        assert(resolve_from(after, after[i].id, rest) == Some(after[i].id));
        assert(resolve_from(after, from, names) == Some(id));
    }
}

/// What was put below a child of `from` was put below `from`.
pub proof fn lemma_put_through(
    tree: Seq<EntryView>,
    next_id: int,
    from: u64,
    names: Seq<Seq<char>>,
    kind: EntryKindView,
    after: Seq<EntryView>,
    id: u64,
)
    requires
        tree_wf(tree),
        names.len() > 1,
        has_child(tree, from, names[0]),
        put_done(tree, next_id, child_of(tree, from, names[0])->0, names.skip(1), kind, after, id),
    ensures
        put_done(tree, next_id, from, names, kind, after, id),
{
    let k = child_index(tree, from, names[0]);
    assert(is_child_at(tree, k, from, names[0]));
    assert(is_child_at(after, k, from, names[0]));
    lemma_child_unique(after, k, from, names[0]);
}

/// A directory that has just been added has no child.
pub proof fn lemma_new_directory_is_empty(
    tree: Seq<EntryView>,
    next_id: int,
    from: u64,
    name: Seq<char>,
    below: Seq<char>,
)
    requires
        tree_wf(tree),
        has_id(tree, from),
        forall|i: int| 0 <= i < tree.len() ==> (#[trigger] tree[i]).id < next_id,
        next_id <= u64::MAX,
    ensures
        !has_child(tree.push(new_directory(next_id, name, from)), next_id as u64, below),
{
    let dir = new_directory(next_id, name, from);
    let grown = tree.push(dir);
    let k = tree.len() as int;
    lemma_fresh_id_has_no_child(tree, dir.id, below);
    if has_child(grown, dir.id, below) {
        let c = child_index(grown, dir.id, below);
        assert(is_child_at(grown, c, dir.id, below));
        if c < k {
            assert(is_child_at(tree, c, dir.id, below));
        } else {
            let j = choose|j: int| 0 <= j < tree.len() && #[trigger] tree[j].id == from;
            assert(tree[j].id < next_id);
        }
    }
}

/// What was put below a directory added under `from` was put below `from`.
pub proof fn lemma_put_under_new(
    tree: Seq<EntryView>,
    next_id: int,
    from: u64,
    names: Seq<Seq<char>>,
    kind: EntryKindView,
    after: Seq<EntryView>,
    id: u64,
)
    requires
        tree_wf(tree),
        names.len() > 1,
        !has_child(tree, from, names[0]),
        next_id < u64::MAX,
        id != next_id as u64,
        put_done(
            tree.push(new_directory(next_id, names[0], from)),
            next_id + 1,
            next_id as u64,
            names.skip(1),
            kind,
            after,
            id,
        ),
        missing_names(
            tree.push(new_directory(next_id, names[0], from)),
            next_id as u64,
            names.skip(1),
        ) == names.len() - 1,
    ensures
        put_done(tree, next_id, from, names, kind, after, id),
{
    let dir = new_directory(next_id, names[0], from);
    let grown = tree.push(dir);
    let k = tree.len() as int;
    assert(grown[k] == dir);
    assert(after[k].id == dir.id);
    assert(is_child_at(after, k, from, names[0]));
    lemma_child_unique(after, k, from, names[0]);
    assert forall|i: int| 0 <= i < tree.len() implies {
        &&& (#[trigger] after[i]).id == tree[i].id
        &&& after[i].name == tree[i].name
        &&& after[i].parent == tree[i].parent
    } by {
        assert(grown[i] == tree[i]);
    }
    assert forall|i: int| 0 <= i < after.len() && (#[trigger] after[i]).id != id implies if i
        < tree.len() {
        after[i] == tree[i]
    } else {
        after[i].kind == EntryKindView::Directory
    } by {
        if i < grown.len() {
            assert(after[i] == grown[i]);
        }
    }
}

/// What putting an entry at the end of a path does: the tree stays well
/// formed, keeps every entry it had, takes its new ids from `next_id` on,
/// and the names then lead to an entry of the given kind. Every other entry
/// is as before, or a new directory.
pub proof fn lemma_ensure_path(
    tree: Seq<EntryView>,
    next_id: int,
    from: u64,
    names: Seq<Seq<char>>,
    kind: EntryKindView,
)
    requires
        tree_wf(tree),
        has_id(tree, from),
        names.len() > 0,
        forall|i: int| 0 <= i < tree.len() ==> (#[trigger] tree[i]).id < next_id,
        next_id + missing_names(tree, from, names) <= u64::MAX,
    ensures
        ({
            let after = ensure_path_tree(tree, next_id, from, names, kind);
            let id = ensure_path_id(tree, next_id, from, names);
            &&& tree_wf(after)
            &&& extends(tree, after)
            &&& after.len() == tree.len() + missing_names(tree, from, names)
            &&& forall|i: int|
                0 <= i < after.len() ==> (#[trigger] after[i]).id < next_id + missing_names(
                    tree,
                    from,
                    names,
                )
            &&& resolve_from(after, from, names) == Some(id)
            &&& has_id(after, id)
            &&& after[index_of(after, id)].kind == kind
            &&& index_of(after, id) > 0
            &&& forall|i: int|
                0 <= i < after.len() && (#[trigger] after[i]).id != id ==> if i < tree.len() {
                    after[i] == tree[i]
                } else {
                    after[i].kind == EntryKindView::Directory
                }
        }),
    decreases names.len(),
{
    let after = ensure_path_tree(tree, next_id, from, names, kind);
    let id = ensure_path_id(tree, next_id, from, names);
    let name = names[0];
    if names.len() == 1 {
        lemma_put_one(tree, next_id, from, names, kind);
    } else {
        let rest = names.skip(1);
        if has_child(tree, from, name) {
            let k = child_index(tree, from, name);
            assert(is_child_at(tree, k, from, name));
            lemma_index_of(tree, k);
            lemma_ensure_path(tree, next_id, tree[k].id, rest, kind);
            lemma_put_through(tree, next_id, from, names, kind, after, id);
        } else {
            let dir = new_directory(next_id, name, from);
            let grown = tree.push(dir);
            lemma_push_wf(tree, dir);
            lemma_index_of(grown, tree.len() as int);
            lemma_new_directory_is_empty(tree, next_id, from, name, rest[0]);
            assert(missing_names(grown, dir.id, rest) == rest.len());
            lemma_ensure_path(grown, next_id + 1, dir.id, rest, kind);
            assert(ensure_path_id(grown, next_id + 1, dir.id, rest) == id);
            lemma_put_under_new(tree, next_id, from, names, kind, after, id);
        }
    }
}

/// Descending through the names is descending through the first `k` of
/// them and then through the others.
pub proof fn lemma_resolve_split(tree: Seq<EntryView>, from: u64, names: Seq<Seq<char>>, k: int)
    requires
        0 <= k <= names.len(),
    ensures
        resolve_from(tree, from, names) == match resolve_from(tree, from, names.take(k)) {
            Some(mid) => resolve_from(tree, mid, names.skip(k)),
            None => None,
        },
    decreases k,
{
    if k == 0 {
        assert(names.take(0).len() == 0);
        assert(names.skip(0) =~= names);
    } else {
        assert(names.take(k)[0] == names[0]);
        assert(names.take(k).skip(1) =~= names.skip(1).take(k - 1));
        assert(names.skip(1).skip(k - 1) =~= names.skip(k));
        match child_of(tree, from, names[0]) {
            Some(child) => {
                lemma_resolve_split(tree, child, names.skip(1), k - 1);
            },
            None => {},
        }
    }
}

/// Putting an entry at the end of a path whose first `k` names lead to an
/// entry is putting it at the end of the other names below that entry.
pub proof fn lemma_ensure_path_from(
    tree: Seq<EntryView>,
    next_id: int,
    from: u64,
    names: Seq<Seq<char>>,
    k: int,
    kind: EntryKindView,
)
    requires
        0 <= k < names.len(),
        resolve_from(tree, from, names.take(k)) is Some,
    ensures
        ({
            let mid = resolve_from(tree, from, names.take(k))->0;
            &&& ensure_path_tree(tree, next_id, from, names, kind) == ensure_path_tree(
                tree,
                next_id,
                mid,
                names.skip(k),
                kind,
            )
            &&& ensure_path_id(tree, next_id, from, names) == ensure_path_id(
                tree,
                next_id,
                mid,
                names.skip(k),
            )
            &&& missing_names(tree, from, names) == missing_names(tree, mid, names.skip(k))
        }),
    decreases k,
{
    if k == 0 {
        assert(names.take(0).len() == 0);
        assert(names.skip(0) =~= names);
    } else {
        assert(names.take(k)[0] == names[0]);
        assert(names.take(k).skip(1) =~= names.skip(1).take(k - 1));
        assert(names.skip(1).skip(k - 1) =~= names.skip(k));
        let child = child_of(tree, from, names[0])->0;
        lemma_ensure_path_from(tree, next_id, child, names.skip(1), k - 1, kind);
    }
}

/// Putting an entry at the end of names of which those from `start` up to
/// `i` lead from the root to `from` is putting it at the end of the names
/// from `i` on below `from`; and where `from` has no child by the name at
/// `i`, all names from `i` on are missing.
pub proof fn lemma_put_route(
    tree: Seq<EntryView>,
    next_id: int,
    all: Seq<Seq<char>>,
    start: int,
    i: int,
    from: u64,
    kind: EntryKindView,
)
    requires
        tree.len() > 0,
        0 <= start <= i < all.len(),
        resolve_from(tree, tree[0].id, all.subrange(start, i)) == Some(from),
    ensures
        ensure_path_tree(tree, next_id, tree[0].id, all.skip(start), kind) == ensure_path_tree(
            tree,
            next_id,
            from,
            all.skip(i),
            kind,
        ),
        ensure_path_id(tree, next_id, tree[0].id, all.skip(start)) == ensure_path_id(
            tree,
            next_id,
            from,
            all.skip(i),
        ),
        missing_names(tree, tree[0].id, all.skip(start)) == missing_names(tree, from, all.skip(i)),
        !has_child(tree, from, all[i]) ==> missing_names(tree, from, all.skip(i)) == all.len() - i,
{
    let rel = all.skip(start);
    assert(rel.take(i - start) =~= all.subrange(start, i));
    assert(rel.skip(i - start) =~= all.skip(i));
    lemma_ensure_path_from(tree, next_id, tree[0].id, rel, i - start, kind);
    assert(all.skip(i)[0] == all[i]);
    assert(all.skip(i).len() == all.len() - i);
}

/// The names on the way to an entry other than the root are those on the
/// way to its parent, and then its own.
pub proof fn lemma_names_to_step(tree: Seq<EntryView>, i: int)
    requires
        tree_wf(tree),
        0 < i < tree.len(),
    ensures
        0 <= parent_index(tree, i) < i,
        tree[parent_index(tree, i)].id == tree[i].parent->0,
        names_to(tree, i) == names_to(tree, parent_index(tree, i)).push(tree[i].name),
{
    lemma_parent_index(tree, i);
}

/// A tree with the id that its next new entry gets.
pub ghost struct TreeState {
    pub tree: Seq<EntryView>,
    pub next_id: int,
}

/// A change to the tree.
pub ghost enum TreeOp {
    /// Put an entry of a kind under a parent, by name.
    Upsert { name: Seq<char>, parent: u64, kind: EntryKindView },
    /// Put a file at the end of a path.
    PutFile { path: Seq<char>, record: FileMetaView },
    /// Remove an entry and all below it.
    Remove { id: u64 },
    /// Drop what an entry holds: the entry goes where nothing lies below
    /// it, and becomes a directory where something does.
    Drop { id: u64 },
}

/// The invariant of a tree and its next id.
pub open spec fn state_wf(s: TreeState) -> bool {
    &&& tree_wf(s.tree)
    &&& s.next_id <= u64::MAX
    &&& forall|i: int| 0 <= i < s.tree.len() ==> (#[trigger] s.tree[i]).id < s.next_id
}

/// The state after one change. A change that is refused leaves the state as
/// it was.
pub open spec fn apply_op(s: TreeState, op: TreeOp) -> TreeState {
    match op {
        TreeOp::Upsert { name, parent, kind } => if upsert_error(
            s.tree,
            s.next_id as u64,
            name,
            parent,
        ) is None {
            TreeState {
                tree: upsert_tree(s.tree, s.next_id as u64, name, parent, kind),
                next_id: upsert_next_id(s.tree, s.next_id as u64, name, parent),
            }
        } else {
            s
        },
        TreeOp::PutFile { path, record } => if path_error(s.tree, s.next_id as u64, path) is None {
            let names = relative_names(s.tree, path);
            TreeState {
                tree: ensure_path_tree(
                    s.tree,
                    s.next_id,
                    s.tree[0].id,
                    names,
                    file_kind(record, path),
                ),
                next_id: s.next_id + missing_names(s.tree, s.tree[0].id, names),
            }
        } else {
            s
        },
        TreeOp::Remove { id } => TreeState { tree: remove_subtree(s.tree, id), next_id: s.next_id },
        TreeOp::Drop { id } => TreeState { tree: drop_record(s.tree, id), next_id: s.next_id },
    }
}

/// The state after a sequence of changes, first to last.
pub open spec fn apply_ops(s: TreeState, ops: Seq<TreeOp>) -> TreeState
    decreases ops.len(),
{
    if ops.len() == 0 {
        s
    } else {
        apply_op(apply_ops(s, ops.drop_last()), ops.last())
    }
}

/// Whether no entry of the tree has `top` as its parent.
pub open spec fn is_leaf(tree: Seq<EntryView>, top: u64) -> bool {
    forall|k: int| 0 < k < tree.len() ==> (#[trigger] tree[k]).parent != Some(top)
}

/// The tree after what the entry `id` holds has been dropped. Where no
/// entry lies below it the entry goes; where one does it stays as a
/// directory, so that what lies below keeps its place. The root, and an id
/// that is not in the tree, change nothing.
pub open spec fn drop_record(tree: Seq<EntryView>, id: u64) -> Seq<EntryView> {
    if !has_id(tree, id) || id == tree[0].id {
        tree
    } else if is_leaf(tree, id) {
        remove_subtree(tree, id)
    } else {
        let i = index_of(tree, id);
        tree.update(i, EntryView { kind: EntryKindView::Directory, ..tree[i] })
    }
}

/// The drops of what the entries with the given ids hold, in their order.
pub open spec fn drop_ops(ids: Seq<u64>) -> Seq<TreeOp> {
    Seq::new(ids.len(), |k: int| TreeOp::Drop { id: ids[k] })
}

/// The removals of the entries with the given ids, in their order.
pub open spec fn remove_ops(ids: Seq<u64>) -> Seq<TreeOp> {
    Seq::new(ids.len(), |k: int| TreeOp::Remove { id: ids[k] })
}

/// The puts of the given records at their paths, in their order.
pub open spec fn put_ops(records: Seq<(Seq<char>, FileMetaView)>) -> Seq<TreeOp> {
    Seq::new(records.len(), |k: int| TreeOp::PutFile { path: records[k].0, record: records[k].1 })
}

/// The records of the files among the first `n` entries, in the order of
/// their ids.
pub open spec fn file_records(tree: Seq<EntryView>, n: int) -> Seq<FileMetaView>
    decreases n,
{
    if n <= 0 {
        Seq::empty()
    } else {
        let rest = file_records(tree, n - 1);
        match tree[n - 1].kind {
            EntryKindView::File { record, key } => rest.push(record),
            EntryKindView::Directory => rest,
        }
    }
}

/// The names on the way from the root down to the entry at `i`, the root's
/// own name left out.
pub open spec fn names_to(tree: Seq<EntryView>, i: int) -> Seq<Seq<char>>
    decreases i,
{
    if i <= 0 || i >= tree.len() {
        Seq::empty()
    } else {
        let j = parent_index(tree, i);
        if 0 <= j < i {
            names_to(tree, j).push(tree[i].name)
        } else {
            seq![tree[i].name]
        }
    }
}

} // verus!
