//! What holds of the path tree whatever is done to it.

use crate::file_cache::entry::EntryKindView;
use crate::file_cache::entry::EntryView;
use crate::file_cache::meta::FileMetaView;
use crate::file_cache::diff::changed_records;
use crate::file_cache::diff::is_changed;
use crate::file_cache::diff::is_hit;
use crate::file_cache::diff::is_stale;
use crate::file_cache::diff::paths_of;
use crate::file_cache::diff::replaced_keys;
use crate::file_cache::diff::staged_removals;
use crate::file_cache::diff::stale_ids;
use crate::file_cache::diff::stale_keys;
use crate::file_cache::diff::ScanView;
use crate::file_cache::tree::child_index;
use crate::file_cache::tree::in_subtree;
use crate::file_cache::tree::is_removed;
use crate::file_cache::tree::lemma_kept_contains;
use crate::file_cache::tree::lemma_kept_stays;
use crate::file_cache::tree::lemma_resolve_from_in_tree;
use crate::file_cache::tree::stays;
use crate::file_cache::tree::child_of;
use crate::file_cache::tree::ensure_path_id;
use crate::file_cache::tree::extends;
use crate::file_cache::tree::lemma_resolve_split;
use crate::file_cache::tree::names_to;
use crate::file_cache::tree::resolve_from;
use crate::file_cache::tree::ensure_path_tree;
use crate::file_cache::tree::file_kind;
use crate::file_cache::tree::has_child;
use crate::file_cache::tree::has_id;
use crate::file_cache::tree::index_of;
use crate::file_cache::tree::is_child_at;
use crate::file_cache::tree::is_leaf;
use crate::file_cache::tree::lemma_child_unique;
use crate::file_cache::tree::lemma_ensure_path;
use crate::file_cache::tree::lemma_index_of;
use crate::file_cache::tree::lemma_parent_index;
use crate::file_cache::tree::lemma_push_wf;
use crate::file_cache::tree::lemma_remove_subtree_wf;
use crate::file_cache::tree::lemma_update_kind_wf;
use crate::file_cache::tree::missing_names;
use crate::file_cache::tree::parent_index;
use crate::file_cache::tree::path_error;
use crate::file_cache::tree::relative_names;
use crate::file_cache::tree::remove_subtree;
use crate::file_cache::tree::apply_op;
use crate::file_cache::tree::apply_ops;
use crate::file_cache::tree::state_wf;
use crate::file_cache::tree::key_at;
use crate::file_cache::tree::replaced_key;
use crate::file_cache::tree::tree_wf;
use crate::file_cache::tree::TreeOp;
use crate::file_cache::tree::TreeState;
use crate::file_cache::tree::upsert_error;
use crate::file_cache::tree::upsert_id;
use crate::file_cache::tree::upsert_next_id;
use crate::file_cache::tree::upsert_tree;
use crate::file_cache::tree::resolve;
use crate::paths::is_component;
use crate::paths::join_components;
use crate::paths::law_split_after_join;
use vstd::prelude::*;

verus! {

/// Whether the parent links lead from the entry at `i` to the root, each
/// link going to an entry that stands earlier in the arena.
pub open spec fn chain_reaches_root(tree: Seq<EntryView>, i: int) -> bool
    decreases i,
{
    if i == 0 {
        tree[0].parent is None
    } else if !(0 < i < tree.len()) {
        false
    } else {
        let j = parent_index(tree, i);
        &&& tree[i].parent is Some
        &&& 0 <= j < i
        &&& tree[j].id == tree[i].parent->0
        &&& tree[j].id < tree[i].id
        &&& chain_reaches_root(tree, j)
    }
}

/// In a well-formed tree the parent chain of every entry ends at the root,
/// and the ids fall along it, so it holds no cycle.
pub proof fn law_parent_chain_reaches_root(tree: Seq<EntryView>, i: int)
    requires
        tree_wf(tree),
        0 <= i < tree.len(),
    ensures
        chain_reaches_root(tree, i),
    decreases i,
{
    if i > 0 {
        lemma_parent_index(tree, i);
        law_parent_chain_reaches_root(tree, parent_index(tree, i));
    }
}

/// One change keeps the invariant and the root.
pub proof fn law_op_keeps_invariant(s: TreeState, op: TreeOp)
    requires
        state_wf(s),
    ensures
        state_wf(apply_op(s, op)),
        apply_op(s, op).tree[0].id == s.tree[0].id,
        apply_op(s, op).next_id >= s.next_id,
{
    let after = apply_op(s, op);
    match op {
        TreeOp::Upsert { name, parent, kind } => {
            if upsert_error(s.tree, s.next_id as u64, name, parent) is None {
                if has_child(s.tree, parent, name) {
                    let i = child_index(s.tree, parent, name);
                    assert(is_child_at(s.tree, i, parent, name));
                    lemma_update_kind_wf(s.tree, i, kind);
                } else {
                    let e = EntryView { id: s.next_id as u64, name, parent: Some(parent), kind };
                    lemma_push_wf(s.tree, e);
                }
            }
        },
        TreeOp::PutFile { path, record } => {
            if path_error(s.tree, s.next_id as u64, path) is None {
                lemma_index_of(s.tree, 0);
                lemma_ensure_path(
                    s.tree,
                    s.next_id,
                    s.tree[0].id,
                    relative_names(s.tree, path),
                    file_kind(record, path),
                );
            }
        },
        TreeOp::Remove { id } => {
            lemma_removal_keeps_invariant(s, id);
        },
        TreeOp::Drop { id } => {
            if has_id(s.tree, id) && id != s.tree[0].id {
                if is_leaf(s.tree, id) {
                    lemma_removal_keeps_invariant(s, id);
                } else {
                    let i = index_of(s.tree, id);
                    assert(0 <= i < s.tree.len() && s.tree[i].id == id);
                    lemma_update_kind_wf(s.tree, i, EntryKindView::Directory);
                }
            }
        },
    }
}

/// Removing a subtree keeps the invariant of a tree and its next id.
pub proof fn lemma_removal_keeps_invariant(s: TreeState, id: u64)
    requires
        state_wf(s),
    ensures
        state_wf(TreeState { tree: remove_subtree(s.tree, id), next_id: s.next_id }),
        remove_subtree(s.tree, id)[0] == s.tree[0],
{
    let after = remove_subtree(s.tree, id);
    lemma_remove_subtree_wf(s.tree, id);
    assert forall|k: int| 0 <= k < after.len() implies (#[trigger] after[k]).id < s.next_id by {
        assert(has_id(s.tree, after[k].id));
        let j = choose|j: int| 0 <= j < s.tree.len() && #[trigger] s.tree[j].id == after[k].id;
        assert(s.tree[j].id < s.next_id);
    }
}

/// After any sequence of inserts, updates and removals the tree is well
/// formed, its root is the one it began with, and the parent chain of every
/// entry ends at that root without a cycle.
pub proof fn law_ops_keep_invariant(s: TreeState, ops: Seq<TreeOp>)
    requires
        state_wf(s),
    ensures
        state_wf(apply_ops(s, ops)),
        apply_ops(s, ops).tree[0].id == s.tree[0].id,
        forall|i: int|
            0 <= i < apply_ops(s, ops).tree.len() ==> #[trigger] chain_reaches_root(
                apply_ops(s, ops).tree,
                i,
            ),
    decreases ops.len(),
{
    if ops.len() > 0 {
        law_ops_keep_invariant(s, ops.drop_last());
        law_op_keeps_invariant(apply_ops(s, ops.drop_last()), ops.last());
    }
    let after = apply_ops(s, ops).tree;
    assert forall|i: int| 0 <= i < after.len() implies #[trigger] chain_reaches_root(after, i) by {
        law_parent_chain_reaches_root(after, i);
    }
}

/// Putting the same entry under the same parent twice is putting it once:
/// the second time succeeds, gives the id that the first gave, holds the
/// kind that was given, and leaves the tree and the next id as the first
/// left them.
pub proof fn law_upsert_idempotent(
    tree: Seq<EntryView>,
    next_id: u64,
    name: Seq<char>,
    parent: u64,
    kind: EntryKindView,
)
    requires
        tree_wf(tree),
        forall|i: int| 0 <= i < tree.len() ==> (#[trigger] tree[i]).id < next_id,
        upsert_error(tree, next_id, name, parent) is None,
    ensures
        ({
            let once = upsert_tree(tree, next_id, name, parent, kind);
            let next_once = upsert_next_id(tree, next_id, name, parent) as u64;
            let id = upsert_id(tree, next_id, name, parent);
            &&& upsert_error(once, next_once, name, parent) is None
            &&& upsert_id(once, next_once, name, parent) == id
            &&& upsert_tree(once, next_once, name, parent, kind) == once
            &&& upsert_next_id(once, next_once, name, parent) == next_once
            &&& has_id(once, id)
            &&& once[index_of(once, id)].kind == kind
        }),
{
    let once = upsert_tree(tree, next_id, name, parent, kind);
    let i = if has_child(tree, parent, name) {
        child_index(tree, parent, name)
    } else {
        tree.len() as int
    };
    if has_child(tree, parent, name) {
        assert(is_child_at(tree, i, parent, name));
        lemma_update_kind_wf(tree, i, kind);
    } else {
        lemma_push_wf(tree, EntryView { id: next_id, name, parent: Some(parent), kind });
    }
    assert(is_child_at(once, i, parent, name));
    lemma_child_unique(once, i, parent, name);
    lemma_index_of(once, i);
    assert(once.update(i, EntryView { kind, ..once[i] }) =~= once);
    let j = choose|j: int| 0 <= j < tree.len() && #[trigger] tree[j].id == parent;
    assert(once[j].id == parent);
}

/// Whether the cache mirrors a scan: it holds each record of the scan at
/// its path, and a path of the scan leads to each of its files.
pub open spec fn mirrors(tree: Seq<EntryView>, records: ScanView) -> bool {
    &&& forall|j: int| 0 <= j < records.len() ==> !is_changed(tree, #[trigger] records[j])
    &&& forall|i: int|
        0 < i < tree.len() && (#[trigger] tree[i]).kind is File ==> is_hit(
            tree,
            paths_of(records),
            records.len() as int,
            tree[i].id,
        )
}

/// Where a path of the scan leads to each file of the cache, no removal is
/// staged.
pub proof fn lemma_none_stale(tree: Seq<EntryView>, paths: Seq<Seq<char>>, n: int)
    requires
        0 <= n <= tree.len(),
        forall|i: int|
            0 < i < tree.len() && (#[trigger] tree[i]).kind is File ==> is_hit(
                tree,
                paths,
                paths.len() as int,
                tree[i].id,
            ),
    ensures
        stale_ids(tree, paths, n) == Seq::<u64>::empty(),
        stale_keys(tree, paths, n) == Seq::<Seq<char>>::empty(),
    decreases n,
{
    if n > 0 {
        lemma_none_stale(tree, paths, n - 1);
        assert(!is_stale(tree, paths, n - 1));
    }
}

/// Of the first `n` records of a scan of which only record `k` is changed,
/// the staged upserts are that record alone, once `n` has passed it.
pub proof fn lemma_one_changed(tree: Seq<EntryView>, records: ScanView, k: int, n: int)
    requires
        0 <= n <= records.len(),
        0 <= k < records.len(),
        is_changed(tree, records[k]),
        forall|j: int| 0 <= j < records.len() && j != k ==> !is_changed(tree, #[trigger] records[j]),
    ensures
        changed_records(tree, records, n) == if n <= k {
            Seq::<(Seq<char>, FileMetaView)>::empty()
        } else {
            seq![records[k]]
        },
    decreases n,
{
    if n > 0 {
        lemma_one_changed(tree, records, k, n - 1);
        if n - 1 == k {
            assert(Seq::<(Seq<char>, FileMetaView)>::empty().push(records[k]) =~= seq![records[k]]);
        }
    }
}

/// Of the first `n` records of a scan that the cache mirrors, none is
/// staged.
pub proof fn lemma_none_changed(tree: Seq<EntryView>, records: ScanView, n: int)
    requires
        mirrors(tree, records),
        0 <= n <= records.len(),
    ensures
        changed_records(tree, records, n) == Seq::<(Seq<char>, FileMetaView)>::empty(),
    decreases n,
{
    if n > 0 {
        lemma_none_changed(tree, records, n - 1);
    }
}

/// A scan that the cache mirrors stages nothing: no removal and no upsert.
pub proof fn law_unchanged_scan_stages_nothing(tree: Seq<EntryView>, records: ScanView)
    requires
        mirrors(tree, records),
    ensures
        changed_records(tree, records, records.len() as int) == Seq::<
            (Seq<char>, FileMetaView),
        >::empty(),
        stale_ids(tree, paths_of(records), tree.len() as int) == Seq::<u64>::empty(),
        staged_removals(tree, records) == Seq::<Seq<char>>::empty(),
{
    lemma_none_stale(tree, paths_of(records), tree.len() as int);
    lemma_none_changed(tree, records, records.len() as int);
    lemma_none_replaced(tree, records, records.len() as int);
}

/// Where the tree holds a file at the path of each record of a scan under
/// that path as its key, or holds no file there, the scan replaces no key.
pub proof fn lemma_none_replaced(tree: Seq<EntryView>, records: ScanView, n: int)
    requires
        0 <= n <= records.len(),
        forall|j: int|
            0 <= j < records.len() ==> key_at(tree, (#[trigger] records[j]).0) == Some(
                records[j].0,
            ) || key_at(tree, records[j].0) is None,
    ensures
        replaced_keys(tree, records, n) == Seq::<Seq<char>>::empty(),
    decreases n,
{
    if n > 0 {
        lemma_none_replaced(tree, records, n - 1);
        assert(replaced_key(tree, records[n - 1].0) =~= Seq::<Seq<char>>::empty());
    }
}

/// Two scans that differ in the size of one file only: against a cache that
/// mirrors the first, the second stages exactly one upsert, the record of
/// that file, and no removal.
pub proof fn law_one_size_change_stages_one_upsert(
    tree: Seq<EntryView>,
    first: ScanView,
    second: ScanView,
    k: int,
)
    requires
        mirrors(tree, first),
        second.len() == first.len(),
        0 <= k < first.len(),
        forall|j: int| 0 <= j < first.len() && j != k ==> #[trigger] second[j] == first[j],
        second[k].0 == first[k].0,
        second[k].1.size != first[k].1.size,
    ensures
        changed_records(tree, second, second.len() as int) == seq![second[k]],
        stale_ids(tree, paths_of(second), tree.len() as int) == Seq::<u64>::empty(),
        staged_removals(tree, second) == Seq::<Seq<char>>::empty(),
{
    assert forall|j: int| 0 <= j < second.len() implies key_at(
        tree,
        (#[trigger] second[j]).0,
    ) == Some(second[j].0) by {
        assert(!is_changed(tree, first[j]));
        if j != k {
            assert(second[j] == first[j]);
        }
    }
    lemma_none_replaced(tree, second, second.len() as int);
    assert(paths_of(second) =~= paths_of(first)) by {
        assert forall|j: int| 0 <= j < first.len() implies paths_of(second)[j] == paths_of(
            first,
        )[j] by {
            if j != k {
                assert(second[j] == first[j]);
            }
        }
    }
    lemma_none_stale(tree, paths_of(second), tree.len() as int);
    assert(!is_changed(tree, first[k]));
    assert(is_changed(tree, second[k]));
    assert forall|j: int| 0 <= j < second.len() && j != k implies !is_changed(
        tree,
        #[trigger] second[j],
    ) by {
        assert(second[j] == first[j]);
        assert(!is_changed(tree, first[j]));
    }
    lemma_one_changed(tree, second, k, second.len() as int);
}

/// The names on the way to an entry lead back to it: descending from the
/// root through them ends at that entry.
pub proof fn law_names_lead_back(tree: Seq<EntryView>, i: int)
    requires
        tree_wf(tree),
        0 <= i < tree.len(),
    ensures
        resolve_from(tree, tree[0].id, names_to(tree, i)) == Some(tree[i].id),
    decreases i,
{
    if i > 0 {
        lemma_parent_index(tree, i);
        let j = parent_index(tree, i);
        law_names_lead_back(tree, j);
        let names = names_to(tree, i);
        let k = names.len() - 1;
        assert(names.take(k) =~= names_to(tree, j));
        assert(names.skip(k) =~= seq![tree[i].name]);
        lemma_resolve_split(tree, tree[0].id, names, k);
        assert(is_child_at(tree, i, tree[j].id, tree[i].name));
        lemma_child_unique(tree, i, tree[j].id, tree[i].name);
        assert(seq![tree[i].name].skip(1).len() == 0);
        assert(resolve_from(tree, tree[i].id, seq![tree[i].name].skip(1)) == Some(tree[i].id));
    }
}

/// A tree that grows keeps its children: where an entry had a child of
/// some name, it has the same child afterwards.
pub proof fn lemma_extends_keeps_child(
    tree: Seq<EntryView>,
    after: Seq<EntryView>,
    parent: u64,
    name: Seq<char>,
)
    requires
        tree_wf(after),
        extends(tree, after),
        has_child(tree, parent, name),
    ensures
        child_of(after, parent, name) == child_of(tree, parent, name),
{
    let i = child_index(tree, parent, name);
    assert(is_child_at(tree, i, parent, name));
    assert(is_child_at(after, i, parent, name));
    lemma_child_unique(after, i, parent, name);
}

/// A tree that grows keeps its paths: names that led to an entry lead to
/// the same entry afterwards.
pub proof fn lemma_extends_keeps_paths(
    tree: Seq<EntryView>,
    after: Seq<EntryView>,
    from: u64,
    names: Seq<Seq<char>>,
)
    requires
        tree_wf(after),
        extends(tree, after),
        resolve_from(tree, from, names) is Some,
    ensures
        resolve_from(after, from, names) == resolve_from(tree, from, names),
    decreases names.len(),
{
    if names.len() > 0 {
        lemma_extends_keeps_child(tree, after, from, names[0]);
        lemma_extends_keeps_paths(tree, after, child_of(tree, from, names[0])->0, names.skip(1));
    }
}

/// Putting a file at a path leaves the rest of the tree alone: every path
/// that led to an entry leads to the same entry afterwards, and unless that
/// entry is the one at the end of the path put, it holds what it held.
pub proof fn law_put_keeps_other_paths(
    tree: Seq<EntryView>,
    next_id: int,
    names: Seq<Seq<char>>,
    kind: EntryKindView,
    other: Seq<Seq<char>>,
)
    requires
        tree_wf(tree),
        forall|i: int| 0 <= i < tree.len() ==> (#[trigger] tree[i]).id < next_id,
        names.len() > 0,
        next_id + missing_names(tree, tree[0].id, names) <= u64::MAX,
        resolve_from(tree, tree[0].id, other) is Some,
    ensures
        ({
            let after = ensure_path_tree(tree, next_id, tree[0].id, names, kind);
            let put = ensure_path_id(tree, next_id, tree[0].id, names);
            let found = resolve_from(tree, tree[0].id, other)->0;
            &&& resolve_from(after, tree[0].id, other) == Some(found)
            &&& has_id(tree, found)
            &&& has_id(after, found)
            &&& found != put ==> after[index_of(after, found)] == tree[index_of(tree, found)]
        }),
{
    let root = tree[0].id;
    let after = ensure_path_tree(tree, next_id, root, names, kind);
    let found = resolve_from(tree, root, other)->0;
    lemma_index_of(tree, 0);
    lemma_ensure_path(tree, next_id, root, names, kind);
    lemma_extends_keeps_paths(tree, after, root, other);
    lemma_resolve_from_in_tree(tree, root, other);
    let i = index_of(tree, found);
    assert(0 <= i < tree.len() && tree[i].id == found);
    assert(after[i].id == found);
    lemma_index_of(after, i);
}

/// What lies below an entry that lies below `top` lies below `top`.
pub proof fn lemma_subtree_transitive(tree: Seq<EntryView>, top: u64, mid: int, i: int)
    requires
        tree_wf(tree),
        0 <= mid < tree.len(),
        0 <= i < tree.len(),
        in_subtree(tree, top, mid),
        in_subtree(tree, tree[mid].id, i),
    ensures
        in_subtree(tree, top, i),
    decreases i,
{
    if tree[i].id == tree[mid].id {
        lemma_index_of(tree, i);
        lemma_index_of(tree, mid);
    } else {
        let j = parent_index(tree, i);
        lemma_subtree_transitive(tree, top, mid, j);
    }
}

/// What names lead to from an entry lies below that entry.
pub proof fn lemma_resolved_is_below(tree: Seq<EntryView>, from: u64, names: Seq<Seq<char>>)
    requires
        tree_wf(tree),
        has_id(tree, from),
        resolve_from(tree, from, names) is Some,
    ensures
        has_id(tree, resolve_from(tree, from, names)->0),
        in_subtree(tree, from, index_of(tree, resolve_from(tree, from, names)->0)),
    decreases names.len(),
{
    let f = index_of(tree, from);
    assert(0 <= f < tree.len() && tree[f].id == from);
    if names.len() > 0 {
        let c = child_index(tree, from, names[0]);
        assert(is_child_at(tree, c, from, names[0]));
        lemma_index_of(tree, c);
        lemma_index_of(tree, f);
        lemma_parent_index(tree, c);
        assert(parent_index(tree, c) == f);
        assert(in_subtree(tree, from, f));
        assert(in_subtree(tree, from, c));
        lemma_resolved_is_below(tree, tree[c].id, names.skip(1));
        let found = resolve_from(tree, from, names)->0;
        lemma_subtree_transitive(tree, from, c, index_of(tree, found));
    }
}

/// An entry that stays keeps its place as the child of its parent.
pub proof fn lemma_kept_child(tree: Seq<EntryView>, top: u64, parent: u64, name: Seq<char>)
    requires
        tree_wf(tree),
        has_child(tree, parent, name),
        !is_removed(tree, top, child_index(tree, parent, name)),
    ensures
        child_of(remove_subtree(tree, top), parent, name) == child_of(tree, parent, name),
{
    let kept = remove_subtree(tree, top);
    let c = child_index(tree, parent, name);
    assert(is_child_at(tree, c, parent, name));
    lemma_remove_subtree_wf(tree, top);
    lemma_kept_contains(tree, top, tree.len() as int, c);
    let k = choose|k: int| 0 <= k < kept.len() && kept[k] == tree[c];
    if k == 0 {
        lemma_index_of(tree, c);
        lemma_index_of(tree, 0);
    }
    assert(is_child_at(kept, k, parent, name));
    lemma_child_unique(kept, k, parent, name);
}

/// A child in the tree that is left was that child before.
pub proof fn lemma_child_was_there(tree: Seq<EntryView>, top: u64, parent: u64, name: Seq<char>)
    requires
        tree_wf(tree),
        has_child(remove_subtree(tree, top), parent, name),
    ensures
        child_of(tree, parent, name) == child_of(remove_subtree(tree, top), parent, name),
{
    let kept = remove_subtree(tree, top);
    let k = child_index(kept, parent, name);
    assert(is_child_at(kept, k, parent, name));
    lemma_kept_stays(tree, top, tree.len() as int);
    assert(stays(tree, top, tree.len() as int, kept[k]));
    let j = choose|j: int|
        0 <= j < tree.len() && j < tree.len() && !is_removed(tree, top, j) && #[trigger] tree[j]
            == kept[k];
    assert(is_child_at(tree, j, parent, name));
    lemma_child_unique(tree, j, parent, name);
}

/// Names that lead somewhere in the tree that is left led to the same entry
/// before.
pub proof fn lemma_path_was_there(
    tree: Seq<EntryView>,
    top: u64,
    from: u64,
    names: Seq<Seq<char>>,
)
    requires
        tree_wf(tree),
        resolve_from(remove_subtree(tree, top), from, names) is Some,
    ensures
        resolve_from(tree, from, names) == resolve_from(remove_subtree(tree, top), from, names),
    decreases names.len(),
{
    if names.len() > 0 {
        let kept = remove_subtree(tree, top);
        lemma_child_was_there(tree, top, from, names[0]);
        lemma_path_was_there(tree, top, child_of(kept, from, names[0])->0, names.skip(1));
    }
}

/// Removing a subtree leaves the rest of the tree alone: names that led to
/// an entry which stays lead to it afterwards, and it holds what it held.
pub proof fn law_remove_keeps_other_paths(
    tree: Seq<EntryView>,
    top: u64,
    from: u64,
    names: Seq<Seq<char>>,
)
    requires
        tree_wf(tree),
        has_id(tree, from),
        resolve_from(tree, from, names) is Some,
        !is_removed(tree, top, index_of(tree, resolve_from(tree, from, names)->0)),
    ensures
        ({
            let after = remove_subtree(tree, top);
            let found = resolve_from(tree, from, names)->0;
            &&& resolve_from(after, from, names) == Some(found)
            &&& has_id(tree, found)
            &&& after.contains(tree[index_of(tree, found)])
        }),
    decreases names.len(),
{
    let after = remove_subtree(tree, top);
    let found = resolve_from(tree, from, names)->0;
    lemma_resolved_is_below(tree, from, names);
    let x = index_of(tree, found);
    assert(0 <= x < tree.len() && tree[x].id == found);
    lemma_kept_contains(tree, top, tree.len() as int, x);
    if names.len() > 0 {
        let c = child_index(tree, from, names[0]);
        assert(is_child_at(tree, c, from, names[0]));
        lemma_index_of(tree, c);
        lemma_resolved_is_below(tree, tree[c].id, names.skip(1));
        if is_removed(tree, top, c) {
            lemma_subtree_transitive(tree, top, c, x);
            if x == 0 {
                lemma_index_of(tree, 0);
                assert(in_subtree(tree, tree[c].id, 0));
            }
            assert(false);
        }
        lemma_kept_child(tree, top, from, names[0]);
        law_remove_keeps_other_paths(tree, top, tree[c].id, names.skip(1));
    }
}

/// Removing a subtree removes what lies below: names that led to an entry
/// which goes lead nowhere afterwards.
pub proof fn law_removed_paths_lead_nowhere(
    tree: Seq<EntryView>,
    top: u64,
    names: Seq<Seq<char>>,
)
    requires
        tree_wf(tree),
        resolve_from(tree, tree[0].id, names) is Some,
        is_removed(tree, top, index_of(tree, resolve_from(tree, tree[0].id, names)->0)),
    ensures
        resolve_from(remove_subtree(tree, top), tree[0].id, names) is None,
{
    let after = remove_subtree(tree, top);
    let root = tree[0].id;
    if resolve_from(after, root, names) is Some {
        let found = resolve_from(after, root, names)->0;
        lemma_path_was_there(tree, top, root, names);
        lemma_remove_subtree_wf(tree, top);
        lemma_index_of(after, 0);
        lemma_resolve_from_in_tree(after, root, names);
        let k = index_of(after, found);
        assert(0 <= k < after.len() && after[k].id == found);
        lemma_kept_stays(tree, top, tree.len() as int);
        assert(stays(tree, top, tree.len() as int, after[k]));
        let j = choose|j: int|
            0 <= j < tree.len() && j < tree.len() && !is_removed(tree, top, j) && #[trigger] tree[j]
                == after[k];
        lemma_index_of(tree, j);
        assert(false);
    }
}

/// The path of an entry leads back to it: where the names on the way to an
/// entry are components, and the first of them is not the name of the root,
/// looking up the path made of them finds that entry.
pub proof fn law_path_leads_back(tree: Seq<EntryView>, i: int)
    requires
        tree_wf(tree),
        0 <= i < tree.len(),
        forall|k: int|
            0 <= k < names_to(tree, i).len() ==> is_component(#[trigger] names_to(tree, i)[k]),
        names_to(tree, i).len() > 0 ==> names_to(tree, i)[0] != tree[0].name,
    ensures
        resolve(tree, join_components(names_to(tree, i))) == Some(tree[i].id),
{
    law_split_after_join(names_to(tree, i));
    law_names_lead_back(tree, i);
}

} // verus!
