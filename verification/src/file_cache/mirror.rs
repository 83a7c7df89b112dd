//! Why bringing the cache in step with a scan makes it mirror the scan.

use crate::file_cache::diff::changed_records;
use crate::file_cache::diff::is_changed;
use crate::file_cache::diff::diff_ops;
use crate::file_cache::diff::is_hit;
use crate::file_cache::diff::is_stale;
use crate::file_cache::diff::stale_ids;
use crate::file_cache::laws::mirrors;
use crate::file_cache::diff::paths_of;
use crate::file_cache::diff::ScanView;
use crate::file_cache::entry::EntryKindView;
use crate::file_cache::entry::EntryView;
use crate::file_cache::laws::law_put_keeps_other_paths;
use crate::file_cache::laws::lemma_extends_keeps_paths;
use crate::file_cache::meta::FileMetaView;
use crate::file_cache::tree::apply_op;
use crate::file_cache::tree::apply_ops;
use crate::file_cache::tree::child_index;
use crate::file_cache::tree::child_of;
use crate::file_cache::tree::ensure_path_id;
use crate::file_cache::tree::ensure_path_tree;
use crate::file_cache::tree::file_kind;
use crate::file_cache::tree::has_child;
use crate::file_cache::tree::has_id;
use crate::file_cache::tree::in_subtree;
use crate::file_cache::tree::is_removed;
use crate::file_cache::tree::key_at;
use crate::file_cache::tree::removed_keys;
use crate::file_cache::tree::lemma_kept_contains;
use crate::file_cache::tree::lemma_kept_stays;
use crate::file_cache::tree::lemma_remove_subtree_wf;
use crate::file_cache::tree::drop_ops;
use crate::file_cache::tree::drop_record;
use crate::file_cache::tree::is_leaf;
use crate::file_cache::tree::lemma_update_kind_wf;
use crate::file_cache::tree::remove_subtree;
use crate::file_cache::tree::stays;
use crate::file_cache::tree::index_of;
use crate::file_cache::tree::is_child_at;
use crate::file_cache::tree::lemma_child_unique;
use crate::file_cache::tree::lemma_ensure_path;
use crate::file_cache::tree::lemma_index_of;
use crate::file_cache::tree::lemma_parent_index;
use crate::file_cache::tree::lemma_resolve_from_in_tree;
use crate::file_cache::tree::lemma_resolve_split;
use crate::file_cache::tree::missing_names;
use crate::file_cache::tree::names_to;
use crate::file_cache::tree::parent_index;
use crate::file_cache::tree::path_error;
use crate::file_cache::tree::put_ops;
use crate::file_cache::tree::relative_names;
use crate::file_cache::tree::resolve;
use crate::file_cache::tree::resolve_from;
use crate::file_cache::tree::state_wf;
use crate::file_cache::tree::tree_wf;
use crate::file_cache::tree::TreeOp;
use crate::file_cache::tree::TreeState;
use vstd::prelude::*;

verus! {

/// The names on the way to a child are those on the way to its parent, and
/// then its own.
pub proof fn lemma_way_to_child(tree: Seq<EntryView>, parent: u64, name: Seq<char>)
    requires
        tree_wf(tree),
        has_id(tree, parent),
        has_child(tree, parent, name),
    ensures
        has_id(tree, child_of(tree, parent, name)->0),
        names_to(tree, index_of(tree, child_of(tree, parent, name)->0)) == names_to(
            tree,
            index_of(tree, parent),
        ).push(name),
{
    let c = child_index(tree, parent, name);
    assert(is_child_at(tree, c, parent, name));
    lemma_index_of(tree, c);
    lemma_parent_index(tree, c);
    let m = index_of(tree, parent);
    assert(0 <= m < tree.len() && tree[m].id == parent);
    lemma_index_of(tree, m);
    lemma_index_of(tree, parent_index(tree, c));
}

/// Names that lead from the root to an entry are the names on the way to
/// it: there is one way to each entry.
pub proof fn lemma_one_way(tree: Seq<EntryView>, names: Seq<Seq<char>>)
    requires
        tree_wf(tree),
        resolve_from(tree, tree[0].id, names) is Some,
    ensures
        has_id(tree, resolve_from(tree, tree[0].id, names)->0),
        names == names_to(tree, index_of(tree, resolve_from(tree, tree[0].id, names)->0)),
    decreases names.len(),
{
    let root = tree[0].id;
    let found = resolve_from(tree, root, names)->0;
    lemma_index_of(tree, 0);
    if names.len() == 0 {
        assert(names_to(tree, 0) =~= names);
    } else {
        let k = names.len() - 1;
        lemma_resolve_split(tree, root, names, k);
        let mid = resolve_from(tree, root, names.take(k))->0;
        lemma_one_way(tree, names.take(k));
        let last = names.skip(k);
        assert(last[0] == names.last());
        assert(last.skip(1).len() == 0);
        assert(resolve_from(tree, mid, last) == Some(found));
        assert(has_child(tree, mid, names.last()));
        let child = child_of(tree, mid, names.last())->0;
        assert(resolve_from(tree, child, last.skip(1)) == Some(child));
        assert(found == child);
        lemma_way_to_child(tree, mid, names.last());
        assert(names =~= names.take(k).push(names.last()));
    }
}

/// Two ways to one entry are one way.
pub proof fn law_paths_are_unique(tree: Seq<EntryView>, a: Seq<Seq<char>>, b: Seq<Seq<char>>)
    requires
        tree_wf(tree),
        resolve_from(tree, tree[0].id, a) is Some,
        resolve_from(tree, tree[0].id, a) == resolve_from(tree, tree[0].id, b),
    ensures
        a == b,
{
    lemma_one_way(tree, a);
    lemma_one_way(tree, b);
}

/// Whether a scan is plain for a tree: each of its paths names something
/// below the root, and none of them leads to where another leads or lies on
/// the way to another.
pub open spec fn scan_is_plain(tree: Seq<EntryView>, records: ScanView) -> bool {
    &&& forall|j: int|
        0 <= j < records.len() ==> relative_names(tree, (#[trigger] records[j]).0).len() > 0
    &&& forall|j: int, k: int|
        0 <= j < records.len() && 0 <= k < records.len() && j != k ==> !relative_names(
            tree,
            (#[trigger] records[j]).0,
        ).is_prefix_of(relative_names(tree, (#[trigger] records[k]).0))
}

/// The number of names below the root in the first `n` paths of a scan,
/// all together: no more ids than this are needed to put them.
pub open spec fn names_total(tree: Seq<EntryView>, records: ScanView, n: int) -> nat
    decreases n,
{
    if n <= 0 {
        0
    } else {
        names_total(tree, records, n - 1) + relative_names(tree, records[n - 1].0).len()
    }
}

/// Whether the tree holds, at its path, each record of the scan that is
/// among the first `n` or was held by `base` already.
pub open spec fn holds_scan(
    tree: Seq<EntryView>,
    base: Seq<EntryView>,
    records: ScanView,
    n: int,
) -> bool {
    forall|j: int|
        0 <= j < records.len() && (j < n || !is_changed(base, records[j])) ==> !is_changed(
            tree,
            #[trigger] records[j],
        )
}

/// Whether a path of the scan leads to each file of the tree.
pub open spec fn files_are_hit(tree: Seq<EntryView>, records: ScanView) -> bool {
    forall|i: int|
        0 < i < tree.len() && (#[trigger] tree[i]).kind is File ==> is_hit(
            tree,
            paths_of(records),
            records.len() as int,
            tree[i].id,
        )
}

/// No more names are missing on a path than it has.
pub proof fn lemma_missing_names_bound(tree: Seq<EntryView>, from: u64, names: Seq<Seq<char>>)
    ensures
        missing_names(tree, from, names) <= names.len(),
    decreases names.len(),
{
    if names.len() > 0 {
        match child_of(tree, from, names[0]) {
            Some(child) => lemma_missing_names_bound(tree, child, names.skip(1)),
            None => {},
        }
    }
}

/// The total grows with the number of paths counted.
pub proof fn lemma_names_total_grows(tree: Seq<EntryView>, records: ScanView, n: int, m: int)
    requires
        0 <= n <= m,
    ensures
        names_total(tree, records, n) <= names_total(tree, records, m),
    decreases m - n,
{
    if n < m {
        lemma_names_total_grows(tree, records, n, m - 1);
    }
}

/// Putting the next record of a plain scan, where it is changed, keeps what
/// was put before and what was held already, and keeps every file on a
/// path of the scan.
pub proof fn lemma_put_step(s: TreeState, base: Seq<EntryView>, records: ScanView, n: int)
    requires
        state_wf(s),
        s.tree[0].id == base[0].id,
        s.tree[0].name == base[0].name,
        scan_is_plain(base, records),
        0 <= n < records.len(),
        holds_scan(s.tree, base, records, n),
        files_are_hit(s.tree, records),
        s.next_id + relative_names(base, records[n].0).len() <= u64::MAX,
    ensures
        ({
            let after = if is_changed(base, records[n]) {
                apply_op(s, TreeOp::PutFile { path: records[n].0, record: records[n].1 })
            } else {
                s
            };
            &&& state_wf(after)
            &&& after.tree[0].id == base[0].id
            &&& after.tree[0].name == base[0].name
            &&& holds_scan(after.tree, base, records, n + 1)
            &&& files_are_hit(after.tree, records)
            &&& after.next_id <= s.next_id + relative_names(base, records[n].0).len()
        }),
{
    let path = records[n].0;
    let record = records[n].1;
    let names = relative_names(base, path);
    assert(relative_names(s.tree, path) == names);
    let root = s.tree[0].id;
    if is_changed(base, records[n]) {
        let kind = file_kind(record, path);
        lemma_missing_names_bound(s.tree, root, names);
        assert(path_error(s.tree, s.next_id as u64, path) is None);
        let after = apply_op(s, TreeOp::PutFile { path, record });
        let put = ensure_path_id(s.tree, s.next_id, root, names);
        lemma_index_of(s.tree, 0);
        lemma_ensure_path(s.tree, s.next_id, root, names, kind);
        assert(after.tree == ensure_path_tree(s.tree, s.next_id, root, names, kind));
        assert(relative_names(after.tree, path) == names);
        assert(!is_changed(after.tree, records[n]));
        assert forall|j: int|
            0 <= j < records.len() && (j < n + 1 || !is_changed(
                base,
                records[j],
            )) implies !is_changed(after.tree, #[trigger] records[j]) by {
            if j != n {
                let other = relative_names(base, records[j].0);
                assert(relative_names(s.tree, records[j].0) == other);
                assert(relative_names(after.tree, records[j].0) == other);
                assert(!is_changed(s.tree, records[j]));
                assert(resolve_from(s.tree, root, other) is Some);
                law_put_keeps_other_paths(s.tree, s.next_id, names, kind, other);
                let found = resolve_from(s.tree, root, other)->0;
                if found == put {
                    law_paths_are_unique(after.tree, other, names);
                    assert(other.is_prefix_of(names));
                    assert(false);
                }
            }
        }
        assert forall|i: int|
            0 < i < after.tree.len() && (#[trigger] after.tree[i]).kind is File implies is_hit(
            after.tree,
            paths_of(records),
            records.len() as int,
            after.tree[i].id,
        ) by {
            if after.tree[i].id == put {
                assert(paths_of(records)[n] == path);
                assert(resolve(after.tree, paths_of(records)[n]) == Some(put));
            } else {
                assert(i < s.tree.len());
                assert(after.tree[i] == s.tree[i]);
                assert(is_hit(s.tree, paths_of(records), records.len() as int, s.tree[i].id));
                let j = choose|j: int|
                    0 <= j < records.len() && j < paths_of(records).len() && resolve(
                        s.tree,
                        #[trigger] paths_of(records)[j],
                    ) == Some(s.tree[i].id);
                let other = relative_names(s.tree, paths_of(records)[j]);
                assert(relative_names(after.tree, paths_of(records)[j]) == other);
                lemma_extends_keeps_paths(s.tree, after.tree, root, other);
                assert(resolve(after.tree, paths_of(records)[j]) == Some(after.tree[i].id));
            }
        }
    }
}

/// Putting the changed records among the first `n` of a plain scan, in
/// their order, makes the tree hold each of the first `n` records at its
/// path, and keeps what it held already.
pub proof fn lemma_puts(start: TreeState, base: Seq<EntryView>, records: ScanView, n: int)
    requires
        state_wf(start),
        start.tree[0].id == base[0].id,
        start.tree[0].name == base[0].name,
        scan_is_plain(base, records),
        0 <= n <= records.len(),
        holds_scan(start.tree, base, records, 0),
        files_are_hit(start.tree, records),
        start.next_id + names_total(base, records, records.len() as int) <= u64::MAX,
    ensures
        ({
            let after = apply_ops(start, put_ops(changed_records(base, records, n)));
            &&& state_wf(after)
            &&& after.tree[0].id == base[0].id
            &&& after.tree[0].name == base[0].name
            &&& holds_scan(after.tree, base, records, n)
            &&& files_are_hit(after.tree, records)
            &&& after.next_id <= start.next_id + names_total(base, records, n)
        }),
    decreases n,
{
    if n == 0 {
        assert(put_ops(changed_records(base, records, 0)).len() == 0);
    } else {
        lemma_puts(start, base, records, n - 1);
        let before = changed_records(base, records, n - 1);
        let s = apply_ops(start, put_ops(before));
        lemma_names_total_grows(base, records, n, records.len() as int);
        lemma_put_step(s, base, records, n - 1);
        if is_changed(base, records[n - 1]) {
            let ops = put_ops(changed_records(base, records, n));
            assert(ops.drop_last() =~= put_ops(before));
            assert(ops.last() == (TreeOp::PutFile {
                path: records[n - 1].0,
                record: records[n - 1].1,
            }));
        }
    }
}

/// Below an entry without children lies nothing but itself.
pub proof fn lemma_leaf_subtree(tree: Seq<EntryView>, top: u64, i: int)
    requires
        tree_wf(tree),
        is_leaf(tree, top),
        0 <= i < tree.len(),
    ensures
        in_subtree(tree, top, i) == (tree[i].id == top),
    decreases i,
{
    if tree[i].id != top && i > 0 {
        lemma_parent_index(tree, i);
        let j = parent_index(tree, i);
        lemma_leaf_subtree(tree, top, j);
    }
}

/// Removing an entry without children removes that entry and no other.
pub proof fn lemma_remove_leaf(tree: Seq<EntryView>, top: u64)
    requires
        tree_wf(tree),
        is_leaf(tree, top),
        top != tree[0].id,
    ensures
        tree_wf(remove_subtree(tree, top)),
        remove_subtree(tree, top)[0] == tree[0],
        forall|k: int|
            0 <= k < remove_subtree(tree, top).len() ==> tree.contains(
                #[trigger] remove_subtree(tree, top)[k],
            ) && remove_subtree(tree, top)[k].id != top,
        forall|j: int|
            0 <= j < tree.len() ==> (remove_subtree(tree, top).contains(#[trigger] tree[j])
                <==> tree[j].id != top),
{
    let after = remove_subtree(tree, top);
    let n = tree.len() as int;
    lemma_remove_subtree_wf(tree, top);
    lemma_kept_stays(tree, top, n);
    assert forall|k: int| 0 <= k < after.len() implies tree.contains(#[trigger] after[k])
        && after[k].id != top by {
        assert(stays(tree, top, n, after[k]));
        let j = choose|j: int|
            0 <= j < n && j < tree.len() && !is_removed(tree, top, j) && #[trigger] tree[j]
                == after[k];
        lemma_leaf_subtree(tree, top, j);
        if j == 0 {
            assert(tree[0].id != top);
        }
    }
    assert forall|j: int| 0 <= j < tree.len() implies (after.contains(#[trigger] tree[j])
        <==> tree[j].id != top) by {
        lemma_leaf_subtree(tree, top, j);
        if tree[j].id != top {
            lemma_kept_contains(tree, top, n, j);
        } else if after.contains(tree[j]) {
            let k = choose|k: int| 0 <= k < after.len() && after[k] == tree[j];
            assert(after[k].id != top);
        }
    }
}

/// Whether the entry `e` stands for the entry at `j` of the whole tree once
/// what the stale files among its first `n` entries hold has been dropped:
/// it has the id, the name and the parent of that entry, and its kind, or
/// is a directory where that entry is one of those stale files.
pub open spec fn stands_for(
    e: EntryView,
    whole: Seq<EntryView>,
    paths: Seq<Seq<char>>,
    n: int,
    j: int,
) -> bool {
    &&& 0 <= j < whole.len()
    &&& e.id == whole[j].id
    &&& e.name == whole[j].name
    &&& e.parent == whole[j].parent
    &&& e.kind == if j < n && is_stale(whole, paths, j) {
        EntryKindView::Directory
    } else {
        whole[j].kind
    }
}

/// Whether the entry `e` stands for an entry of the whole tree.
pub open spec fn has_origin(e: EntryView, whole: Seq<EntryView>, paths: Seq<Seq<char>>, n: int)
    -> bool {
    exists|j: int| stands_for(e, whole, paths, n, j)
}

/// Whether `part` is what is left of `whole` once what the stale files
/// among its first `n` entries hold has been dropped: each entry of the part
/// stands for one of the whole, and an entry of the whole is gone just where
/// it is one of those stale files and nothing lies below it.
pub open spec fn holds_the_fresh(
    part: Seq<EntryView>,
    whole: Seq<EntryView>,
    paths: Seq<Seq<char>>,
    n: int,
) -> bool {
    &&& forall|k: int| 0 <= k < part.len() ==> has_origin(#[trigger] part[k], whole, paths, n)
    &&& forall|j: int|
        0 <= j < whole.len() ==> (has_id(part, (#[trigger] whole[j]).id) <==> !(j < n && is_stale(
            whole,
            paths,
            j,
        ) && is_leaf(whole, whole[j].id)))
}

/// The entry of the part with the id of the entry at `j` of the whole
/// stands for that entry.
pub proof fn lemma_origin_by_id(
    part: Seq<EntryView>,
    whole: Seq<EntryView>,
    paths: Seq<Seq<char>>,
    n: int,
    k: int,
    j: int,
)
    requires
        tree_wf(whole),
        holds_the_fresh(part, whole, paths, n),
        0 <= k < part.len(),
        0 <= j < whole.len(),
        part[k].id == whole[j].id,
    ensures
        stands_for(part[k], whole, paths, n, j),
{
    assert(has_origin(part[k], whole, paths, n));
    let o = choose|o: int| stands_for(part[k], whole, paths, n, o);
    lemma_index_of(whole, o);
    lemma_index_of(whole, j);
}

/// An entry of the whole that is none of the stale files is in the part as
/// it was.
pub proof fn lemma_fresh_entry(
    part: Seq<EntryView>,
    whole: Seq<EntryView>,
    paths: Seq<Seq<char>>,
    n: int,
    j: int,
)
    requires
        tree_wf(whole),
        holds_the_fresh(part, whole, paths, n),
        0 <= j < whole.len(),
        !(j < n && is_stale(whole, paths, j)),
    ensures
        part.contains(whole[j]),
{
    assert(has_id(part, whole[j].id));
    let k = choose|k: int| 0 <= k < part.len() && #[trigger] part[k].id == whole[j].id;
    lemma_origin_by_id(part, whole, paths, n, k, j);
    assert(part[k] == whole[j]);
}

/// A child in the whole whose entry is still in the part is that child in
/// the part.
pub proof fn lemma_child_in_part(
    part: Seq<EntryView>,
    whole: Seq<EntryView>,
    paths: Seq<Seq<char>>,
    n: int,
    parent: u64,
    name: Seq<char>,
)
    requires
        tree_wf(part),
        tree_wf(whole),
        holds_the_fresh(part, whole, paths, n),
        has_child(whole, parent, name),
        has_id(part, child_of(whole, parent, name)->0),
    ensures
        child_of(part, parent, name) == child_of(whole, parent, name),
{
    let c = child_index(whole, parent, name);
    assert(is_child_at(whole, c, parent, name));
    let k = choose|k: int| 0 <= k < part.len() && #[trigger] part[k].id == whole[c].id;
    lemma_origin_by_id(part, whole, paths, n, k, c);
    assert(is_child_at(part, k, parent, name));
    lemma_child_unique(part, k, parent, name);
}

/// Names that lead to an entry which is no stale file lead to it in what is
/// left of the tree.
pub proof fn lemma_fresh_path(
    part: Seq<EntryView>,
    whole: Seq<EntryView>,
    paths: Seq<Seq<char>>,
    from: u64,
    names: Seq<Seq<char>>,
)
    requires
        tree_wf(part),
        tree_wf(whole),
        holds_the_fresh(part, whole, paths, whole.len() as int),
        has_id(whole, from),
        resolve_from(whole, from, names) is Some,
        names.len() > 0 ==> !is_stale(
            whole,
            paths,
            index_of(whole, resolve_from(whole, from, names)->0),
        ),
    ensures
        resolve_from(part, from, names) == resolve_from(whole, from, names),
    decreases names.len(),
{
    if names.len() > 0 {
        let c = child_index(whole, from, names[0]);
        assert(is_child_at(whole, c, from, names[0]));
        lemma_index_of(whole, c);
        let rest = names.skip(1);
        assert(has_id(part, whole[c].id)) by {
            if rest.len() == 0 {
                assert(resolve_from(whole, whole[c].id, rest) == Some(whole[c].id));
            } else {
                assert(has_child(whole, whole[c].id, rest[0]));
                let g = child_index(whole, whole[c].id, rest[0]);
                assert(is_child_at(whole, g, whole[c].id, rest[0]));
                assert(!is_leaf(whole, whole[c].id));
            }
        }
        lemma_child_in_part(part, whole, paths, whole.len() as int, from, names[0]);
        lemma_fresh_path(part, whole, paths, whole[c].id, rest);
    }
}

/// What lies below a stale file in the whole lies below it in what is left
/// when its turn comes, and nothing else does.
pub proof fn lemma_same_leaf(
    part: Seq<EntryView>,
    whole: Seq<EntryView>,
    paths: Seq<Seq<char>>,
    n: int,
)
    requires
        tree_wf(part),
        tree_wf(whole),
        0 < n <= whole.len(),
        part[0] == whole[0],
        holds_the_fresh(part, whole, paths, n - 1),
    ensures
        is_leaf(part, whole[n - 1].id) == is_leaf(whole, whole[n - 1].id),
        has_id(part, whole[n - 1].id),
{
    let m = n - 1;
    let top = whole[n - 1].id;
    if !is_leaf(whole, top) {
        let c = choose|c: int| 0 < c < whole.len() && (#[trigger] whole[c]).parent == Some(top);
        lemma_parent_index(whole, c);
        lemma_index_of(whole, n - 1);
        assert(c > n - 1);
        lemma_fresh_entry(part, whole, paths, n - 1, c);
        let k = choose|k: int| 0 <= k < part.len() && part[k] == whole[c];
        assert(k > 0);
        assert(part[k].parent == Some(top));
    }
    if !is_leaf(part, top) {
        let k = choose|k: int| 0 < k < part.len() && (#[trigger] part[k]).parent == Some(top);
        assert(has_origin(part[k], whole, paths, m));
        let j = choose|j: int| stands_for(part[k], whole, paths, m, j);
        assert(whole[j].parent == Some(top));
        assert(j > 0);
    }
}

/// Removing a stale file below which nothing lies from what is left of the
/// tree so far gives what is left of it then.
pub proof fn lemma_drop_leaf(
    part: Seq<EntryView>,
    whole: Seq<EntryView>,
    paths: Seq<Seq<char>>,
    n: int,
)
    requires
        tree_wf(part),
        tree_wf(whole),
        0 < n <= whole.len(),
        is_stale(whole, paths, n - 1),
        part[0] == whole[0],
        holds_the_fresh(part, whole, paths, n - 1),
        is_leaf(part, whole[n - 1].id),
        is_leaf(whole, whole[n - 1].id),
    ensures
        tree_wf(remove_subtree(part, whole[n - 1].id)),
        remove_subtree(part, whole[n - 1].id)[0] == whole[0],
        holds_the_fresh(remove_subtree(part, whole[n - 1].id), whole, paths, n),
{
    let m = n - 1;
    let top = whole[m].id;
    let after = remove_subtree(part, top);
    lemma_index_of(whole, m);
    assert(whole[0].id < top);
    lemma_remove_leaf(part, top);
    assert forall|k: int| 0 <= k < after.len() implies has_origin(
        #[trigger] after[k],
        whole,
        paths,
        n,
    ) by {
        assert(part.contains(after[k]));
        let b = choose|b: int| 0 <= b < part.len() && part[b] == after[k];
        assert(has_origin(part[b], whole, paths, m));
        let j = choose|j: int| stands_for(part[b], whole, paths, m, j);
        assert(j != m);
        assert(stands_for(after[k], whole, paths, n, j));
    }
    assert forall|j: int| 0 <= j < whole.len() implies (has_id(after, (#[trigger] whole[j]).id)
        <==> !(j < n && is_stale(whole, paths, j) && is_leaf(whole, whole[j].id))) by {
        lemma_index_of(whole, j);
        if has_id(after, whole[j].id) {
            let k = choose|k: int| 0 <= k < after.len() && #[trigger] after[k].id == whole[j].id;
            assert(part.contains(after[k]));
            let b = choose|b: int| 0 <= b < part.len() && part[b] == after[k];
            assert(part[b].id == whole[j].id);
        }
        if j != m && has_id(part, whole[j].id) {
            let b = choose|b: int| 0 <= b < part.len() && #[trigger] part[b].id == whole[j].id;
            assert(after.contains(part[b]));
            let k = choose|k: int| 0 <= k < after.len() && after[k] == part[b];
            assert(after[k].id == whole[j].id);
        }
    }
}

/// Making a directory of a stale file below which something lies, in what
/// is left of the tree so far, gives what is left of it then.
pub proof fn lemma_drop_kept(
    part: Seq<EntryView>,
    whole: Seq<EntryView>,
    paths: Seq<Seq<char>>,
    n: int,
    x: int,
)
    requires
        tree_wf(part),
        tree_wf(whole),
        0 < n <= whole.len(),
        is_stale(whole, paths, n - 1),
        part[0] == whole[0],
        holds_the_fresh(part, whole, paths, n - 1),
        !is_leaf(whole, whole[n - 1].id),
        0 < x < part.len(),
        part[x].id == whole[n - 1].id,
    ensures
        ({
            let after = part.update(x, EntryView { kind: EntryKindView::Directory, ..part[x] });
            &&& tree_wf(after)
            &&& after[0] == whole[0]
            &&& holds_the_fresh(after, whole, paths, n)
        }),
{
    let m = n - 1;
    let after = part.update(x, EntryView { kind: EntryKindView::Directory, ..part[x] });
    lemma_index_of(whole, m);
    lemma_index_of(part, x);
    lemma_update_kind_wf(part, x, EntryKindView::Directory);
    assert forall|k: int| 0 <= k < after.len() implies has_origin(
        #[trigger] after[k],
        whole,
        paths,
        n,
    ) by {
        assert(has_origin(part[k], whole, paths, m));
        let j = choose|j: int| stands_for(part[k], whole, paths, m, j);
        lemma_index_of(whole, j);
        lemma_index_of(part, k);
        if k == x {
            assert(j == m);
        } else {
            assert(j != m);
        }
        assert(stands_for(after[k], whole, paths, n, j));
    }
    assert forall|j: int| 0 <= j < whole.len() implies (has_id(after, (#[trigger] whole[j]).id)
        <==> !(j < n && is_stale(whole, paths, j) && is_leaf(whole, whole[j].id))) by {
        lemma_index_of(whole, j);
        if has_id(after, whole[j].id) {
            let k = choose|k: int| 0 <= k < after.len() && #[trigger] after[k].id == whole[j].id;
            assert(part[k].id == whole[j].id);
        }
        if has_id(part, whole[j].id) {
            let b = choose|b: int| 0 <= b < part.len() && #[trigger] part[b].id == whole[j].id;
            assert(after[b].id == whole[j].id);
        }
    }
}

/// Dropping what one stale file holds from what is left of the tree so far
/// gives what is left of it then.
pub proof fn lemma_drop_step(
    part: Seq<EntryView>,
    whole: Seq<EntryView>,
    paths: Seq<Seq<char>>,
    n: int,
)
    requires
        tree_wf(part),
        tree_wf(whole),
        0 < n <= whole.len(),
        is_stale(whole, paths, n - 1),
        part[0] == whole[0],
        holds_the_fresh(part, whole, paths, n - 1),
    ensures
        tree_wf(drop_record(part, whole[n - 1].id)),
        drop_record(part, whole[n - 1].id)[0] == whole[0],
        holds_the_fresh(drop_record(part, whole[n - 1].id), whole, paths, n),
{
    let top = whole[n - 1].id;
    lemma_same_leaf(part, whole, paths, n);
    lemma_index_of(whole, n - 1);
    assert(whole[0].id < top);
    let x = index_of(part, top);
    assert(0 <= x < part.len() && part[x].id == top);
    if is_leaf(part, top) {
        lemma_drop_leaf(part, whole, paths, n);
    } else {
        lemma_drop_kept(part, whole, paths, n, x);
    }
}

/// The ids of what is left of a tree lie below what bounds the ids of the
/// tree.
pub proof fn lemma_part_ids_bound(
    part: Seq<EntryView>,
    whole: Seq<EntryView>,
    paths: Seq<Seq<char>>,
    n: int,
    bound: int,
)
    requires
        forall|k: int| 0 <= k < part.len() ==> has_origin(#[trigger] part[k], whole, paths, n),
        forall|j: int| 0 <= j < whole.len() ==> (#[trigger] whole[j]).id < bound,
    ensures
        forall|k: int| 0 <= k < part.len() ==> (#[trigger] part[k]).id < bound,
{
    assert forall|k: int| 0 <= k < part.len() implies (#[trigger] part[k]).id < bound by {
        assert(has_origin(part[k], whole, paths, n));
        let j = choose|j: int| stands_for(part[k], whole, paths, n, j);
        assert(whole[j].id < bound);
    }
}

/// Dropping what the stale files among the first `n` entries hold, in the
/// order of their ids, leaves the other entries as they were, and of the
/// stale files those as directories below which something lies.
pub proof fn lemma_drops(start: TreeState, paths: Seq<Seq<char>>, n: int)
    requires
        state_wf(start),
        0 <= n <= start.tree.len(),
    ensures
        ({
            let after = apply_ops(start, drop_ops(stale_ids(start.tree, paths, n)));
            &&& state_wf(after)
            &&& after.next_id == start.next_id
            &&& after.tree[0] == start.tree[0]
            &&& holds_the_fresh(after.tree, start.tree, paths, n)
        }),
    decreases n,
{
    let m = n - 1;
    let whole = start.tree;
    if n == 0 {
        assert(drop_ops(stale_ids(whole, paths, 0)).len() == 0);
        assert forall|k: int| 0 <= k < whole.len() implies has_origin(
            #[trigger] whole[k],
            whole,
            paths,
            0,
        ) by {
            assert(stands_for(whole[k], whole, paths, 0, k));
        }
    } else {
        lemma_drops(start, paths, n - 1);
        let ids = stale_ids(whole, paths, n - 1);
        let before = apply_ops(start, drop_ops(ids));
        if is_stale(whole, paths, n - 1) {
            let top = whole[n - 1].id;
            let ops = drop_ops(stale_ids(whole, paths, n));
            assert(ops.drop_last() =~= drop_ops(ids));
            assert(ops.last() == (TreeOp::Drop { id: top }));
            let after = apply_ops(start, ops);
            assert(after.tree == drop_record(before.tree, top));
            assert(after.next_id == start.next_id);
            lemma_drop_step(before.tree, whole, paths, n);
            lemma_part_ids_bound(after.tree, whole, paths, n, start.next_id);
        } else {
            let part = before.tree;
            assert forall|k: int| 0 <= k < part.len() implies has_origin(
                #[trigger] part[k],
                whole,
                paths,
                n,
            ) by {
                assert(has_origin(part[k], whole, paths, m));
                let j = choose|j: int| stands_for(part[k], whole, paths, m, j);
                assert(stands_for(part[k], whole, paths, n, j));
            }
        }
    }
}

/// Changes made one sequence after another are the changes of the two
/// sequences joined.
pub proof fn lemma_apply_ops_concat(s: TreeState, a: Seq<TreeOp>, b: Seq<TreeOp>)
    ensures
        apply_ops(s, a + b) == apply_ops(apply_ops(s, a), b),
    decreases b.len(),
{
    if b.len() == 0 {
        assert(a + b =~= a);
    } else {
        lemma_apply_ops_concat(s, a, b.drop_last());
        assert((a + b).drop_last() =~= a + b.drop_last());
        assert((a + b).last() == b.last());
    }
}

/// A path of the scan that leads to an entry of the whole tree leads to it
/// in what is left of the tree, and the entry is as it was.
pub proof fn lemma_hit_stays(
    part: Seq<EntryView>,
    whole: Seq<EntryView>,
    paths: Seq<Seq<char>>,
    j: int,
)
    requires
        tree_wf(part),
        tree_wf(whole),
        part[0] == whole[0],
        holds_the_fresh(part, whole, paths, whole.len() as int),
        0 <= j < paths.len(),
        resolve(whole, paths[j]) is Some,
    ensures
        resolve(part, paths[j]) == resolve(whole, paths[j]),
        has_id(whole, resolve(whole, paths[j])->0),
        has_id(part, resolve(whole, paths[j])->0),
        part[index_of(part, resolve(whole, paths[j])->0)] == whole[index_of(
            whole,
            resolve(whole, paths[j])->0,
        )],
{
    let root = whole[0].id;
    let names = relative_names(whole, paths[j]);
    assert(relative_names(part, paths[j]) == names);
    lemma_index_of(whole, 0);
    lemma_resolve_from_in_tree(whole, root, names);
    let found = resolve(whole, paths[j])->0;
    let x = index_of(whole, found);
    assert(0 <= x < whole.len() && whole[x].id == found);
    assert(is_hit(whole, paths, paths.len() as int, found));
    lemma_fresh_path(part, whole, paths, root, names);
    lemma_fresh_entry(part, whole, paths, whole.len() as int, x);
    let k = choose|k: int| 0 <= k < part.len() && part[k] == whole[x];
    lemma_index_of(part, k);
}

/// Bringing the cache in step with a scan makes it mirror the scan: where
/// the scan is plain and the ids suffice, the tree afterwards holds each
/// record of the scan at its path, under that path as its key, and a path of
/// the scan leads to each of its files.
pub proof fn law_diff_mirrors(start: TreeState, records: ScanView)
    requires
        state_wf(start),
        scan_is_plain(start.tree, records),
        start.next_id + names_total(start.tree, records, records.len() as int) <= u64::MAX,
    ensures
        state_wf(apply_ops(start, diff_ops(start.tree, records))),
        mirrors(apply_ops(start, diff_ops(start.tree, records)).tree, records),
{
    let whole = start.tree;
    let paths = paths_of(records);
    let drops = drop_ops(stale_ids(whole, paths, whole.len() as int));
    let puts = put_ops(changed_records(whole, records, records.len() as int));
    lemma_apply_ops_concat(start, drops, puts);
    lemma_drops(start, paths, whole.len() as int);
    let fresh = apply_ops(start, drops);
    assert(holds_scan(fresh.tree, whole, records, 0)) by {
        assert forall|j: int|
            0 <= j < records.len() && !is_changed(whole, records[j]) implies !is_changed(
            fresh.tree,
            #[trigger] records[j],
        ) by {
            assert(paths[j] == records[j].0);
            lemma_hit_stays(fresh.tree, whole, paths, j);
        }
    }
    assert(files_are_hit(fresh.tree, records)) by {
        assert forall|i: int|
            0 < i < fresh.tree.len() && (#[trigger] fresh.tree[i]).kind is File implies is_hit(
            fresh.tree,
            paths,
            records.len() as int,
            fresh.tree[i].id,
        ) by {
            assert(has_origin(fresh.tree[i], whole, paths, whole.len() as int));
            let x = choose|x: int| stands_for(fresh.tree[i], whole, paths, whole.len() as int, x);
            assert(fresh.tree[0].id < fresh.tree[i].id);
            assert(x > 0);
            assert(!is_stale(whole, paths, x));
            assert(is_hit(whole, paths, paths.len() as int, whole[x].id));
            let j = choose|j: int|
                0 <= j < paths.len() && j < paths.len() && resolve(whole, #[trigger] paths[j])
                    == Some(whole[x].id);
            lemma_hit_stays(fresh.tree, whole, paths, j);
        }
    }
    lemma_puts(fresh, whole, records, records.len() as int);
}

/// Every entry lies below the root.
pub proof fn lemma_all_below_root(tree: Seq<EntryView>, i: int)
    requires
        tree_wf(tree),
        0 <= i < tree.len(),
    ensures
        in_subtree(tree, tree[0].id, i),
    decreases i,
{
    if i > 0 {
        lemma_parent_index(tree, i);
        lemma_all_below_root(tree, parent_index(tree, i));
    }
}

/// Removing what lies below the root leaves the root alone.
pub proof fn lemma_cleared(tree: Seq<EntryView>)
    requires
        tree_wf(tree),
    ensures
        remove_subtree(tree, tree[0].id) == seq![tree[0]],
{
    let after = remove_subtree(tree, tree[0].id);
    let n = tree.len() as int;
    lemma_kept_stays(tree, tree[0].id, n);
    if after.len() > 1 {
        assert(stays(tree, tree[0].id, n, after[1]));
        let j = choose|j: int|
            0 <= j < n && j < tree.len() && !is_removed(tree, tree[0].id, j) && #[trigger] tree[j]
                == after[1];
        lemma_all_below_root(tree, j);
        lemma_remove_subtree_wf(tree, tree[0].id);
        assert(after[0].id < after[1].id);
        assert(false);
    }
    assert(after =~= seq![tree[0]]);
}

/// Against a tree without files every record of a scan is changed.
pub proof fn lemma_all_changed(tree: Seq<EntryView>, records: ScanView, n: int)
    requires
        tree_wf(tree),
        forall|i: int| 0 <= i < tree.len() ==> !((#[trigger] tree[i]).kind is File),
        0 <= n <= records.len(),
    ensures
        changed_records(tree, records, n) == records.take(n),
    decreases n,
{
    if n > 0 {
        lemma_all_changed(tree, records, n - 1);
        let names = relative_names(tree, records[n - 1].0);
        lemma_index_of(tree, 0);
        if resolve_from(tree, tree[0].id, names) is Some {
            lemma_resolve_from_in_tree(tree, tree[0].id, names);
            let found = resolve_from(tree, tree[0].id, names)->0;
            let x = index_of(tree, found);
            assert(0 <= x < tree.len() && tree[x].id == found);
        }
        assert(is_changed(tree, records[n - 1]));
        assert(records.take(n) =~= records.take(n - 1).push(records[n - 1]));
    } else {
        assert(records.take(0) =~= Seq::<(Seq<char>, FileMetaView)>::empty());
    }
}

/// Loading the records of a plain scan into a cleared cache makes it mirror
/// them: it holds each record at its path, and a path of the scan leads to
/// each of its files.
pub proof fn law_load_mirrors(start: TreeState, records: ScanView)
    requires
        state_wf(start),
        scan_is_plain(start.tree, records),
        start.next_id + names_total(start.tree, records, records.len() as int) <= u64::MAX,
    ensures
        ({
            let cleared = TreeState {
                tree: remove_subtree(start.tree, start.tree[0].id),
                next_id: start.next_id,
            };
            &&& state_wf(apply_ops(cleared, put_ops(records)))
            &&& mirrors(apply_ops(cleared, put_ops(records)).tree, records)
        }),
{
    let root = start.tree[0];
    let cleared = TreeState { tree: remove_subtree(start.tree, root.id), next_id: start.next_id };
    lemma_cleared(start.tree);
    lemma_remove_subtree_wf(start.tree, root.id);
    assert(cleared.tree[0] == root);
    assert(state_wf(cleared));
    let n = records.len() as int;
    lemma_all_changed(cleared.tree, records, n);
    assert(records.take(n) =~= records);
    assert(scan_is_plain(cleared.tree, records)) by {
        assert forall|j: int| 0 <= j < records.len() implies relative_names(
            cleared.tree,
            (#[trigger] records[j]).0,
        ) == relative_names(start.tree, records[j].0) by {}
    }
    assert(names_total(cleared.tree, records, n) == names_total(start.tree, records, n)) by {
        lemma_names_total_same_root(cleared.tree, start.tree, records, n);
    }
    lemma_puts(cleared, cleared.tree, records, n);
}

/// The total depends on the tree by the name of its root alone.
pub proof fn lemma_names_total_same_root(
    a: Seq<EntryView>,
    b: Seq<EntryView>,
    records: ScanView,
    n: int,
)
    requires
        a.len() > 0,
        b.len() > 0,
        a[0].name == b[0].name,
    ensures
        names_total(a, records, n) == names_total(b, records, n),
    decreases n,
{
    if n > 0 {
        lemma_names_total_same_root(a, b, records, n - 1);
    }
}

/// Of the first `n` entries, removing an entry without children takes the
/// key of that entry alone, where it is a file among them.
pub proof fn lemma_leaf_keys(tree: Seq<EntryView>, top: u64, n: int)
    requires
        tree_wf(tree),
        is_leaf(tree, top),
        has_id(tree, top),
        0 <= n <= tree.len(),
    ensures
        removed_keys(tree, top, n) == if 0 < index_of(tree, top) < n && tree[index_of(
            tree,
            top,
        )].kind is File {
            seq![tree[index_of(tree, top)].kind->key]
        } else {
            Seq::<Seq<char>>::empty()
        },
    decreases n,
{
    if n > 0 {
        lemma_leaf_keys(tree, top, n - 1);
        lemma_leaf_subtree(tree, top, n - 1);
        lemma_index_of(tree, n - 1);
        let x = index_of(tree, top);
        assert(0 <= x < tree.len() && tree[x].id == top);
        lemma_index_of(tree, x);
        if tree[n - 1].id == top {
            assert(x == n - 1);
            assert(Seq::<Seq<char>>::empty().push(tree[x].kind->key) =~= seq![tree[x].kind->key]);
        }
    }
}

/// Removing the file that a path leads to hands back the key under which
/// the table holds its record, and no other, where no entry lies below the
/// file.
pub proof fn law_removal_hands_back_the_key(tree: Seq<EntryView>, path: Seq<char>)
    requires
        tree_wf(tree),
        key_at(tree, path) is Some,
        is_leaf(tree, resolve(tree, path)->0),
    ensures
        removed_keys(tree, resolve(tree, path)->0, tree.len() as int) == seq![
            key_at(tree, path)->0,
        ],
{
    let id = resolve(tree, path)->0;
    lemma_index_of(tree, 0);
    lemma_resolve_from_in_tree(tree, tree[0].id, relative_names(tree, path));
    lemma_leaf_keys(tree, id, tree.len() as int);
    let x = index_of(tree, id);
    assert(0 <= x < tree.len() && tree[x].id == id);
}

} // verus!
