use linkfield::file_cache::db::StoreBatch;
use linkfield::file_cache::{FileCache, FileCachePath, FileMeta};

fn meta(path: &str, size: u64) -> FileMeta {
    FileMeta::from_stat(path, size, Some(1_000), None)
}

fn scan(items: &[(&str, u64)]) -> Vec<(FileCachePath, FileMeta)> {
    items.iter().map(|(p, s)| (FileCachePath::new(p), meta(p, *s))).collect()
}

fn keys(batch: &StoreBatch) -> Vec<String> {
    batch.upserts.iter().map(|(k, _)| k.clone()).collect()
}

#[test]
fn first_scan_stages_every_record() {
    let mut cache = FileCache::new_root("root");
    let first = scan(&[("a.txt", 1), ("dir/b.txt", 2), ("dir/c.txt", 3)]);
    let batch = cache.diff_and_update(&first);
    assert!(batch.removals.is_empty());
    assert_eq!(keys(&batch), vec!["a.txt", "dir/b.txt", "dir/c.txt"]);
    assert_eq!(batch.upserts[1].1, meta("dir/b.txt", 2).serialize());
    assert_eq!(cache.get("dir/b.txt"), Some(meta("dir/b.txt", 2)));
    assert_eq!(cache.all_files().len(), 3);
}

#[test]
fn unchanged_scan_stages_nothing() {
    let mut cache = FileCache::new_root("root");
    let first = scan(&[("a.txt", 1), ("dir/b.txt", 2), ("dir/c.txt", 3)]);
    cache.diff_and_update(&first);
    let len = cache.len();
    let batch = cache.diff_and_update(&first);
    assert!(batch.removals.is_empty());
    assert!(batch.upserts.is_empty());
    assert_eq!(cache.len(), len);
}

#[test]
fn one_changed_size_stages_one_upsert() {
    let mut cache = FileCache::new_root("root");
    cache.diff_and_update(&scan(&[("a.txt", 1), ("dir/b.txt", 2), ("dir/c.txt", 3)]));
    let second = scan(&[("a.txt", 1), ("dir/b.txt", 20), ("dir/c.txt", 3)]);
    let staged = cache.diff(&second);
    assert!(staged.stale.is_empty());
    assert!(staged.to_remove.is_empty());
    assert_eq!(staged.to_add_or_update, scan(&[("dir/b.txt", 20)]));
    let batch = cache.diff_and_update(&second);
    assert!(batch.removals.is_empty());
    assert_eq!(keys(&batch), vec!["dir/b.txt"]);
    assert_eq!(FileMeta::deserialize(&batch.upserts[0].1), meta("dir/b.txt", 20));
    assert_eq!(cache.get("dir/b.txt"), Some(meta("dir/b.txt", 20)));
    assert_eq!(cache.get("a.txt"), Some(meta("a.txt", 1)));
}

#[test]
fn vanished_file_is_staged_for_removal() {
    let mut cache = FileCache::new_root("root");
    cache.diff_and_update(&scan(&[("a.txt", 1), ("dir/b.txt", 2), ("dir/c.txt", 3)]));
    let batch = cache.diff_and_update(&scan(&[("a.txt", 1), ("dir/c.txt", 3), ("new.txt", 4)]));
    assert_eq!(batch.removals, vec!["dir/b.txt".to_string()]);
    assert_eq!(keys(&batch), vec!["new.txt"]);
    assert_eq!(cache.get("dir/b.txt"), None);
    assert_eq!(cache.get("new.txt"), Some(meta("new.txt", 4)));
    assert_eq!(cache.all_files().len(), 3);
}

#[test]
fn empty_scan_removes_every_file() {
    let mut cache = FileCache::new_root("root");
    cache.diff_and_update(&scan(&[("a.txt", 1), ("dir/b.txt", 2)]));
    let batch = cache.diff_and_update(&Vec::new());
    assert_eq!(batch.removals, vec!["a.txt".to_string(), "dir/b.txt".to_string()]);
    assert!(batch.upserts.is_empty());
    assert!(cache.all_files().is_empty());
    assert!(cache.find_entry_by_path("dir").is_some());
}

#[test]
fn diff_does_not_change_the_cache() {
    let mut cache = FileCache::new_root("root");
    cache.diff_and_update(&scan(&[("a.txt", 1)]));
    let staged = cache.diff(&scan(&[("b.txt", 2)]));
    assert_eq!(staged.to_remove, vec![FileCachePath::new("a.txt")]);
    assert_eq!(staged.stale.len(), 1);
    assert_eq!(staged.to_add_or_update, scan(&[("b.txt", 2)]));
    assert_eq!(cache.get("a.txt"), Some(meta("a.txt", 1)));
    assert_eq!(cache.get("b.txt"), None);
}

#[test]
fn after_diff_the_cache_holds_the_scan() {
    let mut cache = FileCache::new_root("root");
    cache.diff_and_update(&scan(&[("a.txt", 1), ("dir/b.txt", 2), ("dir/sub/c.txt", 3)]));
    let second = scan(&[("dir/b.txt", 2), ("dir/sub/c.txt", 30), ("other/d.txt", 4), ("e.txt", 5)]);
    cache.diff_and_update(&second);
    for (path, meta) in &second {
        assert_eq!(cache.get(path.as_str()), Some(meta.clone()));
    }
    let mut held = cache.all_files();
    held.sort_by(|a, b| a.path.as_str().cmp(b.path.as_str()));
    let mut expected: Vec<FileMeta> = second.iter().map(|(_, m)| m.clone()).collect();
    expected.sort_by(|a, b| a.path.as_str().cmp(b.path.as_str()));
    assert_eq!(held, expected);
    assert_eq!(cache.get("a.txt"), None);
}

#[test]
fn undecodable_row_is_removed_under_its_key() {
    let mut cache = FileCache::new_root("");
    cache.load_records(&vec![(FileCachePath::new("k"), FileMeta::zero())]);
    let staged = cache.diff(&Vec::new());
    assert_eq!(staged.to_remove, vec![FileCachePath::new("k")]);
    let batch = cache.diff_and_update(&Vec::new());
    assert_eq!(batch.removals, vec!["k".to_string()]);
    assert!(batch.upserts.is_empty());
    assert!(cache.all_files().is_empty());
}

#[test]
fn record_under_another_key_is_stored_anew_and_the_old_key_goes() {
    let mut cache = FileCache::new_root("root");
    cache.diff_and_update(&scan(&[("root/a.txt", 1), ("b.txt", 2)]));
    let second = vec![
        (FileCachePath::new("a.txt"), meta("root/a.txt", 1)),
        (FileCachePath::new("b.txt"), meta("b.txt", 2)),
    ];
    let batch = cache.diff_and_update(&second);
    assert_eq!(batch.removals, vec!["root/a.txt".to_string()]);
    assert_eq!(keys(&batch), vec!["a.txt"]);
    assert_eq!(cache.key_of("a.txt"), Some(FileCachePath::new("a.txt")));
    assert_eq!(cache.all_files().len(), 2);
    let again = cache.diff_and_update(&second);
    assert!(again.removals.is_empty());
    assert!(again.upserts.is_empty());
}

#[test]
fn stale_keys_come_before_replaced_keys() {
    let mut cache = FileCache::new_root("root");
    cache.diff_and_update(&scan(&[("root/a.txt", 1), ("gone.txt", 2)]));
    let batch = cache.diff_and_update(&scan(&[("a.txt", 1)]));
    assert_eq!(batch.removals, vec!["gone.txt".to_string(), "root/a.txt".to_string()]);
    assert_eq!(keys(&batch), vec!["a.txt"]);
}

#[test]
fn stale_file_with_entries_below_becomes_a_directory() {
    let mut cache = FileCache::new_root("r");
    let root = cache.root();
    let a = cache.update_or_insert_file("a", root, meta("a", 1)).unwrap();
    let b = cache.update_or_insert_file("b", a, meta("a/b", 2)).unwrap();
    let batch = cache.diff_and_update(&scan(&[("a/b", 2)]));
    assert_eq!(batch.removals, vec!["a".to_string()]);
    assert!(batch.upserts.is_empty());
    assert_eq!(cache.len(), 3);
    assert_eq!(cache.get("a/b"), Some(meta("a/b", 2)));
    assert_eq!(cache.get("a"), None);
    assert_eq!(cache.find_entry_by_path("a"), Some(a));
    assert_eq!(cache.find_entry_by_path("a/b"), Some(b));
    assert_eq!(cache.all_files(), vec![meta("a/b", 2)]);
}

#[test]
fn stale_files_below_a_stale_file_go_and_leave_a_directory() {
    let mut cache = FileCache::new_root("r");
    let root = cache.root();
    let a = cache.update_or_insert_file("a", root, meta("a", 1)).unwrap();
    cache.update_or_insert_file("b", a, meta("a/b", 2)).unwrap();
    let batch = cache.diff_and_update(&Vec::new());
    assert_eq!(batch.removals, vec!["a".to_string(), "a/b".to_string()]);
    assert!(cache.all_files().is_empty());
    assert_eq!(cache.find_entry_by_path("a"), Some(a));
    assert_eq!(cache.find_entry_by_path("a/b"), None);
}
