use linkfield::file_cache::{CacheError, EntryKind, FileCache, FileCachePath, FileMeta};

fn meta(path: &str, size: u64) -> FileMeta {
    FileMeta::from_stat(path, size, Some(1_000), Some(500))
}

#[test]
fn new_root_holds_only_the_root() {
    let cache = FileCache::new_root("files");
    assert_eq!(cache.len(), 1);
    let root = cache.root();
    assert!(cache.contains(root));
    let entry = cache.entry(root).unwrap();
    assert_eq!(entry.id, root);
    assert_eq!(entry.name, "files");
    assert_eq!(entry.parent, None);
    assert_eq!(entry.kind, EntryKind::Directory);
    assert_eq!(cache.next_free_id(), root + 1);
}

#[test]
fn insert_gives_new_id_and_stores_record() {
    let mut cache = FileCache::new_root("files");
    let root = cache.root();
    let id = cache.update_or_insert_file("a.txt", root, meta("files/a.txt", 3)).unwrap();
    assert_ne!(id, root);
    assert_eq!(cache.len(), 2);
    let entry = cache.entry(id).unwrap();
    assert_eq!(entry.name, "a.txt");
    assert_eq!(entry.parent, Some(root));
    assert_eq!(
        entry.kind,
        EntryKind::File { record: meta("files/a.txt", 3), key: FileCachePath::new("files/a.txt") }
    );
}

#[test]
fn update_or_insert_file_twice_is_once() {
    let mut cache = FileCache::new_root("files");
    let root = cache.root();
    let first = cache.update_or_insert_file("a.txt", root, meta("files/a.txt", 3)).unwrap();
    let next = cache.next_free_id();
    let second = cache.update_or_insert_file("a.txt", root, meta("files/a.txt", 3)).unwrap();
    assert_eq!(first, second);
    assert_eq!(cache.len(), 2);
    assert_eq!(cache.next_free_id(), next);
    assert_eq!(
        cache.entry(first).unwrap().kind,
        EntryKind::File { record: meta("files/a.txt", 3), key: FileCachePath::new("files/a.txt") }
    );
}

#[test]
fn update_replaces_record_in_place() {
    let mut cache = FileCache::new_root("files");
    let root = cache.root();
    let id = cache.update_or_insert_file("a.txt", root, meta("files/a.txt", 3)).unwrap();
    let other = cache.update_or_insert_file("b.txt", root, meta("files/b.txt", 4)).unwrap();
    let again = cache.update_or_insert_file("a.txt", root, meta("files/a.txt", 99)).unwrap();
    assert_eq!(again, id);
    assert_ne!(other, id);
    assert_eq!(cache.len(), 3);
    assert_eq!(cache.get("files/a.txt"), Some(meta("files/a.txt", 99)));
    assert_eq!(cache.get("files/b.txt"), Some(meta("files/b.txt", 4)));
}

#[test]
fn same_name_under_other_parent_is_another_entry() {
    let mut cache = FileCache::new_root("files");
    let root = cache.root();
    let dir = cache.add_dir("sub", root).unwrap();
    let a = cache.update_or_insert_file("a.txt", root, meta("a.txt", 1)).unwrap();
    let b = cache.update_or_insert_file("a.txt", dir, meta("sub/a.txt", 2)).unwrap();
    assert_ne!(a, b);
    assert_eq!(cache.get("a.txt"), Some(meta("a.txt", 1)));
    assert_eq!(cache.get("sub/a.txt"), Some(meta("sub/a.txt", 2)));
}

#[test]
fn missing_parent_is_refused() {
    let mut cache = FileCache::new_root("files");
    let result = cache.update_or_insert_file("a.txt", 77, meta("a.txt", 1));
    assert_eq!(result, Err(CacheError::ParentMissing));
    assert_eq!(cache.add_dir("d", 77), Err(CacheError::ParentMissing));
    assert_eq!(cache.len(), 1);
}

#[test]
fn ids_are_never_reused() {
    let mut cache = FileCache::new_root("files");
    let root = cache.root();
    let a = cache.update_or_insert_file("a.txt", root, meta("a.txt", 1)).unwrap();
    cache.remove_entry(a);
    let b = cache.update_or_insert_file("a.txt", root, meta("a.txt", 1)).unwrap();
    assert!(b > a);
}

#[test]
fn find_entry_by_path_with_and_without_root_name() {
    let mut cache = FileCache::new_root("files");
    let root = cache.root();
    let dir = cache.add_dir("sub", root).unwrap();
    let file = cache.update_or_insert_file("a.txt", dir, meta("sub/a.txt", 2)).unwrap();
    assert_eq!(cache.find_entry_by_path("sub/a.txt"), Some(file));
    assert_eq!(cache.find_entry_by_path("files/sub/a.txt"), Some(file));
    assert_eq!(cache.find_entry_by_path("/files//sub/a.txt/"), Some(file));
    assert_eq!(cache.find_entry_by_path("sub"), Some(dir));
    assert_eq!(cache.find_entry_by_path("files"), Some(root));
    assert_eq!(cache.find_entry_by_path(""), Some(root));
    assert_eq!(cache.find_entry_by_path("sub/missing.txt"), None);
    assert_eq!(cache.find_entry_by_path("other/a.txt"), None);
    assert_eq!(cache.find_entry_by_path("a.txt"), None);
}

#[test]
fn get_gives_files_only() {
    let mut cache = FileCache::new_root("files");
    let root = cache.root();
    cache.add_dir("sub", root).unwrap();
    assert_eq!(cache.get("sub"), None);
    assert_eq!(cache.get("files"), None);
    assert_eq!(cache.get("nothing"), None);
}

#[test]
fn update_file_creates_directories_on_the_way() {
    let mut cache = FileCache::new_root("files");
    let id = cache.update_file("a/b/c.txt", meta("a/b/c.txt", 5)).unwrap();
    assert_eq!(cache.len(), 4);
    let a = cache.find_entry_by_path("a").unwrap();
    let b = cache.find_entry_by_path("a/b").unwrap();
    assert_eq!(cache.entry(a).unwrap().kind, EntryKind::Directory);
    assert_eq!(cache.entry(b).unwrap().kind, EntryKind::Directory);
    assert_eq!(cache.entry(b).unwrap().parent, Some(a));
    assert_eq!(cache.entry(id).unwrap().parent, Some(b));
    assert!(a < b && b < id);
    assert_eq!(cache.find_entry_by_path("a/b/c.txt"), Some(id));
    assert_eq!(cache.get("files/a/b/c.txt"), Some(meta("a/b/c.txt", 5)));
}

#[test]
fn update_file_keeps_what_is_there() {
    let mut cache = FileCache::new_root("files");
    let first = cache.update_file("a/b/c.txt", meta("a/b/c.txt", 5)).unwrap();
    let second = cache.update_file("a/b/d.txt", meta("a/b/d.txt", 6)).unwrap();
    assert_eq!(cache.len(), 5);
    let again = cache.update_file("files/a/b/c.txt", meta("a/b/c.txt", 7)).unwrap();
    assert_eq!(again, first);
    assert_eq!(cache.len(), 5);
    assert_eq!(cache.get("a/b/c.txt"), Some(meta("a/b/c.txt", 7)));
    assert_eq!(cache.get("a/b/d.txt"), Some(meta("a/b/d.txt", 6)));
    assert_ne!(first, second);
}

#[test]
fn update_file_without_component_is_refused() {
    let mut cache = FileCache::new_root("files");
    assert_eq!(cache.update_file("", meta("", 1)), Err(CacheError::EmptyPath));
    assert_eq!(cache.update_file("files", meta("files", 1)), Err(CacheError::EmptyPath));
    assert_eq!(cache.update_file("/", meta("/", 1)), Err(CacheError::EmptyPath));
    assert_eq!(cache.len(), 1);
}

#[test]
fn remove_entry_takes_the_subtree() {
    let mut cache = FileCache::new_root("files");
    cache.update_file("a/b/c.txt", meta("a/b/c.txt", 5)).unwrap();
    cache.update_file("a/b/d.txt", meta("a/b/d.txt", 6)).unwrap();
    cache.update_file("a/e.txt", meta("a/e.txt", 7)).unwrap();
    cache.update_file("z.txt", meta("z.txt", 8)).unwrap();
    let b = cache.find_entry_by_path("a/b").unwrap();
    let removed = cache.remove_entry(b);
    assert_eq!(
        removed,
        vec![FileCachePath("a/b/c.txt".to_string()), FileCachePath("a/b/d.txt".to_string())]
    );
    assert_eq!(cache.find_entry_by_path("a/b"), None);
    assert_eq!(cache.get("a/b/c.txt"), None);
    assert_eq!(cache.get("a/e.txt"), Some(meta("a/e.txt", 7)));
    assert_eq!(cache.get("z.txt"), Some(meta("z.txt", 8)));
    assert_eq!(cache.len(), 4);
}

#[test]
fn remove_file_by_path() {
    let mut cache = FileCache::new_root("files");
    cache.update_file("dir/a.txt", meta("dir/a.txt", 5)).unwrap();
    let removed = cache.remove_file("files/dir/a.txt");
    assert_eq!(removed, vec![FileCachePath("dir/a.txt".to_string())]);
    assert_eq!(cache.get("dir/a.txt"), None);
    assert!(cache.find_entry_by_path("dir").is_some());
    assert_eq!(cache.remove_file("dir/a.txt"), Vec::<FileCachePath>::new());
    assert_eq!(cache.len(), 2);
}

#[test]
fn removing_the_root_keeps_the_root() {
    let mut cache = FileCache::new_root("files");
    cache.update_file("a/b.txt", meta("a/b.txt", 5)).unwrap();
    let root = cache.root();
    let removed = cache.remove_entry(root);
    assert_eq!(removed, vec![FileCachePath("a/b.txt".to_string())]);
    assert_eq!(cache.len(), 1);
    assert_eq!(cache.root(), root);
    assert!(cache.contains(root));
}

#[test]
fn removing_an_unknown_id_changes_nothing() {
    let mut cache = FileCache::new_root("files");
    cache.update_file("a/b.txt", meta("a/b.txt", 5)).unwrap();
    assert_eq!(cache.remove_entry(1234), Vec::<FileCachePath>::new());
    assert_eq!(cache.len(), 3);
}

fn chain_ends_at_root(cache: &FileCache, id: u64) -> bool {
    let mut at = id;
    let mut steps = 0;
    loop {
        let entry = match cache.entry(at) {
            Some(e) => e,
            None => return false,
        };
        match entry.parent {
            None => return at == cache.root(),
            Some(p) => {
                if p >= at {
                    return false;
                }
                at = p;
            }
        }
        steps += 1;
        if steps > cache.len() {
            return false;
        }
    }
}

#[test]
fn parent_chains_end_at_the_root_after_changes() {
    let mut cache = FileCache::new_root("files");
    let mut ids = Vec::new();
    for i in 0..20u64 {
        let path = format!("d{}/e{}/f{}.txt", i % 3, i % 5, i);
        ids.push(cache.update_file(&path, meta(&path, i)).unwrap());
    }
    cache.remove_file("d1/e1");
    cache.remove_file("d2");
    let root = cache.root();
    let dir = cache.add_dir("late", root).unwrap();
    ids.push(cache.update_or_insert_file("x", dir, meta("late/x", 1)).unwrap());
    let mut seen = 0;
    for id in 0..cache.next_free_id() {
        if cache.contains(id) {
            assert!(chain_ends_at_root(&cache, id));
            seen += 1;
        }
    }
    assert_eq!(seen, cache.len());
    assert!(ids.iter().any(|id| !cache.contains(*id)));
}

#[test]
fn all_files_lists_records_in_id_order() {
    let mut cache = FileCache::new_root("files");
    cache.update_file("a/one.txt", meta("a/one.txt", 1)).unwrap();
    cache.update_file("two.txt", meta("two.txt", 2)).unwrap();
    cache.update_file("a/three.txt", meta("a/three.txt", 3)).unwrap();
    assert_eq!(
        cache.all_files(),
        vec![meta("a/one.txt", 1), meta("two.txt", 2), meta("a/three.txt", 3)]
    );
}

#[test]
fn load_records_replaces_what_was_held() {
    let mut cache = FileCache::new_root("files");
    cache.update_file("old/a.txt", meta("old/a.txt", 1)).unwrap();
    let records = vec![
        (FileCachePath::new("new/b.txt"), meta("new/b.txt", 2)),
        (FileCachePath::new("c.txt"), meta("c.txt", 3)),
    ];
    cache.load_records(&records);
    assert_eq!(cache.get("old/a.txt"), None);
    assert_eq!(cache.find_entry_by_path("old"), None);
    assert_eq!(cache.get("new/b.txt"), Some(meta("new/b.txt", 2)));
    assert_eq!(cache.get("c.txt"), Some(meta("c.txt", 3)));
    assert_eq!(cache.len(), 4);
}

#[test]
fn path_of_gives_the_way_from_the_root() {
    let mut cache = FileCache::new_root("files");
    let id = cache.update_file("a/b/c.txt", meta("a/b/c.txt", 5)).unwrap();
    assert_eq!(cache.path_of(id), Some("a/b/c.txt".to_string()));
    let b = cache.find_entry_by_path("a/b").unwrap();
    assert_eq!(cache.path_of(b), Some("a/b".to_string()));
    assert_eq!(cache.path_of(cache.root()), Some(String::new()));
    assert_eq!(cache.path_of(4242), None);
    for entry_id in 0..cache.next_free_id() {
        if let Some(path) = cache.path_of(entry_id) {
            assert_eq!(cache.find_entry_by_path(&path), Some(entry_id));
        }
    }
}

#[test]
fn ids_that_run_out_are_refused_and_nothing_changes() {
    assert!(FileCache::with_root_id("files", u64::MAX).is_err());
    let mut cache = FileCache::with_root_id("files", u64::MAX - 4).unwrap();
    let root = cache.root();
    assert_eq!(root, u64::MAX - 4);
    assert_eq!(cache.update_or_insert_file("a", root, meta("a", 1)), Ok(u64::MAX - 3));
    // Two ids are left: a path that needs three changes nothing.
    assert_eq!(cache.update_file("x/y/z", meta("x/y/z", 1)), Err(CacheError::IdsExhausted));
    assert_eq!(cache.len(), 2);
    assert_eq!(cache.find_entry_by_path("x"), None);
    assert_eq!(cache.update_file("x/y", meta("x/y", 1)), Ok(u64::MAX - 1));
    assert_eq!(cache.len(), 4);
    assert_eq!(cache.next_free_id(), u64::MAX);
    assert_eq!(cache.add_dir("d", root), Err(CacheError::IdsExhausted));
    assert_eq!(
        cache.update_or_insert_file("b", root, meta("b", 1)),
        Err(CacheError::IdsExhausted)
    );
    // What is there can still be updated.
    assert_eq!(cache.update_or_insert_file("a", root, meta("a", 2)), Ok(u64::MAX - 3));
    assert_eq!(cache.update_file("x/y", meta("x/y", 3)), Ok(u64::MAX - 1));
    assert_eq!(cache.update_file("x/w", meta("x/w", 3)), Err(CacheError::IdsExhausted));
    assert_eq!(cache.get("x/y"), Some(meta("x/y", 3)));
    assert_eq!(cache.len(), 4);
}

#[test]
fn removal_hands_back_the_key_the_record_was_put_under() {
    let mut cache = FileCache::new_root("");
    cache.load_records(&vec![(FileCachePath::new("k"), FileMeta::zero())]);
    assert_eq!(cache.get("k"), Some(FileMeta::zero()));
    assert_eq!(cache.key_of("k"), Some(FileCachePath::new("k")));
    assert_eq!(cache.remove_file("k"), vec![FileCachePath::new("k")]);
    assert_eq!(cache.get("k"), None);
    assert_eq!(cache.key_of("k"), None);
}

#[test]
fn key_is_the_path_given_not_the_path_in_the_record() {
    let mut cache = FileCache::new_root("files");
    cache.update_file("files/dir/a.txt", meta("elsewhere/b.txt", 1)).unwrap();
    assert_eq!(cache.key_of("dir/a.txt"), Some(FileCachePath::new("files/dir/a.txt")));
    assert_eq!(cache.get("dir/a.txt"), Some(meta("elsewhere/b.txt", 1)));
    cache.update_file("dir/a.txt", meta("elsewhere/b.txt", 2)).unwrap();
    assert_eq!(cache.key_of("files/dir/a.txt"), Some(FileCachePath::new("dir/a.txt")));
    assert_eq!(cache.key_of("dir"), None);
    assert_eq!(cache.key_of("nowhere"), None);
    assert_eq!(cache.remove_file("files/dir"), vec![FileCachePath::new("dir/a.txt")]);
}

#[test]
fn key_of_a_file_put_by_name_is_its_record_path() {
    let mut cache = FileCache::new_root("files");
    let root = cache.root();
    let id = cache.update_or_insert_file("a.txt", root, meta("files/a.txt", 3)).unwrap();
    assert_eq!(cache.key_of("a.txt"), Some(FileCachePath::new("files/a.txt")));
    assert_eq!(cache.remove_entry(id), vec![FileCachePath::new("files/a.txt")]);
}

#[test]
fn dropping_a_record_removes_a_leaf_and_keeps_what_has_entries_below() {
    let mut cache = FileCache::new_root("r");
    let root = cache.root();
    let a = cache.update_or_insert_file("a", root, meta("a", 1)).unwrap();
    let b = cache.update_or_insert_file("b", a, meta("a/b", 2)).unwrap();
    assert!(cache.has_entry_below(a));
    assert!(!cache.has_entry_below(b));
    assert_eq!(cache.drop_record(a), Some(FileCachePath::new("a")));
    assert_eq!(cache.entry(a).unwrap().kind, EntryKind::Directory);
    assert_eq!(cache.drop_record(a), None);
    assert_eq!(cache.len(), 3);
    assert_eq!(cache.drop_record(b), Some(FileCachePath::new("a/b")));
    assert_eq!(cache.len(), 2);
    assert_eq!(cache.drop_record(a), None);
    assert_eq!(cache.len(), 1);
    assert_eq!(cache.drop_record(root), None);
    assert_eq!(cache.drop_record(99), None);
    assert_eq!(cache.len(), 1);
}

#[test]
fn update_dir_records_a_directory() {
    let mut cache = FileCache::new_root("r");
    let d = cache.update_dir("x/d").unwrap();
    assert_eq!(cache.entry(d).unwrap().kind, EntryKind::Directory);
    assert_eq!(cache.len(), 3);
    assert_eq!(cache.update_dir("r/x/d"), Ok(d));
    cache.update_file("x/f", meta("x/f", 1)).unwrap();
    let f = cache.update_dir("x/f").unwrap();
    assert_eq!(cache.get("x/f"), None);
    assert_eq!(cache.entry(f).unwrap().kind, EntryKind::Directory);
    assert_eq!(cache.update_dir(""), Err(CacheError::EmptyPath));
}
