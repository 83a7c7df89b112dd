use linkfield::file_cache::db::{
    batch_commit, load_all, serialize_path, single_insert, single_remove, FILE_CACHE_TABLE_NAME,
};
use linkfield::file_cache::{FileCachePath, FileMeta};

fn meta(path: &str, size: u64) -> FileMeta {
    FileMeta::from_stat(path, size, None, None)
}

#[test]
fn table_name() {
    assert_eq!(FILE_CACHE_TABLE_NAME, "file_cache");
}

#[test]
fn key_of_a_path_is_the_path() {
    assert_eq!(serialize_path(&FileCachePath::new("dir/a.txt")), "dir/a.txt");
}

#[test]
fn batch_holds_removals_then_rows() {
    let batch = batch_commit(
        &[FileCachePath::new("gone.txt"), FileCachePath::new("d/gone2.txt")],
        &[(FileCachePath::new("a.txt"), meta("a.txt", 1)), (FileCachePath::new("b"), meta("b", 2))],
    );
    assert_eq!(batch.removals, vec!["gone.txt".to_string(), "d/gone2.txt".to_string()]);
    assert_eq!(batch.upserts.len(), 2);
    assert_eq!(batch.upserts[0], ("a.txt".to_string(), meta("a.txt", 1).serialize()));
    assert_eq!(batch.upserts[1], ("b".to_string(), meta("b", 2).serialize()));
}

#[test]
fn single_row_batches() {
    let insert = single_insert(&FileCachePath::new("a.txt"), &meta("a.txt", 9));
    assert!(insert.removals.is_empty());
    assert_eq!(insert.upserts, vec![("a.txt".to_string(), meta("a.txt", 9).serialize())]);
    let remove = single_remove(&FileCachePath::new("a.txt"));
    assert_eq!(remove.removals, vec!["a.txt".to_string()]);
    assert!(remove.upserts.is_empty());
}

#[test]
fn load_all_decodes_rows() {
    let rows = vec![
        ("a.txt".to_string(), meta("a.txt", 1).serialize()),
        ("broken".to_string(), vec![255, 255]),
    ];
    let records = load_all(&rows);
    assert_eq!(records.len(), 2);
    assert_eq!(records[0], (FileCachePath::new("a.txt"), meta("a.txt", 1)));
    assert_eq!(records[1], (FileCachePath::new("broken"), FileMeta::zero()));
}
