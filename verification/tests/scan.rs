use linkfield::file_cache::db::StoreBatch;
use linkfield::file_cache::scan::StreamingBatch;
use linkfield::file_cache::{CacheError, FileCache, FileMeta};
use std::collections::HashMap;

fn meta(path: &str, size: u64) -> FileMeta {
    FileMeta::from_stat(path, size, Some(1), None)
}

fn commit(table: &mut HashMap<String, Vec<u8>>, batch: &StoreBatch) {
    for key in &batch.removals {
        table.remove(key);
    }
    for (key, bytes) in &batch.upserts {
        table.insert(key.clone(), bytes.clone());
    }
}

#[test]
fn streaming_scan_of_5000_files_in_batches_of_1000() {
    let mut cache = FileCache::new_root("files");
    let baseline = cache.len();
    let mut table: HashMap<String, Vec<u8>> = HashMap::new();
    let mut scan = StreamingBatch::new(&cache, None, 1000);
    let mut batches = 0;
    for i in 0..5000u64 {
        let name = format!("file_{i}.txt");
        let path = format!("files/{name}");
        let flushed = scan.add_file(&mut cache, &name, meta(&path, 6 + i % 10)).unwrap();
        assert!(cache.len() <= baseline + 1000);
        assert!(scan.pending_len() < 1000);
        assert!(cache.len() <= baseline + scan.pending_len());
        if let Some(batch) = flushed {
            batches += 1;
            assert_eq!(batch.upserts.len(), 1000);
            assert!(batch.removals.is_empty());
            assert_eq!(scan.batch_count(), batches);
            assert_eq!(cache.len(), baseline);
            commit(&mut table, &batch);
        }
    }
    assert!(scan.finish(&mut cache).is_none());
    assert_eq!(batches, 5);
    assert_eq!(table.len(), 5000);
    assert_eq!(cache.len(), baseline);
    let stored = FileMeta::deserialize(&table["files/file_4711.txt"]);
    assert_eq!(stored, meta("files/file_4711.txt", 7));
}

#[test]
fn last_batch_is_handed_out_at_the_end() {
    let mut cache = FileCache::new_root("files");
    let mut scan = StreamingBatch::new(&cache, None, 4);
    let mut rows = 0;
    for i in 0..10u64 {
        let name = format!("f{i}");
        if let Some(batch) = scan.add_file(&mut cache, &name, meta(&name, i)).unwrap() {
            assert_eq!(batch.upserts.len(), 4);
            rows += batch.upserts.len();
        }
    }
    assert_eq!(scan.pending_len(), 2);
    assert_eq!(cache.len(), 3);
    assert_eq!(scan.batch_count(), 2);
    let last = scan.finish(&mut cache).unwrap();
    assert_eq!(last.upserts.len(), 2);
    assert_eq!(last.upserts[0].0, "f8");
    assert_eq!(FileMeta::deserialize(&last.upserts[1].1), meta("f9", 9));
    rows += last.upserts.len();
    assert_eq!(rows, 10);
    assert_eq!(scan.batch_count(), 3);
    assert_eq!(scan.pending_len(), 0);
    assert_eq!(cache.len(), 1);
    assert!(scan.finish(&mut cache).is_none());
    assert_eq!(scan.batch_count(), 3);
}

#[test]
fn files_go_under_the_directory_of_the_scan() {
    let mut cache = FileCache::new_root("files");
    let root = cache.root();
    let dir = cache.add_dir("sub", root).unwrap();
    let mut scan = StreamingBatch::new(&cache, Some(dir), 10);
    assert!(scan.add_file(&mut cache, "a.txt", meta("sub/a.txt", 1)).unwrap().is_none());
    assert_eq!(cache.get("sub/a.txt"), Some(meta("sub/a.txt", 1)));
    assert_eq!(cache.get("a.txt"), None);
    scan.finish(&mut cache).unwrap();
    assert_eq!(cache.get("sub/a.txt"), None);
    assert_eq!(cache.find_entry_by_path("sub"), Some(dir));
    assert_eq!(cache.len(), 2);
}

#[test]
fn batch_size_zero_and_one_hand_out_every_file() {
    for size in [0usize, 1] {
        let mut cache = FileCache::new_root("files");
        let mut scan = StreamingBatch::new(&cache, None, size);
        for i in 0..3u64 {
            let name = format!("f{i}");
            let batch = scan.add_file(&mut cache, &name, meta(&name, i)).unwrap().unwrap();
            assert_eq!(batch.upserts.len(), 1);
            assert_eq!(cache.len(), 1);
        }
        assert_eq!(scan.batch_count(), 3);
        assert!(scan.finish(&mut cache).is_none());
    }
}

#[test]
fn file_seen_twice_keeps_one_entry() {
    let mut cache = FileCache::new_root("files");
    let mut scan = StreamingBatch::new(&cache, None, 5);
    scan.add_file(&mut cache, "a", meta("a", 1)).unwrap();
    scan.add_file(&mut cache, "a", meta("a", 2)).unwrap();
    assert_eq!(cache.len(), 2);
    assert_eq!(scan.pending_len(), 2);
    let batch = scan.finish(&mut cache).unwrap();
    assert_eq!(batch.upserts.len(), 2);
    assert_eq!(cache.len(), 1);
}

#[test]
fn scan_under_missing_directory_is_refused() {
    let mut cache = FileCache::new_root("files");
    let mut scan = StreamingBatch::new(&cache, Some(99), 5);
    let result = scan.add_file(&mut cache, "a", meta("a", 1));
    assert_eq!(result, Err(CacheError::ParentMissing));
    assert_eq!(scan.pending_len(), 0);
    assert_eq!(cache.len(), 1);
}

#[test]
fn scan_without_ids_left_is_refused() {
    let mut cache = FileCache::with_root_id("files", u64::MAX - 1).unwrap();
    let mut scan = StreamingBatch::new(&cache, None, 5);
    let result = scan.add_file(&mut cache, "a", meta("a", 1));
    assert_eq!(result, Err(CacheError::IdsExhausted));
    assert_eq!(scan.pending_len(), 0);
    assert!(scan.finish(&mut cache).is_none());
}
