use linkfield::file_cache::{FileCachePath, FileMeta};
use linkfield::move_heuristics::{
    abs_diff, make_file_event, score_pair, FileEvent, FileEventKind, MoveCandidate, MoveHeuristics,
    FULL_SCORE, PAIRING_THRESHOLD,
};

const SECOND: u64 = 1_000_000_000;

fn record(path: &str, size: u64, modified: Option<u64>) -> FileMeta {
    FileMeta {
        path: FileCachePath::new(path),
        size,
        modified,
        created: None,
        extension: None,
    }
}

fn event(path: &str, kind: FileEventKind, size: u64, mtime: Option<u64>, time: u64) -> FileEvent {
    make_file_event(path.to_string(), kind, Some(record(path, size, mtime)), time)
}

fn removal(path: &str, size: u64, mtime: Option<u64>, time: u64) -> FileEvent {
    event(path, FileEventKind::Remove, size, mtime, time)
}

fn creation(path: &str, size: u64, mtime: Option<u64>, time: u64) -> FileEvent {
    event(path, FileEventKind::Create, size, mtime, time)
}

#[test]
fn same_size_and_name_within_two_seconds_scores_high_and_pairs() {
    let remove = removal("a.txt", 100, Some(10 * SECOND), 0);
    let create = creation("a.txt", 100, Some(11 * SECOND), 500);
    let score = score_pair(&remove, &create);
    assert!(score >= 90);
    assert_eq!(score, 100);
    let mut buffer = MoveHeuristics::new(5_000);
    buffer.add_remove(remove.clone(), 0);
    let paired = buffer.pair_create(&create, 500);
    assert_eq!(paired, Some(MoveCandidate { from: remove, to: create, score: 100 }));
    assert!(buffer.remove_events.is_empty());
}

#[test]
fn different_size_and_name_scores_low_and_does_not_pair() {
    let remove = removal("a.txt", 100, None, 0);
    let create = creation("zzz.bin", 9999, None, 500);
    let score = score_pair(&remove, &create);
    assert!(score <= 20);
    assert_eq!(score, 0);
    let mut buffer = MoveHeuristics::new(5_000);
    buffer.add_remove(remove, 0);
    assert_eq!(buffer.pair_create(&create, 500), None);
    assert_eq!(buffer.remove_events.len(), 1);
}

#[test]
fn rename_in_directory_is_paired() {
    let remove = removal("dir/a.txt", 4096, Some(100 * SECOND), 1_000);
    let create = creation("dir/b.txt", 4096, Some(101 * SECOND), 1_900);
    assert_eq!(score_pair(&remove, &create), 100);
    let mut buffer = MoveHeuristics::new(5_000);
    buffer.add_remove(remove, 1_000);
    let paired = buffer.pair_create(&create, 1_900).unwrap();
    assert_eq!(paired.from.path, "dir/a.txt");
    assert_eq!(paired.to.path, "dir/b.txt");
    assert_eq!(paired.score, 100);
}

#[test]
fn create_after_max_age_is_not_paired() {
    let remove = removal("dir/a.txt", 4096, Some(100 * SECOND), 1_000);
    let create = creation("dir/b.txt", 4096, Some(100 * SECOND), 6_000);
    let mut buffer = MoveHeuristics::new(5_000);
    buffer.add_remove(remove, 1_000);
    assert_eq!(buffer.pair_create(&create, 6_000), None);
    assert!(buffer.remove_events.is_empty());
}

#[test]
fn create_just_before_max_age_is_paired() {
    let remove = removal("dir/a.txt", 4096, None, 1_000);
    let create = creation("dir/b.txt", 4096, None, 5_999);
    let mut buffer = MoveHeuristics::new(5_000);
    buffer.add_remove(remove, 1_000);
    assert!(buffer.pair_create(&create, 5_999).is_some());
}

#[test]
fn score_of_each_sign() {
    let base = removal("d/report.txt", 100, Some(50 * SECOND), 0);
    // size equal and above zero 70, extension 20, other name 0, no time on one side
    assert_eq!(score_pair(&base, &creation("e/other.txt", 100, None, 0)), 90);
    // size 8 bytes off 40, extension 20
    assert_eq!(score_pair(&base, &creation("e/other.txt", 108, None, 0)), 60);
    // size 16 bytes off 0, extension 20
    assert_eq!(score_pair(&base, &creation("e/other.txt", 116, None, 0)), 20);
    // size far off, other extension, name is a prefix 10
    assert_eq!(score_pair(&base, &creation("e/report.txt.bak", 9_000, None, 0)), 10);
    // equal names 20 and extension 20
    assert_eq!(score_pair(&base, &creation("e/report.txt", 9_000, None, 0)), 40);
    // times less than two seconds apart 10, extension 20
    let near = 50 * SECOND + 2 * SECOND - 1;
    assert_eq!(score_pair(&base, &creation("e/other.txt", 9_000, Some(near), 0)), 30);
    // times two seconds apart 0
    assert_eq!(score_pair(&base, &creation("e/other.txt", 9_000, Some(52 * SECOND), 0)), 20);
    assert_eq!(score_pair(&base, &creation("e/other.txt", 9_000, Some(48 * SECOND), 0)), 20);
}

#[test]
fn empty_files_of_equal_size_count_as_close() {
    let remove = removal("a.bin", 0, None, 0);
    let create = creation("b.dat", 0, None, 0);
    assert_eq!(score_pair(&remove, &create), 40);
}

#[test]
fn events_without_record_score_by_path_alone() {
    let remove = make_file_event("d/a.txt".to_string(), FileEventKind::Remove, None, 0);
    let create = make_file_event("e/a.txt".to_string(), FileEventKind::Create, None, 0);
    assert_eq!(score_pair(&remove, &create), 40);
    let none = make_file_event("e/Makefile".to_string(), FileEventKind::Create, None, 0);
    let other = make_file_event("d/LICENSE".to_string(), FileEventKind::Remove, None, 0);
    assert_eq!(score_pair(&other, &none), 20);
}

#[test]
fn score_is_capped() {
    let remove = removal("a.txt", 100, Some(SECOND), 0);
    let create = creation("a.txt", 100, Some(SECOND), 0);
    assert_eq!(score_pair(&remove, &create), FULL_SCORE);
    assert_eq!(FULL_SCORE, 100);
    assert_eq!(PAIRING_THRESHOLD, 50);
}

#[test]
fn score_at_threshold_does_not_pair() {
    // size 8 bytes off 40, name is a prefix 10, other extension: 50
    let remove = removal("d/report", 100, None, 0);
    let create = creation("e/report.v2", 108, None, 0);
    assert_eq!(score_pair(&remove, &create), 50);
    let mut buffer = MoveHeuristics::new(5_000);
    buffer.add_remove(remove, 0);
    assert_eq!(buffer.pair_create(&create, 1), None);
    assert_eq!(buffer.remove_events.len(), 1);
}

#[test]
fn highest_score_wins_and_only_it_leaves() {
    let weak = removal("x/other.txt", 500, None, 0);
    let strong = removal("x/a.txt", 500, Some(7 * SECOND), 10);
    let unrelated = removal("x/pic.png", 3, None, 20);
    let create = creation("y/a.txt", 500, Some(7 * SECOND), 30);
    assert_eq!(score_pair(&weak, &create), 90);
    assert_eq!(score_pair(&strong, &create), 100);
    let mut buffer = MoveHeuristics::new(5_000);
    buffer.add_remove(weak.clone(), 0);
    buffer.add_remove(strong.clone(), 10);
    buffer.add_remove(unrelated.clone(), 20);
    let paired = buffer.pair_create(&create, 30).unwrap();
    assert_eq!(paired.from, strong);
    assert_eq!(paired.score, 100);
    let left: Vec<FileEvent> = buffer.remove_events.iter().cloned().collect();
    assert_eq!(left, vec![weak, unrelated]);
}

#[test]
fn oldest_of_equal_scores_wins() {
    let first = removal("x/a.txt", 500, None, 0);
    let second = removal("z/a.txt", 500, None, 10);
    let create = creation("y/a.txt", 500, None, 30);
    let mut buffer = MoveHeuristics::new(5_000);
    buffer.add_remove(first.clone(), 0);
    buffer.add_remove(second.clone(), 10);
    assert_eq!(buffer.pair_create(&create, 30).unwrap().from, first);
    assert_eq!(buffer.pair_create(&create, 30).unwrap().from, second);
    assert_eq!(buffer.pair_create(&create, 30), None);
}

#[test]
fn add_remove_prunes_what_is_too_old() {
    let mut buffer = MoveHeuristics::new(100);
    buffer.add_remove(removal("a", 1, None, 0), 0);
    buffer.add_remove(removal("b", 1, None, 50), 50);
    assert_eq!(buffer.remove_events.len(), 2);
    buffer.add_remove(removal("c", 1, None, 100), 100);
    let left: Vec<String> = buffer.remove_events.iter().map(|e| e.path.clone()).collect();
    assert_eq!(left, vec!["b".to_string(), "c".to_string()]);
    buffer.add_remove(removal("late", 1, None, 10), 199);
    let left: Vec<String> = buffer.remove_events.iter().map(|e| e.path.clone()).collect();
    assert_eq!(left, vec!["c".to_string()]);
    buffer.add_remove(removal("last", 1, None, 200), 200);
    let left: Vec<String> = buffer.remove_events.iter().map(|e| e.path.clone()).collect();
    assert_eq!(left, vec!["last".to_string()]);
}

#[test]
fn event_seen_after_now_counts_as_new() {
    let mut buffer = MoveHeuristics::new(100);
    buffer.add_remove(removal("a", 1, None, 500), 10);
    assert_eq!(buffer.remove_events.len(), 1);
}

#[test]
fn zero_max_age_keeps_nothing() {
    let mut buffer = MoveHeuristics::new(0);
    buffer.add_remove(removal("a", 1, None, 5), 5);
    assert!(buffer.remove_events.is_empty());
}

#[test]
fn distance_of_numbers() {
    assert_eq!(abs_diff(3, 10), 7);
    assert_eq!(abs_diff(10, 3), 7);
    assert_eq!(abs_diff(u64::MAX, 0), u64::MAX);
}
