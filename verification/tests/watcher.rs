use linkfield::file_cache::db::StoreBatch;
use linkfield::file_cache::{FileCache, FileMeta};
use linkfield::ignore_config::IgnoreConfig;
use linkfield::move_heuristics::MoveHeuristics;
use linkfield::watcher::{
    handle_event, handle_other_event, in_same_directory, is_ignored_event, names_database,
    Dispatch, ObservedPath, Outcome, RecentlyMoved, WatchEvent, WatchKind,
};

const SECOND: u64 = 1_000_000_000;

fn meta(path: &str, size: u64, mtime: u64) -> FileMeta {
    FileMeta::from_stat(path, size, Some(mtime), None)
}

fn gone(path: &str) -> ObservedPath {
    ObservedPath { path: path.to_string(), is_dir: false, meta: None }
}

fn file(path: &str, size: u64, mtime: u64) -> ObservedPath {
    ObservedPath { path: path.to_string(), is_dir: false, meta: Some(meta(path, size, mtime)) }
}

fn dir(path: &str) -> ObservedPath {
    ObservedPath { path: path.to_string(), is_dir: true, meta: None }
}

fn event(kind: WatchKind, paths: Vec<ObservedPath>) -> WatchEvent {
    WatchEvent { kind, paths }
}

struct World {
    cache: FileCache,
    heuristics: MoveHeuristics,
    moved: RecentlyMoved,
    ignore: IgnoreConfig,
}

fn world() -> World {
    World {
        cache: FileCache::new_root("watched"),
        heuristics: MoveHeuristics::new(5_000),
        moved: RecentlyMoved::new(),
        ignore: IgnoreConfig::new(&["*.tmp", "target/"]).unwrap(),
    }
}

fn send(w: &mut World, e: &WatchEvent, now: u64) -> Dispatch {
    handle_event(e, &mut w.cache, &mut w.heuristics, &mut w.moved, &w.ignore, now)
}

fn nothing() -> StoreBatch {
    StoreBatch { removals: Vec::new(), upserts: Vec::new() }
}

#[test]
fn create_puts_record_and_reports_create() {
    let mut w = world();
    let done = send(&mut w, &event(WatchKind::Create, vec![file("dir/a.txt", 10, SECOND)]), 0);
    assert_eq!(done.outcome, Outcome::Created { path: "dir/a.txt".to_string() });
    assert!(done.batch.removals.is_empty());
    assert_eq!(
        done.batch.upserts,
        vec![("dir/a.txt".to_string(), meta("dir/a.txt", 10, SECOND).serialize())]
    );
    assert_eq!(w.cache.get("dir/a.txt"), Some(meta("dir/a.txt", 10, SECOND)));
    assert!(!w.moved.contains("dir/a.txt"));
}

#[test]
fn create_of_unreadable_path_changes_no_cache() {
    let mut w = world();
    let done = send(&mut w, &event(WatchKind::Create, vec![gone("dir/a.txt")]), 0);
    assert_eq!(done.outcome, Outcome::Created { path: "dir/a.txt".to_string() });
    assert_eq!(done.batch, nothing());
    assert_eq!(w.cache.len(), 1);
}

#[test]
fn remove_then_create_within_a_second_is_a_move() {
    let mut w = world();
    send(&mut w, &event(WatchKind::Create, vec![file("dir/a.txt", 4096, 100 * SECOND)]), 0);
    let removed = send(&mut w, &event(WatchKind::Remove, vec![gone("dir/a.txt")]), 1_000);
    assert_eq!(removed.outcome, Outcome::Removed { path: "dir/a.txt".to_string() });
    assert_eq!(removed.batch.removals, vec!["dir/a.txt".to_string()]);
    assert!(removed.batch.upserts.is_empty());
    assert_eq!(w.cache.get("dir/a.txt"), None);
    assert_eq!(w.heuristics.remove_events.len(), 1);
    assert_eq!(w.heuristics.remove_events[0].meta, Some(meta("dir/a.txt", 4096, 100 * SECOND)));
    let created =
        send(&mut w, &event(WatchKind::Create, vec![file("dir/b.txt", 4096, 101 * SECOND)]), 1_900);
    assert_eq!(
        created.outcome,
        Outcome::MoveDetected {
            from: "dir/a.txt".to_string(),
            to: "dir/b.txt".to_string(),
            score: 100
        }
    );
    assert_eq!(created.batch.upserts.len(), 1);
    assert!(w.heuristics.remove_events.is_empty());
    assert!(w.moved.contains("dir/b.txt"));
    assert_eq!(w.cache.get("dir/b.txt"), Some(meta("dir/b.txt", 4096, 101 * SECOND)));
}

#[test]
fn create_after_max_age_is_a_plain_create() {
    let mut w = world();
    send(&mut w, &event(WatchKind::Create, vec![file("dir/a.txt", 4096, 100 * SECOND)]), 0);
    send(&mut w, &event(WatchKind::Remove, vec![gone("dir/a.txt")]), 1_000);
    let created =
        send(&mut w, &event(WatchKind::Create, vec![file("dir/b.txt", 4096, 100 * SECOND)]), 6_000);
    assert_eq!(created.outcome, Outcome::Created { path: "dir/b.txt".to_string() });
    assert!(!w.moved.contains("dir/b.txt"));
    assert!(w.heuristics.remove_events.is_empty());
}

#[test]
fn modify_after_move_is_swallowed_once() {
    let mut w = world();
    send(&mut w, &event(WatchKind::Create, vec![file("dir/a.txt", 4096, 100 * SECOND)]), 0);
    send(&mut w, &event(WatchKind::Remove, vec![gone("dir/a.txt")]), 10);
    send(&mut w, &event(WatchKind::Create, vec![file("dir/b.txt", 4096, 100 * SECOND)]), 20);
    let modify = event(WatchKind::ModifyAny, vec![file("dir/b.txt", 4096, 100 * SECOND)]);
    assert_eq!(send(&mut w, &modify, 30).outcome, Outcome::Swallowed);
    assert!(!w.moved.contains("dir/b.txt"));
    assert_eq!(send(&mut w, &modify, 40).outcome, Outcome::Info);
}

#[test]
fn ignored_path_drops_the_notification() {
    let mut w = world();
    let done = send(&mut w, &event(WatchKind::Create, vec![file("dir/a.tmp", 1, 1)]), 0);
    assert_eq!(done.outcome, Outcome::Ignored);
    assert_eq!(done.batch, nothing());
    assert_eq!(w.cache.len(), 1);
    let done = send(&mut w, &event(WatchKind::Create, vec![file("target/x/a.txt", 1, 1)]), 0);
    assert_eq!(done.outcome, Outcome::Ignored);
    let both = event(WatchKind::ModifyName, vec![file("a.txt", 1, 1), file("b.tmp", 1, 1)]);
    assert_eq!(send(&mut w, &both, 0).outcome, Outcome::Ignored);
    assert!(is_ignored_event(&w.ignore, &both.paths));
    assert!(!is_ignored_event(&w.ignore, &vec![file("a.txt", 1, 1)]));
    assert!(is_ignored_event(&w.ignore, &vec![dir("target")]));
    assert!(!is_ignored_event(&w.ignore, &vec![gone("target")]));
}

#[test]
fn rename_in_one_directory() {
    let mut w = world();
    send(&mut w, &event(WatchKind::Create, vec![file("dir/a.txt", 5, 1)]), 0);
    let e = event(WatchKind::ModifyName, vec![gone("dir/a.txt"), file("dir/b.txt", 5, 1)]);
    let done = send(&mut w, &e, 10);
    assert_eq!(
        done.outcome,
        Outcome::Renamed { from: "dir/a.txt".to_string(), to: "dir/b.txt".to_string() }
    );
    assert_eq!(done.batch.removals, vec!["dir/a.txt".to_string()]);
    assert_eq!(done.batch.upserts, vec![("dir/b.txt".to_string(), meta("dir/b.txt", 5, 1).serialize())]);
    assert_eq!(w.cache.get("dir/a.txt"), None);
    assert_eq!(w.cache.get("dir/b.txt"), Some(meta("dir/b.txt", 5, 1)));
    assert!(w.moved.contains("dir/b.txt"));
    assert!(w.heuristics.remove_events.is_empty());
}

#[test]
fn rename_to_another_directory_is_a_move() {
    let mut w = world();
    send(&mut w, &event(WatchKind::Create, vec![file("dir/a.txt", 5, 1)]), 0);
    let e = event(WatchKind::ModifyName, vec![gone("dir/a.txt"), file("other/a.txt", 5, 1)]);
    let done = send(&mut w, &e, 10);
    assert_eq!(
        done.outcome,
        Outcome::Moved { from: "dir/a.txt".to_string(), to: "other/a.txt".to_string() }
    );
    assert_eq!(w.cache.get("other/a.txt"), Some(meta("other/a.txt", 5, 1)));
}

#[test]
fn rename_with_one_path_or_none_changes_nothing() {
    let mut w = world();
    let one = send(&mut w, &event(WatchKind::ModifyName, vec![file("dir/a.txt", 5, 1)]), 0);
    assert_eq!(one.outcome, Outcome::RenameSinglePath { path: "dir/a.txt".to_string() });
    assert_eq!(one.batch, nothing());
    let none = send(&mut w, &event(WatchKind::ModifyName, vec![]), 0);
    assert_eq!(none.outcome, Outcome::RenameUnexpectedPaths);
    let three = vec![file("a", 1, 1), file("b", 1, 1), file("c", 1, 1)];
    let many = send(&mut w, &event(WatchKind::ModifyName, three), 0);
    assert_eq!(many.outcome, Outcome::RenameUnexpectedPaths);
    assert_eq!(w.cache.len(), 1);
}

#[test]
fn remove_or_create_without_path() {
    let mut w = world();
    assert_eq!(send(&mut w, &event(WatchKind::Remove, vec![]), 0).outcome, Outcome::NoPath);
    assert_eq!(send(&mut w, &event(WatchKind::Create, vec![]), 0).outcome, Outcome::NoPath);
    assert!(w.heuristics.remove_events.is_empty());
}

#[test]
fn remove_of_unknown_path_is_buffered_without_record() {
    let mut w = world();
    let done = send(&mut w, &event(WatchKind::Remove, vec![gone("dir/x.txt")]), 5);
    assert_eq!(done.outcome, Outcome::Removed { path: "dir/x.txt".to_string() });
    assert_eq!(done.batch, nothing());
    assert_eq!(w.heuristics.remove_events.len(), 1);
    assert_eq!(w.heuristics.remove_events[0].meta, None);
    assert_eq!(w.heuristics.remove_events[0].time, 5);
}

#[test]
fn remove_of_directory_takes_its_files() {
    let mut w = world();
    send(&mut w, &event(WatchKind::Create, vec![file("dir/a.txt", 5, 1)]), 0);
    send(&mut w, &event(WatchKind::Create, vec![file("dir/sub/b.txt", 6, 1)]), 0);
    let done = send(&mut w, &event(WatchKind::Remove, vec![gone("dir")]), 10);
    assert_eq!(done.batch.removals, vec!["dir/a.txt".to_string(), "dir/sub/b.txt".to_string()]);
    assert_eq!(w.cache.len(), 1);
}

#[test]
fn changes_of_directories_and_database_are_swallowed() {
    let mut w = world();
    assert_eq!(send(&mut w, &event(WatchKind::ModifyAny, vec![dir("dir")]), 0).outcome, Outcome::Swallowed);
    let db = event(WatchKind::ModifyAny, vec![file("watched/linkfield.redb", 1, 1)]);
    assert_eq!(send(&mut w, &db, 0).outcome, Outcome::Swallowed);
    let plain = event(WatchKind::ModifyAny, vec![file("dir/a.txt", 1, 1)]);
    assert_eq!(send(&mut w, &plain, 0).outcome, Outcome::Info);
    assert_eq!(send(&mut w, &event(WatchKind::Other, vec![dir("dir")]), 0).outcome, Outcome::Info);
    assert_eq!(send(&mut w, &event(WatchKind::ModifyAny, vec![]), 0).outcome, Outcome::Info);
}

#[test]
fn asking_stops_at_the_first_reason() {
    let mut moved = RecentlyMoved::new();
    moved.insert("a");
    moved.insert("b");
    moved.insert("a");
    let paths = vec![gone("x"), gone("a"), gone("b")];
    assert_eq!(handle_other_event(WatchKind::Other, &paths, &mut moved), Outcome::Info);
    assert!(!moved.contains("a"));
    assert!(moved.contains("b"));
    let paths = vec![dir("d"), gone("b")];
    assert_eq!(handle_other_event(WatchKind::ModifyAny, &paths, &mut moved), Outcome::Swallowed);
    assert!(moved.contains("b"));
    assert!(moved.remove("b"));
    assert!(!moved.remove("b"));
}

#[test]
fn directories_of_paths() {
    assert!(in_same_directory("dir/a.txt", "dir/b.txt"));
    assert!(in_same_directory("a.txt", "b.txt"));
    assert!(in_same_directory("/dir//a.txt", "dir/b.txt"));
    assert!(!in_same_directory("dir/a.txt", "other/a.txt"));
    assert!(!in_same_directory("dir/a.txt", "dir/sub/a.txt"));
    assert!(names_database("some/where/linkfield.redb"));
    assert!(names_database("linkfield.redb"));
    assert!(!names_database("linkfield.redb/inside"));
    assert!(!names_database("other.redb"));
}

#[test]
fn create_under_another_key_takes_the_old_key_out() {
    let mut w = world();
    send(&mut w, &event(WatchKind::Create, vec![file("watched/dir/a.txt", 5, 1)]), 0);
    let done = send(&mut w, &event(WatchKind::Create, vec![file("dir/a.txt", 6, 1)]), 10);
    assert_eq!(done.batch.removals, vec!["watched/dir/a.txt".to_string()]);
    assert_eq!(
        done.batch.upserts,
        vec![("dir/a.txt".to_string(), meta("dir/a.txt", 6, 1).serialize())]
    );
    assert_eq!(w.cache.len(), 3);
    let gone = send(&mut w, &event(WatchKind::Remove, vec![gone("watched/dir/a.txt")]), 20);
    assert_eq!(gone.batch.removals, vec!["dir/a.txt".to_string()]);
}

#[test]
fn created_directory_is_recorded_as_a_directory() {
    let mut w = world();
    let made = ObservedPath { path: "d".to_string(), is_dir: true, meta: Some(meta("d", 4096, 1)) };
    let done = send(&mut w, &event(WatchKind::Create, vec![made]), 0);
    assert_eq!(done.outcome, Outcome::Created { path: "d".to_string() });
    assert_eq!(done.batch, nothing());
    assert_eq!(w.cache.get("d"), None);
    assert!(w.cache.find_entry_by_path("d").is_some());
    send(&mut w, &event(WatchKind::Create, vec![file("d/x", 5, 1)]), 10);
    assert_eq!(w.cache.get("d/x"), Some(meta("d/x", 5, 1)));
    assert_eq!(w.cache.all_files(), vec![meta("d/x", 5, 1)]);
}

#[test]
fn directory_in_place_of_a_file_takes_its_key_out() {
    let mut w = world();
    send(&mut w, &event(WatchKind::Create, vec![file("d", 5, 1)]), 0);
    let done = send(&mut w, &event(WatchKind::Create, vec![dir("d")]), 10);
    assert_eq!(done.batch.removals, vec!["d".to_string()]);
    assert!(done.batch.upserts.is_empty());
    assert_eq!(w.cache.get("d"), None);
}
