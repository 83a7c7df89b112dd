//! Pairing a delete notification with the create notification that follows
//! it: a buffer of recent deletes, and a score that says how much a delete
//! and a create look like one move.

use crate::file_cache::meta::path_extension;
use crate::file_cache::meta::extension_of_path;
use crate::file_cache::meta::FileMeta;
use crate::file_cache::meta::FileMetaView;
use crate::paths::file_name;
use crate::paths::file_name_of;
use crate::paths::starts_with;
use std::collections::VecDeque;
use vstd::prelude::*;

verus! {

/// The score at which every sign of a move is present, in hundredths.
pub const FULL_SCORE: u32 = 100;

/// A pair must score more than this to count as a move.
pub const PAIRING_THRESHOLD: u32 = 50;

/// Modification times less than this many nanoseconds apart count as the
/// same moment: two seconds.
pub const MTIME_WINDOW_NANOS: u64 = 2_000_000_000;

/// Sizes less than this many bytes apart count as close.
pub const SIZE_WINDOW: u64 = 16;

/// The kind of a file event.
#[derive(Debug, Clone, Copy, PartialEq, Eq, Structural)]
pub enum FileEventKind {
    Remove,
    Create,
}

/// One observed notification: the path, what happened to it, the record the
/// cache held or holds for it, and the reading of the clock when it was
/// seen, in milliseconds.
#[derive(Debug, PartialEq, Eq)]
pub struct FileEvent {
    pub path: String,
    pub kind: FileEventKind,
    pub meta: Option<FileMeta>,
    pub time: u64,
}

/// An event as mathematical values.
pub ghost struct FileEventView {
    pub path: Seq<char>,
    pub kind: FileEventKind,
    pub meta: Option<FileMetaView>,
    pub time: u64,
}

impl View for FileEvent {
    type V = FileEventView;

    open spec fn view(&self) -> FileEventView {
        FileEventView {
            path: self.path@,
            kind: self.kind,
            meta: self.meta.deep_view(),
            time: self.time,
        }
    }
}

impl DeepView for FileEvent {
    type V = FileEventView;

    open spec fn deep_view(&self) -> FileEventView {
        self@
    }
}

impl Clone for FileEvent {
    fn clone(&self) -> (copy: Self)
        ensures
            copy == *self,
    {
        let meta = match &self.meta {
            Some(m) => Some(m.clone()),
            None => None,
        };
        FileEvent { path: self.path.clone(), kind: self.kind, meta, time: self.time }
    }
}

/// A delete and a create taken for one move, with their score in
/// hundredths.
#[derive(Debug, PartialEq, Eq)]
pub struct MoveCandidate {
    pub from: FileEvent,
    pub to: FileEvent,
    pub score: u32,
}

/// The distance between two numbers.
pub open spec fn distance(a: u64, b: u64) -> nat {
    if a >= b {
        (a - b) as nat
    } else {
        (b - a) as nat
    }
}

/// The size that a record gives, where there is a record.
pub open spec fn size_of(meta: Option<FileMetaView>) -> Option<u64> {
    match meta {
        Some(meta) => Some(meta.size),
        None => None,
    }
}

/// The modification time that a record gives, where there is a record.
pub open spec fn modified_of(meta: Option<FileMetaView>) -> Option<u64> {
    match meta {
        Some(meta) => meta.modified,
        None => None,
    }
}

/// What the sizes add: 70 for equal sizes above zero, else 40 for sizes
/// less than 16 bytes apart, and nothing where a size is unknown.
pub open spec fn size_points(removed: Option<u64>, created: Option<u64>) -> nat {
    match (removed, created) {
        (Some(r), Some(c)) => if r == c && r > 0 {
            70
        } else if distance(r, c) < SIZE_WINDOW {
            40
        } else {
            0
        },
        _ => 0,
    }
}

/// What the extensions add: 20 where the two file names have the same
/// extension, or both have none.
pub open spec fn extension_points(removed: Seq<char>, created: Seq<char>) -> nat {
    if path_extension(removed) == path_extension(created) {
        20
    } else {
        0
    }
}

/// What the file names add: 20 for equal names, else 10 where one begins
/// with the other, and nothing where a path has no file name.
pub open spec fn name_points(removed: Seq<char>, created: Seq<char>) -> nat {
    match (file_name_of(removed), file_name_of(created)) {
        (Some(r), Some(c)) => if r == c {
            20
        } else if r.is_prefix_of(c) || c.is_prefix_of(r) {
            10
        } else {
            0
        },
        _ => 0,
    }
}

/// What the modification times add: 10 where they are less than two
/// seconds apart, and nothing where one is unknown.
pub open spec fn time_points(removed: Option<u64>, created: Option<u64>) -> nat {
    match (removed, created) {
        (Some(r), Some(c)) => if distance(r, c) < MTIME_WINDOW_NANOS {
            10
        } else {
            0
        },
        _ => 0,
    }
}

/// How much a delete and a create look like one move, in hundredths: the
/// points of size, extension, file name and modification time, and at most
/// 100.
pub open spec fn pair_score(removed: FileEventView, created: FileEventView) -> nat {
    let sum = size_points(size_of(removed.meta), size_of(created.meta)) + extension_points(
        removed.path,
        created.path,
    ) + name_points(removed.path, created.path) + time_points(
        modified_of(removed.meta),
        modified_of(created.meta),
    );
    if sum > FULL_SCORE {
        FULL_SCORE as nat
    } else {
        sum
    }
}

/// The distance between two numbers.
pub fn abs_diff(a: u64, b: u64) -> (d: u64)
    ensures
        d == distance(a, b),
{
    if a >= b {
        a - b
    } else {
        b - a
    }
}

fn score_sizes(removed: &Option<FileMeta>, created: &Option<FileMeta>) -> (points: u32)
    ensures
        points == size_points(size_of(removed.deep_view()), size_of(created.deep_view())),
{
    match (removed, created) {
        (Some(r), Some(c)) => {
            if r.size == c.size && r.size > 0 {
                70
            } else if abs_diff(r.size, c.size) < SIZE_WINDOW {
                40
            } else {
                0
            }
        },
        _ => 0,
    }
}

fn score_times(removed: &Option<FileMeta>, created: &Option<FileMeta>) -> (points: u32)
    ensures
        points == time_points(modified_of(removed.deep_view()), modified_of(created.deep_view())),
{
    match (removed, created) {
        (Some(r), Some(c)) => match (r.modified, c.modified) {
            (Some(rm), Some(cm)) => {
                if abs_diff(rm, cm) < MTIME_WINDOW_NANOS {
                    10
                } else {
                    0
                }
            },
            _ => 0,
        },
        _ => 0,
    }
}

fn score_extensions(removed: &str, created: &str) -> (points: u32)
    ensures
        points == extension_points(removed@, created@),
{
    let same = match (extension_of_path(removed), extension_of_path(created)) {
        (Some(r), Some(c)) => r == c,
        (None, None) => true,
        _ => false,
    };
    if same {
        20
    } else {
        0
    }
}

fn score_names(removed: &str, created: &str) -> (points: u32)
    ensures
        points == name_points(removed@, created@),
{
    match (file_name(removed), file_name(created)) {
        (Some(r), Some(c)) => {
            if r == c {
                20
            } else if starts_with(r.as_str(), c.as_str()) || starts_with(c.as_str(), r.as_str()) {
                10
            } else {
                0
            }
        },
        _ => 0,
    }
}

/// Scores a delete and a create for how much they look like one move.
pub fn score_pair(remove: &FileEvent, create: &FileEvent) -> (score: u32)
    ensures
        score == pair_score(remove@, create@),
        score <= FULL_SCORE,
{
    let sum: u32 = score_sizes(&remove.meta, &create.meta) + score_extensions(
        remove.path.as_str(),
        create.path.as_str(),
    ) + score_names(remove.path.as_str(), create.path.as_str()) + score_times(
        &remove.meta,
        &create.meta,
    );
    if sum > FULL_SCORE {
        FULL_SCORE
    } else {
        sum
    }
}

/// The event for a path, with the record that the cache holds for it and
/// the reading of the clock.
pub fn make_file_event(path: String, kind: FileEventKind, meta: Option<FileMeta>, time: u64) -> (event:
    FileEvent)
    ensures
        event.path == path,
        event.kind == kind,
        event.meta == meta,
        event.time == time,
{
    FileEvent { path, kind, meta, time }
}

/// How long ago an event was seen, in milliseconds: nothing where the
/// clock reads less than when the event was seen.
pub open spec fn age(event: FileEventView, now: u64) -> nat {
    if now >= event.time {
        (now - event.time) as nat
    } else {
        0
    }
}

/// The events that are younger than `max_age`, in their order.
pub open spec fn live_events(events: Seq<FileEventView>, now: u64, max_age: u64) -> Seq<
    FileEventView,
>
    decreases events.len(),
{
    if events.len() == 0 {
        Seq::empty()
    } else {
        let before = live_events(events.drop_last(), now, max_age);
        if age(events.last(), now) < max_age {
            before.push(events.last())
        } else {
            before
        }
    }
}

/// The position, among the first `n` deletes, of the one that pairs best
/// with a create: the first of those with the highest score, where that
/// score is above the threshold.
pub open spec fn best_match(deletes: Seq<FileEventView>, created: FileEventView, n: int) -> Option<
    int,
>
    decreases n,
{
    if n <= 0 {
        None
    } else {
        let before = best_match(deletes, created, n - 1);
        let score = pair_score(deletes[n - 1], created);
        if score > PAIRING_THRESHOLD && (before is None || score > pair_score(
            deletes[before->0],
            created,
        )) {
            Some(n - 1)
        } else {
            before
        }
    }
}

/// The views of the events of a queue.
pub open spec fn events_view(events: Seq<FileEvent>) -> Seq<FileEventView> {
    Seq::new(events.len(), |i: int| events[i]@)
}

/// The deletes that wait for their create, oldest first, and the age at
/// which they are given up, in milliseconds.
pub struct MoveHeuristics {
    pub remove_events: VecDeque<FileEvent>,
    pub max_age: u64,
}

impl View for MoveHeuristics {
    type V = Seq<FileEventView>;

    open spec fn view(&self) -> Seq<FileEventView> {
        events_view(self.remove_events@)
    }
}

impl MoveHeuristics {
    /// An empty buffer that gives a delete up once it is `max_age`
    /// milliseconds old.
    pub fn new(max_age: u64) -> (buffer: Self)
        ensures
            buffer@ == Seq::<FileEventView>::empty(),
            buffer.max_age == max_age,
    {
        let buffer = MoveHeuristics { remove_events: VecDeque::new(), max_age };
        assert(buffer@ =~= Seq::<FileEventView>::empty());
        buffer
    }

    /// Drops the deletes that have reached the age at which they are given
    /// up.
    fn prune_old(&mut self, now: u64)
        ensures
            final(self).max_age == old(self).max_age,
            final(self)@ == live_events(old(self)@, now, old(self).max_age),
    {
        let ghost events = self@;
        let n: usize = self.remove_events.len();
        let mut i: usize = 0;
        assert(events.take(0) =~= Seq::<FileEventView>::empty());
        assert(self@ =~= events.skip(0) + live_events(events.take(0), now, self.max_age));
        while i < n
            invariant
                i <= n,
                n == events.len(),
                self.max_age == old(self).max_age,
                self@ == events.skip(i as int) + live_events(
                    events.take(i as int),
                    now,
                    self.max_age,
                ),
            decreases n - i,
        {
            let ghost queue = self@;
            let ghost raw = self.remove_events@;
            let ghost kept = live_events(events.take(i as int), now, self.max_age);
            assert(queue.len() == n - i + kept.len());
            assert(queue[0] == events.skip(i as int)[0]);
            let front = self.remove_events.pop_front();
            let ghost rest = events.skip(i + 1) + kept;
            proof {
                assert(events.take(i + 1).drop_last() =~= events.take(i as int));
                assert(events.take(i + 1).last() == events[i as int]);
                assert(self@.len() == rest.len());
                assert forall|k: int| 0 <= k < rest.len() implies self@[k] == rest[k] by {
                    assert(self@[k] == raw[k + 1]@);
                    assert(queue[k + 1] == raw[k + 1]@);
                    if k < n - i - 1 {
                        assert(queue[k + 1] == events.skip(i as int)[k + 1]);
                    } else {
                        assert(queue[k + 1] == kept[k + 1 - (n - i)]);
                    }
                }
                assert(self@ =~= rest);
            }
            match front {
                Some(event) => {
                    assert(event@ == events[i as int]);
                    let elapsed: u64 = if now >= event.time {
                        now - event.time
                    } else {
                        0
                    };
                    if elapsed < self.max_age {
                        let ghost popped = self.remove_events@;
                        self.remove_events.push_back(event);
                        proof {
                            let grown = events.skip(i + 1) + kept.push(event@);
                            assert(self@.len() == grown.len());
                            assert forall|k: int| 0 <= k < grown.len() implies self@[k]
                                == grown[k] by {
                                if k < rest.len() {
                                    assert(self@[k] == popped[k]@);
                                    assert(rest[k] == popped[k]@);
                                }
                            }
                            assert(self@ =~= grown);
                        }
                    }
                },
                None => {},
            }
            i += 1;
        }
        assert(events.take(n as int) =~= events);
        assert(self@ =~= live_events(events, now, self.max_age));
    }

    /// Buffers a delete, then drops what has grown too old by `now`.
    pub fn add_remove(&mut self, event: FileEvent, now: u64)
        ensures
            final(self).max_age == old(self).max_age,
            final(self)@ == live_events(old(self)@.push(event@), now, old(self).max_age),
            forall|i: int|
                0 <= i < final(self)@.len() ==> age(#[trigger] final(self)@[i], now) < old(
                    self,
                ).max_age,
    {
        let ghost before = self@;
        self.remove_events.push_back(event);
        assert(self@ =~= before.push(event@));
        self.prune_old(now);
        proof {
            lemma_live_events_are_young(before.push(event@), now, self.max_age);
        }
    }

    /// Looks for the buffered delete that a create pairs with. What has
    /// grown too old by `now` is dropped first. Of the deletes that are left,
    /// the one with the highest score wins, the oldest of them where several
    /// have it, provided the score is above the threshold; it leaves the
    /// buffer and is returned with the create. Otherwise nothing is paired
    /// and the buffer keeps its deletes.
    pub fn pair_create(&mut self, create: &FileEvent, now: u64) -> (paired: Option<MoveCandidate>)
        ensures
            final(self).max_age == old(self).max_age,
            forall|i: int|
                0 <= i < final(self)@.len() ==> age(#[trigger] final(self)@[i], now) < old(
                    self,
                ).max_age,
            ({
                let live = live_events(old(self)@, now, old(self).max_age);
                match paired {
                    Some(candidate) => {
                        &&& best_match(live, create@, live.len() as int) matches Some(i)
                        &&& 0 <= i < live.len()
                        &&& candidate.from@ == live[i]
                        &&& candidate.to@ == create@
                        &&& candidate.score == pair_score(live[i], create@)
                        &&& candidate.score > PAIRING_THRESHOLD
                        &&& final(self)@ == live.remove(i)
                    },
                    None => {
                        &&& best_match(live, create@, live.len() as int) is None
                        &&& final(self)@ == live
                    },
                }
            }),
    {
        self.prune_old(now);
        let ghost live = self@;
        proof {
            lemma_live_events_are_young(old(self)@, now, self.max_age);
        }
        let n: usize = self.remove_events.len();
        let mut best: Option<usize> = None;
        let mut best_score: u32 = 0;
        let mut i: usize = 0;
        while i < n
            invariant
                i <= n,
                n == live.len(),
                self@ == live,
                self.max_age == old(self).max_age,
                match best {
                    Some(b) => b < i && best_match(live, create@, i as int) == Some(b as int)
                        && best_score == pair_score(live[b as int], create@),
                    None => best_match(live, create@, i as int) is None,
                },
            decreases n - i,
        {
            assert(live[i as int] == self.remove_events@[i as int]@);
            let score: u32 = score_pair(&self.remove_events[i], create);
            if score > PAIRING_THRESHOLD && (best.is_none() || score > best_score) {
                best = Some(i);
                best_score = score;
            }
            i += 1;
        }
        match best {
            Some(b) => {
                proof {
                    lemma_best_match(live, create@, n as int);
                }
                match self.remove_events.remove(b) {
                    Some(from) => {
                        assert(self@ =~= live.remove(b as int));
                        Some(MoveCandidate { from, to: create.clone(), score: best_score })
                    },
                    None => None,
                }
            },
            None => None,
        }
    }
}

/// Every event that is kept is younger than `max_age`.
pub proof fn lemma_live_events_are_young(events: Seq<FileEventView>, now: u64, max_age: u64)
    ensures
        forall|i: int|
            0 <= i < live_events(events, now, max_age).len() ==> age(
                #[trigger] live_events(events, now, max_age)[i],
                now,
            ) < max_age,
        live_events(events, now, max_age).len() <= events.len(),
    decreases events.len(),
{
    if events.len() > 0 {
        lemma_live_events_are_young(events.drop_last(), now, max_age);
    }
}

/// What the best match is: it scores above the threshold, no delete scores
/// higher, and every delete before it scores lower. Where there is none, no
/// delete scores above the threshold.
pub proof fn lemma_best_match(deletes: Seq<FileEventView>, created: FileEventView, n: int)
    requires
        0 <= n <= deletes.len(),
    ensures
        match best_match(deletes, created, n) {
            Some(b) => {
                &&& 0 <= b < n
                &&& pair_score(deletes[b], created) > PAIRING_THRESHOLD
                &&& forall|j: int|
                    0 <= j < n ==> pair_score(#[trigger] deletes[j], created) <= pair_score(
                        deletes[b],
                        created,
                    )
                &&& forall|j: int|
                    0 <= j < b ==> pair_score(#[trigger] deletes[j], created) < pair_score(
                        deletes[b],
                        created,
                    )
            },
            None => forall|j: int|
                0 <= j < n ==> pair_score(#[trigger] deletes[j], created) <= PAIRING_THRESHOLD,
        },
    decreases n,
{
    if n > 0 {
        lemma_best_match(deletes, created, n - 1);
    }
}

/// A create that comes when every buffered delete has reached the age at
/// which it is given up is paired with none of them.
pub proof fn law_expired_deletes_never_pair(
    events: Seq<FileEventView>,
    created: FileEventView,
    now: u64,
    max_age: u64,
)
    requires
        forall|i: int| 0 <= i < events.len() ==> age(#[trigger] events[i], now) >= max_age,
    ensures
        live_events(events, now, max_age) == Seq::<FileEventView>::empty(),
        best_match(
            live_events(events, now, max_age),
            created,
            live_events(events, now, max_age).len() as int,
        ) is None,
    decreases events.len(),
{
    if events.len() > 0 {
        law_expired_deletes_never_pair(events.drop_last(), created, now, max_age);
    }
}

} // verus!
