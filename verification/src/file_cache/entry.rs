//! The entries of the path tree and what they hold.

use crate::file_cache::meta::FileCachePath;
use crate::file_cache::meta::FileMeta;
use crate::file_cache::meta::FileMetaView;
use vstd::prelude::*;

verus! {

/// What an entry is: a file, with its record and the key under which the
/// durable table holds that record, or a directory.
#[derive(Debug, PartialEq, Eq)]
pub enum EntryKind {
    File { record: FileMeta, key: FileCachePath },
    Directory,
}

/// The kind of an entry as mathematical values.
pub ghost enum EntryKindView {
    File { record: FileMetaView, key: Seq<char> },
    Directory,
}

impl View for EntryKind {
    type V = EntryKindView;

    open spec fn view(&self) -> EntryKindView {
        match self {
            EntryKind::File { record, key } => EntryKindView::File { record: record@, key: key@ },
            EntryKind::Directory => EntryKindView::Directory,
        }
    }
}

impl Clone for EntryKind {
    fn clone(&self) -> (copy: Self)
        ensures
            copy == *self,
    {
        match self {
            EntryKind::File { record, key } => EntryKind::File {
                record: record.clone(),
                key: key.clone(),
            },
            EntryKind::Directory => EntryKind::Directory,
        }
    }
}

/// A node of the path tree.
#[derive(Debug, PartialEq, Eq)]
pub struct Entry {
    pub id: u64,
    pub name: String,
    pub parent: Option<u64>,
    pub kind: EntryKind,
}

/// An entry as mathematical values.
pub ghost struct EntryView {
    pub id: u64,
    pub name: Seq<char>,
    pub parent: Option<u64>,
    pub kind: EntryKindView,
}

impl View for Entry {
    type V = EntryView;

    open spec fn view(&self) -> EntryView {
        EntryView { id: self.id, name: self.name@, parent: self.parent, kind: self.kind@ }
    }
}

impl Clone for Entry {
    fn clone(&self) -> (copy: Self)
        ensures
            copy == *self,
    {
        Entry {
            id: self.id,
            name: self.name.clone(),
            parent: self.parent,
            kind: self.kind.clone(),
        }
    }
}

/// Why the tree refused a change.
#[derive(Debug, PartialEq, Eq, Clone, Copy)]
pub enum CacheError {
    /// The entry named as parent is not in the tree.
    ParentMissing,
    /// The change needs a new id and none is left.
    IdsExhausted,
    /// The path has no component below the root.
    EmptyPath,
}

/// The views of the entries, in their order.
pub open spec fn entries_view(entries: Seq<Entry>) -> Seq<EntryView> {
    Seq::new(entries.len(), |i: int| entries[i]@)
}

} // verus!
