//! What is written to the durable table: batches of removals and upserts,
//! keyed by path, and the rows read back from it.

use crate::file_cache::meta::record_encoding;
use crate::file_cache::meta::stored_record;
use crate::file_cache::meta::FileCachePath;
use crate::file_cache::meta::FileMeta;
use crate::file_cache::meta::FileMetaView;
use vstd::prelude::*;

verus! {

/// The name of the table.
pub const FILE_CACHE_TABLE_NAME: &'static str = "file_cache";

/// One transaction on the table: the keys to remove, then the rows to
/// insert or replace.
#[derive(Debug, PartialEq, Eq)]
pub struct StoreBatch {
    pub removals: Vec<String>,
    pub upserts: Vec<(String, Vec<u8>)>,
}

/// A batch as mathematical values.
pub ghost struct StoreBatchView {
    pub removals: Seq<Seq<char>>,
    pub upserts: Seq<(Seq<char>, Seq<u8>)>,
}

impl View for StoreBatch {
    type V = StoreBatchView;

    open spec fn view(&self) -> StoreBatchView {
        StoreBatchView { removals: self.removals.deep_view(), upserts: self.upserts.deep_view() }
    }
}

/// The table as a map from key to stored bytes.
pub type Table = Map<Seq<char>, Seq<u8>>;

/// The table after the rows have been written, first to last.
pub open spec fn write_rows(table: Table, rows: Seq<(Seq<char>, Seq<u8>)>) -> Table
    decreases rows.len(),
{
    if rows.len() == 0 {
        table
    } else {
        write_rows(table, rows.drop_last()).insert(rows.last().0, rows.last().1)
    }
}

/// The table after a batch has been committed: its removals are applied,
/// then its upserts.
pub open spec fn commit(table: Table, batch: StoreBatchView) -> Table {
    write_rows(table.remove_keys(batch.removals.to_set()), batch.upserts)
}

/// The rows that store the records: each record encoded, under the key
/// that comes with it, in their order.
pub open spec fn encoded_rows(records: Seq<(Seq<char>, FileMetaView)>) -> Seq<
    (Seq<char>, Seq<u8>),
> {
    Seq::new(records.len(), |i: int| (records[i].0, record_encoding(records[i].1)))
}

/// The key of a path in the table: the path itself.
pub fn serialize_path(path: &FileCachePath) -> (key: &str)
    ensures
        key@ == path@,
{
    path.as_str()
}

/// The batch that removes the given paths and then stores the given
/// records, each under its path.
pub fn batch_commit(to_remove: &[FileCachePath], to_add_or_update: &[(FileCachePath, FileMeta)])
    -> (batch: StoreBatch)
    ensures
        batch@.removals == to_remove.deep_view(),
        batch@.upserts == encoded_rows(to_add_or_update.deep_view()),
{
    let mut removals: Vec<String> = Vec::new();
    let mut i: usize = 0;
    while i < to_remove.len()
        invariant
            i <= to_remove.len(),
            removals.deep_view() == to_remove.deep_view().take(i as int),
        decreases to_remove.len() - i,
    {
        let ghost before = removals.deep_view();
        removals.push(serialize_path(&to_remove[i]).to_owned());
        assert(removals.deep_view() =~= before.push(to_remove[i as int]@));
        assert(to_remove.deep_view().take(i + 1) =~= to_remove.deep_view().take(i as int).push(
            to_remove[i as int]@,
        ));
        i += 1;
    }
    assert(to_remove.deep_view().take(i as int) =~= to_remove.deep_view());
    let mut upserts: Vec<(String, Vec<u8>)> = Vec::new();
    let mut j: usize = 0;
    while j < to_add_or_update.len()
        invariant
            j <= to_add_or_update.len(),
            upserts.deep_view() == encoded_rows(to_add_or_update.deep_view().take(j as int)),
        decreases to_add_or_update.len() - j,
    {
        let ghost before = upserts.deep_view();
        let key: String = serialize_path(&to_add_or_update[j].0).to_owned();
        let bytes: Vec<u8> = to_add_or_update[j].1.serialize();
        let ghost row = (key@, bytes@);
        assert(bytes.deep_view() =~= bytes@);
        upserts.push((key, bytes));
        proof {
            assert(upserts.deep_view() =~= before.push(row));
            let records = to_add_or_update.deep_view().take(j + 1);
            assert(records =~= to_add_or_update.deep_view().take(j as int).push(
                to_add_or_update.deep_view()[j as int],
            ));
            assert(to_add_or_update.deep_view()[j as int] == (
                to_add_or_update[j as int].0@,
                to_add_or_update[j as int].1@,
            ));
            assert(encoded_rows(records) =~= encoded_rows(
                to_add_or_update.deep_view().take(j as int),
            ).push(row));
        }
        j += 1;
    }
    assert(to_add_or_update.deep_view().take(j as int) =~= to_add_or_update.deep_view());
    StoreBatch { removals, upserts }
}

/// The batch that stores one record under a path.
pub fn single_insert(path: &FileCachePath, meta: &FileMeta) -> (batch: StoreBatch)
    ensures
        batch@.removals == Seq::<Seq<char>>::empty(),
        batch@.upserts == encoded_rows(seq![(path@, meta@)]),
{
    let mut upserts: Vec<(String, Vec<u8>)> = Vec::new();
    let key: String = serialize_path(path).to_owned();
    let bytes: Vec<u8> = meta.serialize();
    let ghost row = (key@, bytes@);
    assert(bytes.deep_view() =~= bytes@);
    upserts.push((key, bytes));
    let batch = StoreBatch { removals: Vec::new(), upserts };
    assert(batch@.upserts =~= seq![row]);
    assert(encoded_rows(seq![(path@, meta@)]) =~= seq![row]);
    assert(batch@.removals =~= Seq::<Seq<char>>::empty());
    batch
}

/// The batch that removes one path.
pub fn single_remove(path: &FileCachePath) -> (batch: StoreBatch)
    ensures
        batch@.removals == seq![path@],
        batch@.upserts == Seq::<(Seq<char>, Seq<u8>)>::empty(),
{
    let mut removals: Vec<String> = Vec::new();
    removals.push(serialize_path(path).to_owned());
    let batch = StoreBatch { removals, upserts: Vec::new() };
    assert(batch@.removals =~= seq![path@]);
    assert(batch@.upserts =~= Seq::<(Seq<char>, Seq<u8>)>::empty());
    batch
}

/// The records that the rows of the table hold, each with its key as path.
/// A row whose bytes do not decode gives the zero-valued record.
pub open spec fn loaded_records(rows: Seq<(Seq<char>, Seq<u8>)>) -> Seq<(Seq<char>, FileMetaView)> {
    Seq::new(rows.len(), |i: int| (rows[i].0, stored_record(rows[i].1)))
}

/// Decodes the rows read from the table.
pub fn load_all(rows: &Vec<(String, Vec<u8>)>) -> (records: Vec<(FileCachePath, FileMeta)>)
    ensures
        records.deep_view() == loaded_records(rows.deep_view()),
{
    let mut records: Vec<(FileCachePath, FileMeta)> = Vec::new();
    let mut i: usize = 0;
    while i < rows.len()
        invariant
            i <= rows.len(),
            records.deep_view() == loaded_records(rows.deep_view()).take(i as int),
        decreases rows.len() - i,
    {
        let ghost before = records.deep_view();
        let path = FileCachePath::new(rows[i].0.as_str());
        let meta = FileMeta::deserialize(rows[i].1.as_slice());
        let ghost row = (path@, meta@);
        records.push((path, meta));
        proof {
            assert(records.deep_view() =~= before.push(row));
            assert(rows[i as int].1.deep_view() =~= rows[i as int].1@);
            assert(rows.deep_view()[i as int] == (rows[i as int].0@, rows[i as int].1@));
            assert(loaded_records(rows.deep_view()).take(i + 1) =~= loaded_records(
                rows.deep_view(),
            ).take(i as int).push(row));
        }
        i += 1;
    }
    assert(loaded_records(rows.deep_view()).take(i as int) =~= loaded_records(rows.deep_view()));
    records
}

/// The bytes of the last of the rows that has the given key.
pub open spec fn last_row(rows: Seq<(Seq<char>, Seq<u8>)>, key: Seq<char>) -> Option<Seq<u8>>
    decreases rows.len(),
{
    if rows.len() == 0 {
        None
    } else if rows.last().0 == key {
        Some(rows.last().1)
    } else {
        last_row(rows.drop_last(), key)
    }
}

/// What the table holds for a key once rows have been written: the bytes of
/// the last row with that key, or what it held before where no row has it.
pub proof fn law_write_rows(table: Table, rows: Seq<(Seq<char>, Seq<u8>)>, key: Seq<char>)
    ensures
        match last_row(rows, key) {
            Some(bytes) => write_rows(table, rows).contains_key(key) && write_rows(
                table,
                rows,
            )[key] == bytes,
            None => {
                &&& write_rows(table, rows).contains_key(key) == table.contains_key(key)
                &&& table.contains_key(key) ==> write_rows(table, rows)[key] == table[key]
            },
        },
    decreases rows.len(),
{
    if rows.len() > 0 {
        law_write_rows(table, rows.drop_last(), key);
    }
}

/// What the table holds for a key once a batch has been committed: the
/// bytes of the last upsert with that key; nothing, where no upsert has the
/// key and a removal has; and what it held before in every other case.
pub proof fn law_commit(table: Table, batch: StoreBatchView, key: Seq<char>)
    ensures
        match last_row(batch.upserts, key) {
            Some(bytes) => commit(table, batch).contains_key(key) && commit(table, batch)[key]
                == bytes,
            None => if batch.removals.contains(key) {
                !commit(table, batch).contains_key(key)
            } else {
                &&& commit(table, batch).contains_key(key) == table.contains_key(key)
                &&& table.contains_key(key) ==> commit(table, batch)[key] == table[key]
            },
        },
{
    law_write_rows(table.remove_keys(batch.removals.to_set()), batch.upserts, key);
}

/// Whether the rows have keys that differ from one another and that the
/// table does not hold.
pub open spec fn rows_are_new(table: Table, rows: Seq<(Seq<char>, Seq<u8>)>) -> bool {
    &&& forall|i: int, j: int|
        0 <= i < j < rows.len() ==> (#[trigger] rows[i]).0 != (#[trigger] rows[j]).0
    &&& forall|i: int| 0 <= i < rows.len() ==> !table.contains_key((#[trigger] rows[i]).0)
}

/// No row has a key that none of the rows has.
pub proof fn lemma_no_row(rows: Seq<(Seq<char>, Seq<u8>)>, key: Seq<char>)
    requires
        forall|i: int| 0 <= i < rows.len() ==> (#[trigger] rows[i]).0 != key,
    ensures
        last_row(rows, key) is None,
    decreases rows.len(),
{
    if rows.len() > 0 {
        lemma_no_row(rows.drop_last(), key);
    }
}

/// Writing rows with new keys adds one row to the table for each.
pub proof fn law_write_rows_count(table: Table, rows: Seq<(Seq<char>, Seq<u8>)>)
    requires
        table.dom().finite(),
        rows_are_new(table, rows),
    ensures
        write_rows(table, rows).dom().finite(),
        write_rows(table, rows).len() == table.len() + rows.len(),
    decreases rows.len(),
{
    if rows.len() > 0 {
        let before = rows.drop_last();
        let key = rows.last().0;
        assert(rows_are_new(table, before)) by {
            assert forall|i: int, j: int| 0 <= i < j < before.len() implies (
            #[trigger] before[i]).0 != (#[trigger] before[j]).0 by {
                assert(rows[i].0 != rows[j].0);
            }
            assert forall|i: int| 0 <= i < before.len() implies !table.contains_key(
                (#[trigger] before[i]).0,
            ) by {
                assert(!table.contains_key(rows[i].0));
            }
        }
        law_write_rows_count(table, before);
        assert forall|i: int| 0 <= i < before.len() implies (#[trigger] before[i]).0 != key by {
            assert(rows[i].0 != rows[rows.len() - 1].0);
        }
        lemma_no_row(before, key);
        law_write_rows(table, before, key);
        assert(!table.contains_key(rows[rows.len() - 1].0));
        let written = write_rows(table, before);
        assert(!written.dom().contains(key));
        assert(written.insert(key, rows.last().1).dom() =~= written.dom().insert(key));
    }
}

/// Committing a batch that removes nothing and stores rows with new keys
/// adds one row to the table for each. So the batches of a streaming scan,
/// which hold each file of the scan once, leave the table with one row for
/// each file more than it had.
pub proof fn law_commit_count(table: Table, batch: StoreBatchView)
    requires
        table.dom().finite(),
        batch.removals.len() == 0,
        rows_are_new(table, batch.upserts),
    ensures
        commit(table, batch).dom().finite(),
        commit(table, batch).len() == table.len() + batch.upserts.len(),
{
    assert(batch.removals.to_set() =~= Set::<Seq<char>>::empty());
    assert(table.remove_keys(batch.removals.to_set()) =~= table);
    law_write_rows_count(table, batch.upserts);
}

} // verus!
