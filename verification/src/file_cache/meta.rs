//! Metadata records and their binary encoding.

use crate::paths::extension;
use crate::paths::extension_of;
use crate::paths::file_name;
use crate::paths::file_name_of;
use crate::file_cache::frame::has_record_frame;
use crate::file_cache::frame::record_frame;
use vstd::prelude::*;

verus! {

/// A path used as the key of a record.
#[derive(Debug, PartialEq, Eq, Hash)]
pub struct FileCachePath(pub String);

impl View for FileCachePath {
    type V = Seq<char>;

    open spec fn view(&self) -> Seq<char> {
        self.0@
    }
}

impl DeepView for FileCachePath {
    type V = Seq<char>;

    open spec fn deep_view(&self) -> Seq<char> {
        self@
    }
}

impl Clone for FileCachePath {
    fn clone(&self) -> (copy: Self)
        ensures
            copy == *self,
    {
        FileCachePath(self.0.clone())
    }
}

impl FileCachePath {
    /// The key for a path given as a string.
    pub fn new(path: &str) -> (key: Self)
        ensures
            key@ == path@,
    {
        FileCachePath(path.to_owned())
    }

    /// The path as a string slice.
    pub fn as_str(&self) -> (path: &str)
        ensures
            path@ == self@,
    {
        self.0.as_str()
    }
}

/// What a record holds, as mathematical values.
pub ghost struct FileMetaView {
    pub path: Seq<char>,
    pub size: u64,
    pub modified: Option<u64>,
    pub created: Option<u64>,
    pub extension: Option<Seq<char>>,
}

/// Snapshot of one file: its path, its size in bytes, its modification and
/// creation times in nanoseconds since the Unix epoch, and its extension.
#[derive(Debug, PartialEq, Eq)]
pub struct FileMeta {
    pub path: FileCachePath,
    pub size: u64,
    pub modified: Option<u64>,
    pub created: Option<u64>,
    pub extension: Option<String>,
}

impl View for FileMeta {
    type V = FileMetaView;

    open spec fn view(&self) -> FileMetaView {
        FileMetaView {
            path: self.path@,
            size: self.size,
            modified: self.modified,
            created: self.created,
            extension: self.extension.deep_view(),
        }
    }
}

impl DeepView for FileMeta {
    type V = FileMetaView;

    open spec fn deep_view(&self) -> FileMetaView {
        self@
    }
}

impl Clone for FileMeta {
    fn clone(&self) -> (copy: Self)
        ensures
            copy == *self,
    {
        let extension = match &self.extension {
            Some(e) => Some(e.clone()),
            None => None,
        };
        FileMeta {
            path: self.path.clone(),
            size: self.size,
            modified: self.modified,
            created: self.created,
            extension,
        }
    }
}

/// The record that stands in for bytes that do not decode: an empty path,
/// size zero, no times and no extension.
pub open spec fn zero_record() -> FileMetaView {
    FileMetaView {
        path: Seq::empty(),
        size: 0,
        modified: None,
        created: None,
        extension: None,
    }
}

/// The extension of the last component of a path.
pub open spec fn path_extension(path: Seq<char>) -> Option<Seq<char>> {
    match file_name_of(path) {
        Some(name) => extension_of(name),
        None => None,
    }
}

/// The extension of the last component of a path.
pub fn extension_of_path(path: &str) -> (ext: Option<String>)
    ensures
        ext.deep_view() == path_extension(path@),
{
    match file_name(path) {
        Some(name) => extension(name.as_str()),
        None => None,
    }
}

impl FileMeta {
    /// The record of the file at `path` with the size and times that a stat
    /// of it gave. The extension is read off the path.
    pub fn from_stat(path: &str, size: u64, modified: Option<u64>, created: Option<u64>) -> (meta:
        Self)
        ensures
            meta@ == (FileMetaView {
                path: path@,
                size,
                modified,
                created,
                extension: path_extension(path@),
            }),
    {
        FileMeta {
            path: FileCachePath::new(path),
            size,
            modified,
            created,
            extension: extension_of_path(path),
        }
    }

    /// The zero-valued record.
    pub fn zero() -> (meta: Self)
        ensures
            meta@ == zero_record(),
    {
        let meta = FileMeta {
            path: FileCachePath(String::new()),
            size: 0,
            modified: None,
            created: None,
            extension: None,
        };
        assert(meta@.path =~= Seq::<char>::empty());
        meta
    }

    /// Whether two records hold the same values in every field.
    pub fn same_as(&self, other: &FileMeta) -> (same: bool)
        ensures
            same == (self@ == other@),
    {
        let same_extension = match (&self.extension, &other.extension) {
            (Some(a), Some(b)) => *a == *b,
            (None, None) => true,
            _ => false,
        };
        self.path.0 == other.path.0 && self.size == other.size && self.modified == other.modified
            && self.created == other.created && same_extension
    }

    /// The key under which the record is stored: its path.
    pub fn key_str(&self) -> (key: String)
        ensures
            key@ == self@.path,
    {
        self.path.0.clone()
    }
}

/// Why an encoding failed, as the encoder reports it.
#[verifier::external_type_specification]
#[verifier::external_body]
pub struct ExEncodeError(bincode::error::EncodeError);

/// Why bytes did not decode, as the decoder reports it.
#[verifier::external_type_specification]
#[verifier::external_body]
pub struct ExDecodeError(bincode::error::DecodeError);

/// The bytes that the encoder writes for a record.
pub uninterp spec fn record_encoding(record: FileMetaView) -> Seq<u8>;

/// The record that the decoder reads from the front of `bytes`, if it reads
/// one.
pub uninterp spec fn record_decoding(bytes: Seq<u8>) -> Option<FileMetaView>;

/// `bincode::encode_to_vec` in the standard configuration, on the fields of
/// a record in their order. Trusted: it succeeds, since the encoders of
/// strings, integers and options fail only where the writer does and
/// writing to a vector does not; what it wrote is `record_encoding` of the
/// record; and that has the frame of a record, since the encoder writes each
/// text as its length and then as many bytes, each number whole, and each
/// field that may be absent after its mark.
#[verifier::external_body]
fn encode_record(meta: &FileMeta) -> (encoded: Result<Vec<u8>, bincode::error::EncodeError>)
    ensures
        encoded is Ok,
        encoded matches Ok(bytes) ==> bytes@ == record_encoding(meta@),
        encoded matches Ok(bytes) ==> record_frame(bytes@),
{
    let fields = (&meta.path.0, meta.size, meta.modified, meta.created, &meta.extension);
    bincode::encode_to_vec(fields, bincode::config::standard())
}

/// `bincode::decode_from_slice` in the standard configuration, reading the
/// fields of a record in their order, on bytes that have the frame of a
/// record. Trusted: on such bytes it returns, since the decoder reserves
/// room for a text by the length written before it, and the frame holds
/// each length to the bytes that follow it; it succeeds exactly when
/// `record_decoding` names a record, which is then the one returned; and
/// bytes that are the encoding of a record decode to that record.
#[verifier::external_body]
fn decode_record(bytes: &[u8]) -> (decoded: Result<FileMeta, bincode::error::DecodeError>)
    requires
        record_frame(bytes@),
    ensures
        decoded is Ok <==> record_decoding(bytes@) is Some,
        decoded matches Ok(meta) ==> record_decoding(bytes@) == Some(meta@),
        forall|record: FileMetaView| #[trigger]
            record_encoding(record) == bytes@ ==> (decoded is Ok && (decoded->Ok_0)@ == record),
{
    let decoded: Result<((String, u64, Option<u64>, Option<u64>, Option<String>), usize), _> =
        bincode::decode_from_slice(bytes, bincode::config::standard());
    match decoded {
        Ok(((path, size, modified, created, extension), _)) => Ok(
            FileMeta { path: FileCachePath(path), size, modified, created, extension },
        ),
        Err(e) => Err(e),
    }
}

/// The bytes stored for a record, given what the encoder returned: its
/// output, or no bytes at all when it failed.
pub fn encoded_or_empty(encoded: Result<Vec<u8>, bincode::error::EncodeError>) -> (bytes: Vec<u8>)
    ensures
        bytes@ == match encoded {
            Ok(b) => b@,
            Err(_) => Seq::<u8>::empty(),
        },
{
    match encoded {
        Ok(bytes) => bytes,
        Err(_) => Vec::new(),
    }
}

/// The record read from storage, given what the decoder returned: its
/// record, or the zero-valued record when the bytes did not decode.
pub fn decoded_or_zero(decoded: Result<FileMeta, bincode::error::DecodeError>) -> (meta: FileMeta)
    ensures
        meta@ == match decoded {
            Ok(m) => m@,
            Err(_) => zero_record(),
        },
{
    match decoded {
        Ok(meta) => meta,
        Err(_) => FileMeta::zero(),
    }
}

/// What is read back from stored bytes: the record they decode to, or the
/// zero-valued record where they have not the frame of a record or do not
/// decode.
pub open spec fn stored_record(bytes: Seq<u8>) -> FileMetaView {
    if record_frame(bytes) {
        match record_decoding(bytes) {
            Some(record) => record,
            None => zero_record(),
        }
    } else {
        zero_record()
    }
}

impl FileMeta {
    /// The bytes stored for the record: its encoding, which has the frame
    /// of a record.
    pub fn serialize(&self) -> (bytes: Vec<u8>)
        ensures
            bytes@ == record_encoding(self@),
            record_frame(bytes@),
    {
        encoded_or_empty(encode_record(self))
    }

    /// The record held by stored bytes. Bytes that have not the frame of a
    /// record, and bytes that do not decode, give the zero-valued record; the
    /// bytes that `serialize` gives for a record give that record back.
    pub fn deserialize(bytes: &[u8]) -> (meta: Self)
        ensures
            meta@ == stored_record(bytes@),
            forall|record: FileMetaView| #[trigger]
                record_encoding(record) == bytes@ && record_frame(bytes@) ==> meta@ == record,
    {
        if has_record_frame(bytes) {
            decoded_or_zero(decode_record(bytes))
        } else {
            FileMeta::zero()
        }
    }

    /// A record serialized and read back: the record itself, in every field.
    pub fn round_trip(&self) -> (back: Self)
        ensures
            back@ == self@,
    {
        let bytes = self.serialize();
        FileMeta::deserialize(bytes.as_slice())
    }

}

} // verus!
