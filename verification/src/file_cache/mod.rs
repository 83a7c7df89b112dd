//! The file cache: metadata records, the path tree that holds them, and the
//! batches written to the durable table.

pub mod cache;
pub mod db;
pub mod diff;
pub mod entry;
pub mod frame;
pub mod laws;
pub mod meta;
pub mod mirror;
pub mod scan;
pub mod tree;

pub use cache::FileCache;
pub use entry::CacheError;
pub use entry::Entry;
pub use entry::EntryKind;
pub use meta::FileCachePath;
pub use meta::FileMeta;
