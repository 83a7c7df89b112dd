//! Mirror of a watched directory tree: a path-tree cache of file metadata,
//! the batches that keep a durable table in step with it, and the pairing of
//! delete/create notifications into moves.

pub mod args;
pub mod file_cache;
pub mod ignore_config;
pub mod move_heuristics;
pub mod paths;
pub mod platform;
pub mod watcher;
pub mod windows_registry;
