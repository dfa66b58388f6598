//! A log-structured merge-tree storage engine, proved against its contracts.
//!
//! The crate holds the engine's logic: the in-memory write buffer, the on-disk
//! sorted-run format, the merge that reads and compaction share, the write-ahead
//! log records, the manifest, the per-run filters, the block cache, and the state
//! that ties them together. It performs no I/O. Bytes that live in files are handed
//! in by the caller, either as plain values or through a read function, and bytes
//! that have to be written are handed out.
pub mod error;
pub mod keys;
pub mod record;
pub mod model;
pub mod codec;
pub mod block;
pub mod checksum;
pub mod index;
pub mod sstable;
pub mod layout;
pub mod writer;
pub mod cursor;
pub mod merge;
pub mod memtable;
pub mod durability;
pub mod text;
pub mod manifest;
pub mod cache;
pub mod sidecar;
pub mod bloom;
pub mod batch;
pub mod config;
pub mod scan;
pub mod range;
pub mod db;
pub mod flush;
pub mod compact;
pub mod recovery;
pub mod compactor;
pub mod laws;
pub mod history;
pub mod promises;
pub mod meaning;
pub mod formats;
pub mod effects;
