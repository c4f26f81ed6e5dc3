//! A log-structured merge key-value storage engine.
pub mod order;
pub mod entries;
pub mod memtable;
pub mod codec;
pub mod segment;
pub mod compaction;
pub mod wal;
pub mod store;
pub mod protocol;
pub mod config;
