//! A persistent key-value store: a log-structured storage engine with a
//! write-ahead log, and a value codec that compresses with Snappy and falls
//! back to raw bytes whenever compression or decompression fails.

pub mod codec;
pub mod engine;
pub mod wal;
pub mod store;
pub mod segment;
