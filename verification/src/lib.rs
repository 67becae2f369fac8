//! An embedded log-structured key-value storage core: a height-balanced
//! in-memory index, a write-ahead log, immutable sorted segments with a sparse
//! index, a segment catalog, a merging compactor and the engine that ties
//! them together.
pub mod key;
pub mod entry;
pub mod tree;
pub mod codec;
pub mod error;
pub mod wal;
pub mod index;
pub mod ss_table;
pub mod catalog;
pub mod manifest;
pub mod compactor;
pub mod engine;
pub mod laws;
