//! Sorted string tables: immutable files of documents sorted by key.

pub mod bloom;
pub mod error;
pub mod format;
pub mod keys;
pub mod laws;
pub mod reader;
pub mod table_laws;
pub mod writer;
