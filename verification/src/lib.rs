//! IngoDB: a document store on a log-structured merge tree.

pub mod blob_laws;
pub mod bytes;
pub mod clock;
pub mod compaction;
pub mod compression;
pub mod document_id;
pub mod error;
pub mod fields;
pub mod hashing;
pub mod iblob;
pub mod index_laws;
pub mod memtable;
pub mod natural;
pub mod query;
pub mod query_laws;
pub mod rebuild;
pub mod secondary;
pub mod secondary_laws;
pub mod sort;
pub mod sstable;
pub mod stats;
pub mod text;
pub mod validity_laws;
pub mod value;
pub mod value_laws;
pub mod wal;
