//! Errors of sorted tables.

use crate::error::{BlobError, BlobFault};
use vstd::prelude::*;

verus! {

/// Why a table could not be written or read.
#[derive(Debug)]
pub enum SSTableError {
    /// The file does not hold what its layout promises.
    Corrupted(String),
    /// The file does not end with the magic bytes of a table.
    InvalidMagic,
    /// The format version is not one that this library reads.
    UnsupportedVersion(u16),
    /// A block's checksum is not that of its content.
    CrcMismatch { offset: u64 },
    /// There is nothing to write.
    Empty,
    /// A block is too large to be stored.
    TooLarge,
    /// A document in a block could not be decoded.
    Blob(BlobError),
}

/// An [`SSTableError`] as a mathematical value.
pub enum TableFault {
    Corrupted(Seq<char>),
    InvalidMagic,
    UnsupportedVersion(nat),
    CrcMismatch { offset: nat },
    Empty,
    TooLarge,
    Blob(BlobFault),
}

impl View for SSTableError {
    type V = TableFault;

    open spec fn view(&self) -> TableFault {
        match *self {
            SSTableError::Corrupted(text) => TableFault::Corrupted(text@),
            SSTableError::InvalidMagic => TableFault::InvalidMagic,
            SSTableError::UnsupportedVersion(v) => TableFault::UnsupportedVersion(v as nat),
            SSTableError::CrcMismatch { offset } => TableFault::CrcMismatch {
                offset: offset as nat,
            },
            SSTableError::Empty => TableFault::Empty,
            SSTableError::TooLarge => TableFault::TooLarge,
            SSTableError::Blob(e) => TableFault::Blob(e@),
        }
    }
}

} // verus!
