//! Errors of the blob codec.

use vstd::prelude::*;

verus! {

/// Why a blob or a value could not be decoded.
#[derive(Debug)]
pub enum BlobError {
    /// The buffer ends before the data does.
    BufferTooShort { need: usize, have: usize },
    /// The blob does not start with the magic bytes.
    InvalidMagic,
    /// The format version is not one that this library reads.
    UnsupportedVersion(u16),
    /// No value type has this tag.
    UnknownValueType(u8),
    /// A key or a string value is not UTF-8.
    InvalidUtf8,
    /// The stored content hash is not the hash of the content.
    HashMismatch { expected: String, actual: String },
    /// No field has this key hash and name.
    FieldNotFound(u64),
}

/// A [`BlobError`] as a mathematical value.
pub enum BlobFault {
    BufferTooShort { need: nat, have: nat },
    InvalidMagic,
    UnsupportedVersion(nat),
    UnknownValueType(u8),
    InvalidUtf8,
    HashMismatch { expected: Seq<char>, actual: Seq<char> },
    FieldNotFound(nat),
}

impl View for BlobError {
    type V = BlobFault;

    open spec fn view(&self) -> BlobFault {
        match *self {
            BlobError::BufferTooShort { need, have } => BlobFault::BufferTooShort {
                need: need as nat,
                have: have as nat,
            },
            BlobError::InvalidMagic => BlobFault::InvalidMagic,
            BlobError::UnsupportedVersion(v) => BlobFault::UnsupportedVersion(v as nat),
            BlobError::UnknownValueType(t) => BlobFault::UnknownValueType(t),
            BlobError::InvalidUtf8 => BlobFault::InvalidUtf8,
            BlobError::HashMismatch { expected, actual } => BlobFault::HashMismatch {
                expected: expected@,
                actual: actual@,
            },
            BlobError::FieldNotFound(h) => BlobFault::FieldNotFound(h as nat),
        }
    }
}

} // verus!
