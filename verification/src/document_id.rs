//! Document identities.

use crate::clock::draw;
use crate::text::hex_chars;
use vstd::prelude::*;
use vstd::string::StringExecFns;

verus! {

/// Stable document identity: a UUIDv7 wrapped in a newtype for type safety.
///
/// UUIDv7 is timestamp-prefixed and lexicographically sortable, so documents
/// sort by creation time. Both client and server can generate these independently.
#[derive(Clone, Copy, PartialEq, Eq, PartialOrd, Ord, Hash, Debug)]
pub struct DocumentId(pub [u8; 16]);

impl View for DocumentId {
    type V = Seq<u8>;

    open spec fn view(&self) -> Seq<u8> {
        self.0@
    }
}

/// The version and variant bits of a version 7 UUID.
pub open spec fn is_uuid_v7(id: Seq<u8>) -> bool {
    &&& id.len() == 16
    &&& id[6] / 16 == 7
    &&& id[8] / 64 == 2
}

/// Sixteen times the same byte.
pub open spec fn filled_id(b: u8) -> Seq<u8> {
    Seq::new(16, |i: int| b)
}

/// Calls `uuid::Uuid::now_v7` and `uuid::Uuid::into_bytes`: a fresh identifier made
/// of the current time, a counter and random bits. Claimed of every outcome: the
/// version nibble is 7 and the variant bits are `10`. Which identifier comes out,
/// and that two calls differ, is left unsaid: it rests on the clock and on chance.
#[verifier::external_body]
fn uuid_now_v7() -> (bytes: [u8; 16])
    ensures
        is_uuid_v7(bytes@),
{
    uuid::Uuid::now_v7().into_bytes()
}

/// Whether an identifier is one that the generator gave.
pub closed spec fn is_generated(id: Seq<u8>) -> bool {
    exists|bytes: [u8; 16]| #[trigger] call_ensures(uuid_now_v7, (), bytes) && bytes@ == id
}

/// The text of an identifier: five groups of hexadecimal digits, of 8, 4, 4, 4 and 12
/// digits, with hyphens between them.
pub open spec fn hyphenated(id: Seq<u8>) -> Seq<char> {
    hex_chars(id.subrange(0, 4)).push('-') + hex_chars(id.subrange(4, 6)).push('-') + hex_chars(
        id.subrange(6, 8),
    ).push('-') + hex_chars(id.subrange(8, 10)).push('-') + hex_chars(id.subrange(10, 16))
}

/// Calls `uuid::Uuid::from_bytes` and formats the result with its `Display`: the hyphenated
/// form, in lower-case hexadecimal digits.
#[verifier::external_body]
fn uuid_text(bytes: [u8; 16]) -> (text: String)
    ensures
        text@ == hyphenated(bytes@),
{
    uuid::Uuid::from_bytes(bytes).to_string()
}

impl DocumentId {
    /// Generate a new UUIDv7-based document ID (timestamp + random).
    pub fn new() -> (id: Self)
        ensures
            is_generated(id@),
            is_uuid_v7(id@),
    {
        DocumentId(draw(uuid_now_v7))
    }

    /// Create from raw bytes.
    pub fn from_bytes(bytes: [u8; 16]) -> (id: Self)
        ensures
            id@ == bytes@,
    {
        DocumentId(bytes)
    }

    /// Access the raw bytes.
    pub fn as_bytes(&self) -> (bytes: &[u8; 16])
        ensures
            bytes@ == self@,
    {
        &self.0
    }

    /// Maximum possible ID (all 0xFF bytes). Used as snapshot version meaning "latest".
    pub fn max() -> (id: Self)
        ensures
            id@ == filled_id(0xFF),
    {
        let id = DocumentId([0xFF; 16]);
        assert(id@ =~= filled_id(0xFF));
        id
    }

    /// A nil (all-zeros) ID, used as a sentinel for unset `_version`.
    pub fn nil() -> (id: Self)
        ensures
            id@ == filled_id(0),
    {
        let id = DocumentId([0; 16]);
        assert(id@ =~= filled_id(0));
        id
    }

    /// Check if this is the nil ID.
    pub fn is_nil(&self) -> (r: bool)
        ensures
            r == (self@ == filled_id(0)),
    {
        let zeros: [u8; 16] = [0; 16];
        assert(zeros@ =~= filled_id(0));
        crate::bytes::bytes_eq(&self.0, &zeros)
    }

    /// The hyphenated text of this ID.
    pub fn to_text(&self) -> (text: String)
        ensures
            text@ == hyphenated(self@),
    {
        uuid_text(self.0)
    }

    /// The text of this ID for diagnostics.
    pub fn to_debug_text(&self) -> (text: String)
        ensures
            text@ == "DocId("@ + hyphenated(self@) + ")"@,
    {
        "DocId(".to_owned().concat(self.to_text().as_str()).concat(")")
    }
}

impl Default for DocumentId {
    fn default() -> (id: Self)
        ensures
            is_generated(id@),
            is_uuid_v7(id@),
    {
        Self::new()
    }
}

} // verus!
