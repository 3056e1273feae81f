//! Documents and their binary form.

use crate::bytes::{be, bytes_eq, clamped, from_le, get_le, le, put_le, put_slice};
use crate::document_id::{filled_id, is_generated, is_uuid_v7, DocumentId};
use crate::error::{BlobError, BlobFault};
use crate::fields::{
    collected, lookup, names_sorted, pair_views, projected, texts, FieldName, Fields,
};
use crate::hashing::{blake3_digest, blake3_hash, ContentHash};
use crate::sort::{positions, ranks, sort_order, stable_order};
use crate::text::{hex, hex_chars, same_text, string_from_utf8};
use crate::value::{
    encodable, encoding, encoding_of_fields, get_id, get_text, holds_at,
    lemma_fields_prefix, lemma_holds_at_parts, lemma_holds_at_prefix, lemma_le_at, lemma_sized_at,
    lemma_text_at, lemma_value_at, parse_text, parse_value, put_text, sized, Datum, Value,
};
use vstd::prelude::*;
use vstd::utf8::{decode_utf8, encode_utf8, valid_utf8};

verus! {

/// Magic bytes identifying an I-Blob on disk: "INGO"
pub const MAGIC: [u8; 4] = [0x49, 0x4E, 0x47, 0x4F];

/// Current format version
pub const FORMAT_VERSION: u16 = 2;

/// Size of an index entry: key_hash(8) + offset(4) + length(4)
pub const INDEX_ENTRY_SIZE: usize = 16;

/// Size of the header: magic(4) + format_version(2) + document_id(16) + doc_version(16)
/// + flags(1) + content_hash(32) + index_count(4)
pub const HEADER_SIZE: usize = 75;

/// Flag bit 0: tombstone
pub const FLAG_DELETED: u8 = 0x01;

/// Flag bit 1: partial view of a document
pub const FLAG_PROJECTION: u8 = 0x02;

/// What a document holds.
#[verifier::ext_equal]
pub struct Doc {
    pub id: Seq<u8>,
    pub version: Seq<u8>,
    pub flags: u8,
    pub fields: Seq<(Seq<char>, Datum)>,
}

/// Whether the identifiers have sixteen bytes and the names rise strictly.
pub open spec fn valid_doc(d: Doc) -> bool {
    &&& d.id.len() == 16
    &&& d.version.len() == 16
    &&& names_sorted(d.fields)
}

/// What the content hash covers: `_id`, `_version`, flags and fields.
pub open spec fn hashable(d: Doc) -> Seq<u8> {
    d.id + d.version + seq![d.flags] + encoding_of_fields(d.fields)
}

/// The content hash of a document.
pub open spec fn content_hash(d: Doc) -> Seq<u8> {
    blake3_digest(hashable(d))@
}

/// The hash by which the index finds a field: the first 8 bytes of the digest of its name.
pub open spec fn name_hash(name: Seq<char>) -> nat {
    from_le(blake3_digest(encode_utf8(name))@.subrange(0, 8))
}

/// A field in the payload: its name, then its value.
pub open spec fn record(field: (Seq<char>, Datum)) -> Seq<u8> {
    sized(encode_utf8(field.0)) + encoding(field.1)
}

/// The index entry of a field: the hash of its name, where its record lies in the
/// payload, and how long the record is.
pub open spec fn index_entry(fields: Seq<(Seq<char>, Datum)>, i: int) -> Seq<u8> {
    le(name_hash(fields[i].0), 8) + le(encoding_of_fields(fields.take(i)).len(), 4) + le(
        record(fields[i]).len(),
        4,
    )
}

/// The index entries of the fields at the given positions, one after another.
pub open spec fn index_entries(fields: Seq<(Seq<char>, Datum)>, order: Seq<int>) -> Seq<u8>
    decreases order.len(),
{
    if order.len() == 0 {
        seq![]
    } else {
        index_entries(fields, order.drop_last()) + index_entry(fields, order.last())
    }
}

/// The ranks of the name hashes.
pub open spec fn name_ranks(fields: Seq<(Seq<char>, Datum)>) -> Seq<Seq<u8>> {
    Seq::new(fields.len(), |i: int| be(name_hash(fields[i].0), 8))
}

/// The index: one entry for each field, sorted by name hash.
pub open spec fn index_of(fields: Seq<(Seq<char>, Datum)>) -> Seq<u8> {
    index_entries(fields, stable_order(name_ranks(fields)))
}

/// What comes before the index.
pub open spec fn header(d: Doc) -> Seq<u8> {
    MAGIC@ + le(FORMAT_VERSION as nat, 2) + d.id + d.version + seq![d.flags] + content_hash(d)
        + le(d.fields.len(), 4)
}

/// The binary form of a document.
pub open spec fn blob_bytes(d: Doc) -> Seq<u8> {
    header(d) + index_of(d.fields) + encoding_of_fields(d.fields)
}

/// The number of index entries that the header gives.
pub open spec fn stored_count(buf: Seq<u8>) -> nat {
    from_le(buf.subrange(71, 75))
}

/// Where index entry `i` lies.
pub open spec fn entry_base(i: int) -> int {
    HEADER_SIZE + i * INDEX_ENTRY_SIZE
}

/// The name hash in index entry `i`.
pub open spec fn stored_hash_at(buf: Seq<u8>, i: int) -> nat {
    from_le(buf.subrange(entry_base(i), entry_base(i) + 8))
}

/// The payload offset in index entry `i`.
pub open spec fn stored_offset_at(buf: Seq<u8>, i: int) -> nat {
    from_le(buf.subrange(entry_base(i) + 8, entry_base(i) + 12))
}

/// The record length in index entry `i`.
pub open spec fn stored_length_at(buf: Seq<u8>, i: int) -> nat {
    from_le(buf.subrange(entry_base(i) + 12, entry_base(i) + 16))
}

/// What decoding a field's record gives.
pub open spec fn parse_record(data: Seq<u8>) -> Result<(Seq<char>, Datum), BlobFault> {
    match parse_text(data, 0) {
        Err(e) => Err(e),
        Ok((name, n)) => match parse_value(data, 4 + n as int) {
            Err(e) => Err(e),
            Ok((value, _)) => Ok((name, value)),
        },
    }
}

/// What decoding the field of index entry `i` gives.
pub open spec fn parse_entry(buf: Seq<u8>, i: int) -> Result<(Seq<char>, Datum), BlobFault> {
    let payload = entry_base(stored_count(buf) as int);
    let start = payload + stored_offset_at(buf, i);
    let end = start + stored_length_at(buf, i);
    if end > buf.len() {
        Err(BlobFault::BufferTooShort { need: clamped(end), have: buf.len() })
    } else {
        parse_record(buf.subrange(start, end))
    }
}

/// What decoding the fields of the first `n` index entries gives.
pub open spec fn parse_entries(buf: Seq<u8>, n: nat) -> Result<
    Seq<(Seq<char>, Datum)>,
    BlobFault,
>
    decreases n,
{
    if n == 0 {
        Ok(seq![])
    } else {
        match parse_entries(buf, (n - 1) as nat) {
            Err(e) => Err(e),
            Ok(pairs) => match parse_entry(buf, n - 1) {
                Err(e) => Err(e),
                Ok(pair) => Ok(pairs.push(pair)),
            },
        }
    }
}

/// Whether the buffer is too short for a header or for the index that it announces.
pub open spec fn layout_fault(buf: Seq<u8>) -> Option<BlobFault> {
    if buf.len() < HEADER_SIZE {
        Some(BlobFault::BufferTooShort { need: HEADER_SIZE as nat, have: buf.len() })
    } else if entry_base(stored_count(buf) as int) > buf.len() {
        Some(
            BlobFault::BufferTooShort {
                need: clamped(entry_base(stored_count(buf) as int)),
                have: buf.len(),
            },
        )
    } else {
        None
    }
}

/// What decoding a document gives.
pub open spec fn parse_blob(buf: Seq<u8>) -> Result<Doc, BlobFault> {
    if buf.len() < HEADER_SIZE {
        Err(BlobFault::BufferTooShort { need: HEADER_SIZE as nat, have: buf.len() })
    } else if buf.subrange(0, 4) != MAGIC@ {
        Err(BlobFault::InvalidMagic)
    } else if from_le(buf.subrange(4, 6)) != FORMAT_VERSION {
        Err(BlobFault::UnsupportedVersion(from_le(buf.subrange(4, 6))))
    } else {
        match layout_fault(buf) {
            Some(e) => Err(e),
            None => match parse_entries(buf, stored_count(buf)) {
                Err(e) => Err(e),
                Ok(pairs) => {
                    let d = Doc {
                        id: buf.subrange(6, 22),
                        version: buf.subrange(22, 38),
                        flags: buf[38],
                        fields: collected(pairs),
                    };
                    let stored = buf.subrange(39, 71);
                    if content_hash(d) != stored {
                        Err(
                            BlobFault::HashMismatch {
                                expected: hex_chars(content_hash(d)),
                                actual: hex_chars(stored),
                            },
                        )
                    } else {
                        Ok(d)
                    }
                },
            },
        }
    }
}

/// The hash of a blob before it is computed: zeros.
pub open spec fn no_hash() -> Seq<u8> {
    Seq::new(32, |i: int| 0u8)
}

/// An IngoDB document: a collection of named fields with stable identity.
///
/// Binary layout:
/// ```text
/// [magic: 4B "INGO"]
/// [format_version: 2B LE]
/// [document_id: 16B UUIDv7]
/// [doc_version: 16B UUIDv7]
/// [flags: 1B]
/// [content_hash: 32B BLAKE3]
/// [index_count: 4B LE]
/// [index_entries: index_count * 16B]
///   each: [key_hash: 8B LE][offset: 4B LE][length: 4B LE]
/// [payload: variable]
///   names and encoded values concatenated in name order
/// ```
///
/// `_id` is the stable document identity (persists across updates).
/// `_version` is server-assigned at write time (advances on each update).
/// `flags` bitfield: bit 0 = deleted (tombstone), bit 1 = projection (partial view).
/// The content hash covers `_id` + `_version` + `flags` + fields for full integrity protection.
/// It is computed once at serialization time (`encode()`) or verified at deserialization
/// (`decode()`).
#[derive(Debug)]
pub struct IBlob {
    /// Stable document identity (UUIDv7)
    id: DocumentId,
    /// Server-assigned write-order version (UUIDv7). Nil until server stamps it.
    version: DocumentId,
    /// Bitfield: FLAG_DELETED (0x01) = tombstone, FLAG_PROJECTION (0x02) = partial view
    flags: u8,
    /// BLAKE3 hash covering id + version + flags + fields.
    /// Zero until computed by encode() or decode().
    hash: ContentHash,
    /// Fields sorted by name
    fields: Fields,
    /// Cached serialized form
    encoded: Option<Vec<u8>>,
    /// Number of times the hash was computed on this blob (for testing efficiency)
    hash_computations: u32,
}

impl View for IBlob {
    type V = Doc;

    closed spec fn view(&self) -> Doc {
        Doc { id: self.id@, version: self.version@, flags: self.flags, fields: self.fields@ }
    }
}

impl IBlob {
    /// The hash that this blob holds: zeros until it was computed.
    pub closed spec fn held_hash(&self) -> Seq<u8> {
        self.hash@
    }

    /// Whether this blob holds its serialized form.
    pub closed spec fn is_cached(&self) -> bool {
        self.encoded is Some
    }

    /// How often the hash was computed.
    pub closed spec fn computations(&self) -> u32 {
        self.hash_computations
    }

    /// Whether what was computed earlier is still what the document says.
    pub closed spec fn cache_valid(&self) -> bool {
        &&& self.hash@ == no_hash() || self.hash@ == content_hash(self@)
        &&& match self.encoded {
            Some(bytes) => bytes@ == blob_bytes(self@) && self.hash@ == content_hash(self@),
            None => true,
        }
    }

    #[verifier::type_invariant]
    pub open spec fn well_formed(self) -> bool {
        valid_doc(self@) && self.cache_valid()
    }

    /// Create with a caller-supplied `_id`. The `_version` is left nil.
    pub fn with_id(id: DocumentId, fields: Fields) -> (blob: Self)
        ensures
            blob@ == (Doc { id: id@, version: filled_id(0), flags: 0, fields: fields@ }),
            blob.held_hash() == no_hash(),
            !blob.is_cached(),
            blob.computations() == 0,
    {
        proof {
            use_type_invariant(&fields);
        }
        let hash: ContentHash = [0; 32];
        assert(hash@ =~= no_hash());
        IBlob {
            id,
            version: DocumentId::nil(),
            flags: 0,
            hash,
            fields,
            encoded: None,
            hash_computations: 0,
        }
    }

    /// Encode the hashable content: _id + _version + flags + fields.
    fn encode_hashable(&self) -> (buf: Vec<u8>)
        ensures
            buf@ == hashable(self@),
    {
        let mut buf: Vec<u8> = Vec::new();
        put_slice(&mut buf, self.id.as_bytes());
        put_slice(&mut buf, self.version.as_bytes());
        buf.push(self.flags);
        let ghost head = buf@;
        assert(head =~= self@.id + self@.version + seq![self@.flags]);
        let ghost fields = self@.fields;
        let n: usize = self.fields.len();
        let mut i: usize = 0;
        assert(fields.take(0) =~= seq![]);
        assert(buf@ =~= head + encoding_of_fields(fields.take(0)));
        while i < n
            invariant
                n == fields.len(),
                fields == self.fields@,
                i <= n,
                buf@ == head + encoding_of_fields(fields.take(i as int)),
            decreases n - i,
        {
            put_text(&mut buf, self.fields.name_at(i).as_str());
            self.fields.value_at(i).encode(&mut buf);
            proof {
                assert(fields.take(i + 1).drop_last() =~= fields.take(i as int));
                assert(buf@ =~= head + encoding_of_fields(fields.take(i + 1)));
            }
            i += 1;
        }
        assert(fields.take(n as int) =~= fields);
        buf
    }

    /// Compute the key hash used in the index (first 8 bytes of BLAKE3 of the key).
    fn key_hash(key: &str) -> (h: u64)
        ensures
            h == name_hash(key@),
    {
        let digest = blake3_hash(key.as_bytes());
        get_le(&digest, 0, 8)
    }

    /// Compute and store the BLAKE3 hash.
    fn compute_hash(&mut self)
        ensures
            final(self)@ == old(self)@,
            final(self).held_hash() == content_hash(old(self)@),
            final(self).is_cached() == old(self).is_cached(),
            final(self).computations() == old(self).computations().wrapping_add(1),
    {
        proof {
            use_type_invariant(&*self);
        }
        let digest = blake3_hash(self.encode_hashable().as_slice());
        self.hash_computations = self.hash_computations.wrapping_add(1);
        self.hash = digest;
    }
}

/// Index entry: maps a key hash to its location in the payload.
struct IndexEntry {
    /// Hash of the field key (first 8 bytes of BLAKE3)
    key_hash: u64,
    /// Byte offset into the payload section
    offset: u64,
    /// Length of the encoded field in bytes
    length: u64,
}

/// Whether an entry describes the field at position `i`.
spec fn describes(e: IndexEntry, fields: Seq<(Seq<char>, Datum)>, i: int) -> bool {
    &&& e.key_hash == name_hash(fields[i].0)
    &&& e.offset == encoding_of_fields(fields.take(i)).len()
    &&& e.length == record(fields[i]).len()
}

/// Appends the records of the fields to `payload`. Returns their index entries.
fn encode_payload(fields: &Fields, payload: &mut Vec<u8>) -> (entries: Vec<IndexEntry>)
    requires
        old(payload)@.len() == 0,
    ensures
        final(payload)@ == encoding_of_fields(fields@),
        entries@.len() == fields@.len(),
        forall|i: int| 0 <= i < entries@.len() ==> describes(#[trigger] entries@[i], fields@, i),
{
    let n: usize = fields.len();
    let mut entries: Vec<IndexEntry> = Vec::new();
    let mut i: usize = 0;
    assert(fields@.take(0) =~= seq![]);
    assert(payload@ =~= encoding_of_fields(fields@.take(0)));
    while i < n
        invariant
            n == fields@.len(),
            i <= n,
            payload@ == encoding_of_fields(fields@.take(i as int)),
            entries@.len() == i,
            forall|j: int|
                0 <= j < i ==> describes(#[trigger] entries@[j], fields@, j),
        decreases n - i,
    {
        let start: usize = payload.len();
        let ghost before = payload@;
        let name = fields.name_at(i).as_str();
        put_text(payload, name);
        fields.value_at(i).encode(payload);
        proof {
            assert(fields@.take(i + 1).drop_last() =~= fields@.take(i as int));
            assert(payload@ =~= before + record(fields@[i as int]));
            assert(payload@ =~= encoding_of_fields(fields@.take(i + 1)));
        }
        let length: usize = payload.len() - start;
        entries.push(
            IndexEntry {
                key_hash: IBlob::key_hash(name),
                offset: start as u64,
                length: length as u64,
            },
        );
        i += 1;
    }
    assert(fields@.take(n as int) =~= fields@);
    entries
}

/// Appends the index: the entries sorted by key hash.
fn put_index(buf: &mut Vec<u8>, entries: &Vec<IndexEntry>, fields: &Fields)
    requires
        entries@.len() == fields@.len(),
        forall|i: int| 0 <= i < entries@.len() ==> describes(#[trigger] entries@[i], fields@, i),
    ensures
        final(buf)@ == old(buf)@ + index_of(fields@),
{
    let n: usize = entries.len();
    let ghost head = buf@;
    let mut hashes: Vec<u64> = Vec::new();
    let mut i: usize = 0;
    while i < n
        invariant
            n == entries@.len(),
            n == fields@.len(),
            i <= n,
            forall|j: int| 0 <= j < n ==> describes(#[trigger] entries@[j], fields@, j),
            hashes@.len() == i,
            forall|j: int| 0 <= j < i ==> #[trigger] hashes@[j] == name_hash(fields@[j].0),
        decreases n - i,
    {
        hashes.push(entries[i].key_hash);
        i += 1;
    }
    // Sort index entries by key hash for binary search during reads
    let order = sort_order(&hashes);
    let ghost places = positions(order@);
    proof {
        assert(ranks(hashes@) =~= name_ranks(fields@));
        assert(places.take(0) =~= seq![]);
    }
    assert(buf@ =~= head + index_entries(fields@, places.take(0)));
    let mut k: usize = 0;
    while k < n
        invariant
            n == entries@.len(),
            n == fields@.len(),
            n == order@.len(),
            k <= n,
            places == positions(order@),
            forall|j: int| 0 <= j < n ==> 0 <= #[trigger] places[j] < n,
            forall|j: int| 0 <= j < n ==> describes(#[trigger] entries@[j], fields@, j),
            buf@ == head + index_entries(fields@, places.take(k as int)),
        decreases n - k,
    {
        assert(0 <= places[k as int] < n);
        let entry = &entries[order[k]];
        put_le(buf, entry.key_hash, 8);
        put_le(buf, entry.offset, 4);
        put_le(buf, entry.length, 4);
        proof {
            assert(places.take(k + 1).drop_last() =~= places.take(k as int));
            assert(describes(*entry, fields@, places[k as int]));
            assert(buf@ =~= head + (index_entries(fields@, places.take(k as int)) + index_entry(
                fields@,
                places[k as int],
            )));
            assert(buf@ =~= head + index_entries(fields@, places.take(k + 1)));
        }
        k += 1;
    }
    assert(places.take(n as int) =~= places);
}

/// What serializing makes of a blob: it is the same document, holds its hash and its
/// serialized form, and the hash was computed only where neither was there.
pub open spec fn serialized(before: IBlob, after: IBlob) -> bool {
    &&& after@ == before@
    &&& after.held_hash() == content_hash(before@)
    &&& after.is_cached()
    &&& after.computations() == (if !before.is_cached() && before.held_hash() == no_hash() {
        before.computations().wrapping_add(1)
    } else {
        before.computations()
    })
}

/// Whether each of some blobs was serialized.
pub open spec fn all_serialized(before: Seq<IBlob>, after: Seq<IBlob>) -> bool {
    &&& after.len() == before.len()
    &&& forall|i: int| 0 <= i < after.len() ==> serialized(before[i], #[trigger] after[i])
}

impl IBlob {
    /// Serialize this IBlob to its binary format.
    /// Computes the hash if not already computed.
    pub fn encode(&mut self) -> (bytes: Vec<u8>)
        ensures
            bytes@ == blob_bytes(old(self)@),
            serialized(*old(self), *final(self)),
    {
        proof {
            use_type_invariant(&*self);
        }
        if let Some(cached) = &self.encoded {
            return vstd::slice::slice_to_vec(cached.as_slice());
        }
        // Compute hash once before writing
        let zeros: ContentHash = [0; 32];
        assert(zeros@ =~= no_hash());
        if bytes_eq(&self.hash, &zeros) {
            self.compute_hash();
        }
        let ghost d = self@;
        let mut payload: Vec<u8> = Vec::new();
        let entries = encode_payload(&self.fields, &mut payload);

        // Header
        let mut buf: Vec<u8> = Vec::new();
        let magic: [u8; 4] = MAGIC;
        put_slice(&mut buf, &magic);
        put_le(&mut buf, FORMAT_VERSION as u64, 2);
        put_slice(&mut buf, self.id.as_bytes());
        put_slice(&mut buf, self.version.as_bytes());
        buf.push(self.flags);
        put_slice(&mut buf, &self.hash);
        put_le(&mut buf, self.fields.len() as u64, 4);
        assert(buf@ =~= header(d));

        put_index(&mut buf, &entries, &self.fields);
        put_slice(&mut buf, payload.as_slice());
        assert(buf@ == blob_bytes(d));

        self.encoded = Some(vstd::slice::slice_to_vec(buf.as_slice()));
        buf
    }
}

/// A size as an error reports it: the largest `usize` where it is larger still.
fn clamp_size(n: u64) -> (r: usize)
    ensures
        r == clamped(n as int),
{
    if n > usize::MAX as u64 {
        usize::MAX
    } else {
        n as usize
    }
}

/// Whether the header and the index that it announces lie within the buffer.
/// Returns the number of index entries.
fn check_layout(buf: &[u8]) -> (r: Result<usize, BlobError>)
    ensures
        match r {
            Ok(n) => layout_fault(buf@) is None && buf@.len() >= HEADER_SIZE && n == stored_count(
                buf@,
            ) && entry_base(n as int) <= buf@.len(),
            Err(e) => layout_fault(buf@) == Some(e@),
        },
{
    if buf.len() < HEADER_SIZE {
        return Err(BlobError::BufferTooShort { need: HEADER_SIZE, have: buf.len() });
    }
    proof {
        crate::bytes::lemma_pow256_values();
    }
    let count: u64 = get_le(buf, 71, 4);
    let index_end: u64 = 75 + count * 16;
    if index_end > buf.len() as u64 {
        return Err(BlobError::BufferTooShort { need: clamp_size(index_end), have: buf.len() });
    }
    Ok(count as usize)
}

/// Decodes the field of index entry `i`.
fn read_entry(buf: &[u8], count: usize, i: usize) -> (r: Result<(String, Value), BlobError>)
    requires
        count == stored_count(buf@),
        entry_base(count as int) <= buf@.len(),
        i < count,
    ensures
        match r {
            Ok(pair) => parse_entry(buf@, i as int) == Ok::<(Seq<char>, Datum), BlobFault>(
                (pair.0@, pair.1@),
            ),
            Err(e) => parse_entry(buf@, i as int) == Err::<(Seq<char>, Datum), BlobFault>(e@),
        },
{
    let total: usize = buf.len();
    proof {
        crate::bytes::lemma_pow256_values();
        crate::bytes::lemma_from_le_bound(buf@.subrange(71, 75));
    }
    let base: usize = 75 + i * 16;
    let offset: u64 = get_le(buf, base + 8, 4);
    let length: u64 = get_le(buf, base + 12, 4);
    let start: u64 = 75 + count as u64 * 16 + offset;
    let end: u64 = start + length;
    if end > total as u64 {
        return Err(BlobError::BufferTooShort { need: clamp_size(end), have: total });
    }
    let data = vstd::slice::slice_subrange(buf, start as usize, end as usize);
    match get_text(data, 0) {
        Err(e) => Err(e),
        Ok((name, n)) => match Value::decode(data, 4 + n) {
            Err(e) => Err(e),
            Ok((value, _)) => Ok((name, value)),
        },
    }
}

/// An error in an early entry is the error of the whole index.
proof fn lemma_entries_fault(buf: Seq<u8>, i: nat, n: nat, e: BlobFault)
    requires
        i <= n,
        parse_entries(buf, i) == Err::<Seq<(Seq<char>, Datum)>, BlobFault>(e),
    ensures
        parse_entries(buf, n) == Err::<Seq<(Seq<char>, Datum)>, BlobFault>(e),
    decreases n,
{
    if i < n {
        lemma_entries_fault(buf, i, (n - 1) as nat, e);
    }
}

/// Decodes the fields of all index entries.
fn read_entries(buf: &[u8], count: usize) -> (r: Result<Fields, BlobError>)
    requires
        count == stored_count(buf@),
        entry_base(count as int) <= buf@.len(),
    ensures
        match r {
            Ok(fields) => parse_entries(buf@, count as nat) matches Ok(pairs) && fields@
                == collected(pairs),
            Err(e) => parse_entries(buf@, count as nat) == Err::<
                Seq<(Seq<char>, Datum)>,
                BlobFault,
            >(e@),
        },
{
    let mut fields = Fields::new();
    let ghost mut pairs: Seq<(Seq<char>, Datum)> = seq![];
    let mut i: usize = 0;
    while i < count
        invariant
            count == stored_count(buf@),
            entry_base(count as int) <= buf@.len(),
            i <= count,
            parse_entries(buf@, i as nat) == Ok::<Seq<(Seq<char>, Datum)>, BlobFault>(pairs),
            fields@ == collected(pairs),
        decreases count - i,
    {
        match read_entry(buf, count, i) {
            Err(e) => {
                proof {
                    lemma_entries_fault(buf@, (i + 1) as nat, count as nat, e@);
                }
                return Err(e);
            },
            Ok((name, value)) => {
                let ghost pair = (name@, value@);
                fields.insert(name, value);
                proof {
                    assert(pairs.push(pair).drop_last() =~= pairs);
                    pairs = pairs.push(pair);
                }
            },
        }
        i += 1;
    }
    Ok(fields)
}

/// Reads the 32-byte hash at `pos`.
fn get_hash(buf: &[u8], pos: usize) -> (hash: ContentHash)
    requires
        pos + 32 <= buf@.len(),
    ensures
        hash@ == buf@.subrange(pos as int, pos + 32),
{
    let total: usize = buf.len();
    let mut hash: ContentHash = [0; 32];
    let mut i: usize = 0;
    while i < 32
        invariant
            total == buf@.len(),
            pos + 32 <= total,
            i <= 32,
            forall|j: int| 0 <= j < i ==> hash@[j] == buf@[pos + j],
        decreases 32 - i,
    {
        hash[i] = buf[pos + i];
        i += 1;
    }
    assert(hash@ =~= buf@.subrange(pos as int, pos + 32));
    hash
}

/// What [`IBlob::decode`] returns, as mathematical values.
pub open spec fn decoded_doc(r: Result<IBlob, BlobError>) -> Result<Doc, BlobFault> {
    match r {
        Ok(blob) => Ok(blob@),
        Err(e) => Err(e@),
    }
}

impl IBlob {
    /// Decode an IBlob from its binary format.
    /// Computes the hash to verify integrity.
    pub fn decode(buf: &[u8]) -> (r: Result<Self, BlobError>)
        ensures
            decoded_doc(r) == parse_blob(buf@),
            r matches Ok(blob) ==> blob.held_hash() == content_hash(blob@) && !blob.is_cached()
                && blob.computations() == 1,
    {
        if buf.len() < HEADER_SIZE {
            return Err(BlobError::BufferTooShort { need: HEADER_SIZE, have: buf.len() });
        }
        // Magic
        let magic: [u8; 4] = MAGIC;
        if !bytes_eq(vstd::slice::slice_subrange(buf, 0, 4), &magic) {
            return Err(BlobError::InvalidMagic);
        }
        // Format version
        proof {
            crate::bytes::lemma_pow256_values();
        }
        let version: u16 = get_le(buf, 4, 2) as u16;
        if version != FORMAT_VERSION {
            return Err(BlobError::UnsupportedVersion(version));
        }
        let count: usize = match check_layout(buf) {
            Ok(n) => n,
            Err(e) => {
                return Err(e);
            },
        };
        let fields = match read_entries(buf, count) {
            Ok(fields) => fields,
            Err(e) => {
                return Err(e);
            },
        };
        proof {
            use_type_invariant(&fields);
        }
        let stored_hash = get_hash(buf, 39);

        // Verify hash: compute once for integrity check
        let hash: ContentHash = [0; 32];
        assert(hash@ =~= no_hash());
        let mut blob = IBlob {
            id: get_id(buf, 6),
            version: get_id(buf, 22),
            flags: buf[38],
            hash,
            fields,
            encoded: None,
            hash_computations: 0,
        };
        blob.compute_hash();
        if !bytes_eq(&blob.hash, &stored_hash) {
            return Err(
                BlobError::HashMismatch { expected: hex(&blob.hash), actual: hex(&stored_hash) },
            );
        }
        Ok(blob)
    }
}

/// The number of bytes that an error asks for, or 0 where no `usize` holds it.
pub open spec fn checked_need(n: int) -> nat {
    if n > usize::MAX {
        0
    } else {
        n as nat
    }
}

/// Where binary search over the index entries from `lo` up to `hi` ends. In a sorted
/// index this is the first entry whose name hash is not below `target`.
pub open spec fn search_index(buf: Seq<u8>, target: nat, lo: int, hi: int) -> int
    decreases hi - lo,
{
    if lo < hi {
        let mid = lo + (hi - lo) / 2;
        if stored_hash_at(buf, mid) < target {
            search_index(buf, target, mid + 1, hi)
        } else {
            search_index(buf, target, lo, mid)
        }
    } else {
        lo
    }
}

/// The value in a record, if the record is that of `name`.
pub open spec fn value_in_record(data: Seq<u8>, name: Seq<char>) -> Result<
    Option<Datum>,
    BlobFault,
> {
    if data.len() < 4 {
        Err(BlobFault::BufferTooShort { need: 4, have: data.len() })
    } else {
        let name_end = 4 + from_le(data.subrange(0, 4)) as int;
        if name_end > data.len() {
            Err(BlobFault::BufferTooShort { need: checked_need(name_end), have: data.len() })
        } else if !valid_utf8(data.subrange(4, name_end)) {
            Err(BlobFault::InvalidUtf8)
        } else if decode_utf8(data.subrange(4, name_end)) != name {
            Ok(None)
        } else {
            match parse_value(data, name_end) {
                Err(e) => Err(e),
                Ok((value, _)) => Ok(Some(value)),
            }
        }
    }
}

/// The value in the record of index entry `i`, if the record is that of `name`.
pub open spec fn value_at_entry(buf: Seq<u8>, i: int, name: Seq<char>) -> Result<
    Option<Datum>,
    BlobFault,
> {
    let start = entry_base(stored_count(buf) as int) + stored_offset_at(buf, i);
    let end = start + stored_length_at(buf, i);
    if end > buf.len() {
        Err(BlobFault::BufferTooShort { need: checked_need(end), have: buf.len() })
    } else {
        value_in_record(buf.subrange(start, end), name)
    }
}

/// The value of `name` in the run of entries from `i` on that share the name hash `target`.
pub open spec fn scan_index(buf: Seq<u8>, target: nat, i: int, name: Seq<char>) -> Result<
    Datum,
    BlobFault,
>
    decreases stored_count(buf) - i,
{
    if i >= stored_count(buf) || stored_hash_at(buf, i) != target {
        Err(BlobFault::FieldNotFound(target))
    } else {
        match value_at_entry(buf, i, name) {
            Err(e) => Err(e),
            Ok(Some(value)) => Ok(value),
            Ok(None) => scan_index(buf, target, i + 1, name),
        }
    }
}

/// What reading one field of a serialized document gives.
pub open spec fn parse_field(buf: Seq<u8>, name: Seq<char>) -> Result<Datum, BlobFault> {
    match layout_fault(buf) {
        Some(e) => Err(e),
        None => {
            let target = name_hash(name);
            let first = search_index(buf, target, 0, stored_count(buf) as int);
            scan_index(buf, target, first, name)
        },
    }
}

/// Reads the name hash in index entry `i`.
fn hash_at(buf: &[u8], i: usize) -> (h: u64)
    requires
        0 <= i,
        entry_base(i as int) + 16 <= buf@.len(),
    ensures
        h == stored_hash_at(buf@, i as int),
{
    let total: usize = buf.len();
    get_le(buf, 75 + i * 16, 8)
}

/// Reads the value in the record of index entry `i`, if the record is that of `name`.
fn read_value_at(buf: &[u8], count: usize, i: usize, name: &str) -> (r: Result<
    Option<Value>,
    BlobError,
>)
    requires
        count == stored_count(buf@),
        entry_base(count as int) <= buf@.len(),
        i < count,
    ensures
        value_at_entry(buf@, i as int, name@) == (match r {
            Ok(Some(value)) => Ok::<Option<Datum>, BlobFault>(Some(value@)),
            Ok(None) => Ok::<Option<Datum>, BlobFault>(None),
            Err(e) => Err::<Option<Datum>, BlobFault>(e@),
        }),
{
    let total: usize = buf.len();
    proof {
        crate::bytes::lemma_pow256_values();
        crate::bytes::lemma_from_le_bound(buf@.subrange(71, 75));
    }
    let base: usize = 75 + i * 16;
    let offset: u64 = get_le(buf, base + 8, 4);
    let length: u64 = get_le(buf, base + 12, 4);
    let start: u64 = 75 + count as u64 * 16 + offset;
    let end: u64 = start + length;
    if end > total as u64 {
        let need: usize = if end > usize::MAX as u64 {
            0
        } else {
            end as usize
        };
        return Err(BlobError::BufferTooShort { need, have: total });
    }
    let data = vstd::slice::slice_subrange(buf, start as usize, end as usize);
    let size: usize = data.len();
    if size < 4 {
        return Err(BlobError::BufferTooShort { need: 4, have: size });
    }
    let name_end: u64 = 4 + get_le(data, 0, 4);
    if name_end > size as u64 {
        let need: usize = if name_end > usize::MAX as u64 {
            0
        } else {
            name_end as usize
        };
        return Err(BlobError::BufferTooShort { need, have: size });
    }
    // Check actual key
    let found = match string_from_utf8(crate::bytes::copy_range(data, 4, name_end as usize)) {
        Some(found) => found,
        None => {
            return Err(BlobError::InvalidUtf8);
        },
    };
    if !same_text(found.as_str(), name) {
        return Ok(None);
    }
    match Value::decode(data, name_end as usize) {
        Err(e) => Err(e),
        Ok((value, _)) => Ok(Some(value)),
    }
}

impl IBlob {
    /// Zero-copy field extraction: read a single field from a serialized blob
    /// without decoding the entire document.
    pub fn extract_field(buf: &[u8], field_name: &str) -> (r: Result<Value, BlobError>)
        ensures
            parse_field(buf@, field_name@) == (match r {
                Ok(value) => Ok::<Datum, BlobFault>(value@),
                Err(e) => Err::<Datum, BlobFault>(e@),
            }),
    {
        let count: usize = match check_layout(buf) {
            Ok(n) => n,
            Err(e) => {
                return Err(e);
            },
        };
        let target: u64 = Self::key_hash(field_name);

        // Binary search the index
        let mut lo: usize = 0;
        let mut hi: usize = count;
        while lo < hi
            invariant
                lo <= hi <= count,
                entry_base(count as int) <= buf@.len(),
                search_index(buf@, target as nat, lo as int, hi as int) == search_index(
                    buf@,
                    target as nat,
                    0,
                    count as int,
                ),
            decreases hi - lo,
        {
            let mid: usize = lo + (hi - lo) / 2;
            if hash_at(buf, mid) < target {
                lo = mid + 1;
            } else {
                hi = mid;
            }
        }

        // Check for match (may need to scan duplicates if the hashes collide)
        while lo < count && hash_at(buf, lo) == target
            invariant
                lo <= count,
                count == stored_count(buf@),
                entry_base(count as int) <= buf@.len(),
                layout_fault(buf@) is None,
                target == name_hash(field_name@),
                parse_field(buf@, field_name@) == scan_index(
                    buf@,
                    target as nat,
                    lo as int,
                    field_name@,
                ),
            decreases count - lo,
        {
            match read_value_at(buf, count, lo, field_name) {
                Err(e) => {
                    return Err(e);
                },
                Ok(Some(value)) => {
                    return Ok(value);
                },
                Ok(None) => {},
            }
            lo += 1;
        }
        Err(BlobError::FieldNotFound(target))
    }
}

/// Whether the lengths and offsets in the binary form fit the four bytes that it gives them.
pub open spec fn fits_blob(d: Doc) -> bool {
    &&& valid_doc(d)
    &&& encodable(Datum::Document(d.fields))
    &&& encoding_of_fields(d.fields).len() <= u32::MAX
}

proof fn lemma_index_entry_len(fields: Seq<(Seq<char>, Datum)>, i: int)
    ensures
        index_entry(fields, i).len() == 16,
{
    crate::bytes::lemma_le_len(name_hash(fields[i].0), 8);
    crate::bytes::lemma_le_len(encoding_of_fields(fields.take(i)).len(), 4);
    crate::bytes::lemma_le_len(record(fields[i]).len(), 4);
}

proof fn lemma_index_entries_len(fields: Seq<(Seq<char>, Datum)>, order: Seq<int>)
    ensures
        index_entries(fields, order).len() == 16 * order.len(),
    decreases order.len(),
{
    if order.len() > 0 {
        lemma_index_entries_len(fields, order.drop_last());
        lemma_index_entry_len(fields, order.last());
    }
}

/// Entry `k` of an index lies where its number says.
proof fn lemma_index_entry_at(
    fields: Seq<(Seq<char>, Datum)>,
    order: Seq<int>,
    k: int,
    buf: Seq<u8>,
    pos: int,
)
    requires
        0 <= k < order.len(),
        holds_at(buf, pos, index_entries(fields, order)),
    ensures
        holds_at(buf, pos + 16 * k, index_entry(fields, order[k])),
    decreases order.len(),
{
    let init = order.drop_last();
    lemma_index_entries_len(fields, init);
    lemma_holds_at_parts(buf, pos, index_entries(fields, init), index_entry(fields, order.last()));
    if k < init.len() {
        lemma_index_entry_at(fields, init, k, buf, pos);
    }
}

/// The record of field `i` lies in the payload behind those of the fields before it.
proof fn lemma_record_at(fields: Seq<(Seq<char>, Datum)>, i: int, buf: Seq<u8>, pos: int)
    requires
        0 <= i < fields.len(),
        holds_at(buf, pos, encoding_of_fields(fields)),
    ensures
        holds_at(buf, pos + encoding_of_fields(fields.take(i)).len(), record(fields[i])),
        encoding_of_fields(fields.take(i)).len() + record(fields[i]).len() <= encoding_of_fields(
            fields,
        ).len(),
{
    lemma_fields_prefix(fields, i + 1);
    let upto = fields.take(i + 1);
    assert(upto.drop_last() =~= fields.take(i));
    assert(encoding_of_fields(upto) =~= encoding_of_fields(fields.take(i)) + record(fields[i]));
    lemma_holds_at_prefix(buf, pos, encoding_of_fields(fields), encoding_of_fields(upto));
    lemma_holds_at_parts(buf, pos, encoding_of_fields(fields.take(i)), record(fields[i]));
}

/// A field's record decodes to the field.
proof fn lemma_parse_record(field: (Seq<char>, Datum))
    requires
        encode_utf8(field.0).len() <= u32::MAX,
        encodable(field.1),
    ensures
        parse_record(record(field)) == Ok::<(Seq<char>, Datum), BlobFault>(field),
{
    let data = record(field);
    let name = sized(encode_utf8(field.0));
    assert(data.subrange(0, data.len() as int) =~= data);
    lemma_holds_at_parts(data, 0, name, encoding(field.1));
    lemma_text_at(data, 0, field.0);
    lemma_value_at(field.1, data, name.len() as int);
}

/// What lies in the binary form of a document, and where.
proof fn lemma_blob_layout(d: Doc)
    requires
        fits_blob(d),
    ensures
        ({
            let buf = blob_bytes(d);
            let n = d.fields.len();
            &&& buf.len() == HEADER_SIZE + 16 * n + encoding_of_fields(d.fields).len()
            &&& buf.subrange(0, 4) == MAGIC@
            &&& from_le(buf.subrange(4, 6)) == FORMAT_VERSION
            &&& buf.subrange(6, 22) == d.id
            &&& buf.subrange(22, 38) == d.version
            &&& buf[38] == d.flags
            &&& buf.subrange(39, 71) == content_hash(d)
            &&& stored_count(buf) == n
            &&& holds_at(buf, 75, index_of(d.fields))
            &&& holds_at(buf, entry_base(n as int), encoding_of_fields(d.fields))
        }),
{
    let buf = blob_bytes(d);
    let n = d.fields.len();
    let magic = MAGIC;
    let ver = le(FORMAT_VERSION as nat, 2);
    let hash = content_hash(d);
    let count = le(n, 4);
    crate::bytes::lemma_pow256_values();
    crate::bytes::lemma_le_len(FORMAT_VERSION as nat, 2);
    crate::bytes::lemma_le_len(n, 4);
    crate::bytes::lemma_from_le_of_le(FORMAT_VERSION as nat, 2);
    crate::bytes::lemma_from_le_of_le(n, 4);
    crate::sort::lemma_stable_order(name_ranks(d.fields));
    lemma_index_entries_len(d.fields, stable_order(name_ranks(d.fields)));
    assert(magic@.len() == 4 && hash.len() == 32);
    assert(header(d).len() == 75);
    assert(buf.subrange(0, buf.len() as int) =~= buf);
    assert(buf =~= header(d) + (index_of(d.fields) + encoding_of_fields(d.fields)));
    lemma_holds_at_parts(buf, 0, header(d), index_of(d.fields) + encoding_of_fields(d.fields));
    lemma_holds_at_parts(buf, 75, index_of(d.fields), encoding_of_fields(d.fields));
    assert(buf.subrange(0, 4) =~= magic@);
    assert(buf.subrange(4, 6) =~= ver);
    assert(buf.subrange(6, 22) =~= d.id);
    assert(buf.subrange(22, 38) =~= d.version);
    assert(buf.subrange(39, 71) =~= hash);
    assert(buf.subrange(71, 75) =~= count);
}

/// An index entry reads back.
proof fn lemma_index_entry_reads(
    fields: Seq<(Seq<char>, Datum)>,
    i: int,
    buf: Seq<u8>,
    base: int,
)
    requires
        holds_at(buf, base, index_entry(fields, i)),
        encoding_of_fields(fields.take(i)).len() <= u32::MAX,
        record(fields[i]).len() <= u32::MAX,
    ensures
        from_le(buf.subrange(base, base + 8)) == name_hash(fields[i].0),
        from_le(buf.subrange(base + 8, base + 12)) == encoding_of_fields(fields.take(i)).len(),
        from_le(buf.subrange(base + 12, base + 16)) == record(fields[i]).len(),
{
    let h = name_hash(fields[i].0);
    let o = encoding_of_fields(fields.take(i)).len();
    let l = record(fields[i]).len();
    crate::bytes::lemma_pow256_values();
    crate::bytes::lemma_le_len(h, 8);
    crate::bytes::lemma_le_len(o, 4);
    crate::bytes::lemma_from_le_bound(blake3_digest(encode_utf8(fields[i].0))@.subrange(0, 8));
    lemma_holds_at_parts(buf, base, le(h, 8) + le(o, 4), le(l, 4));
    lemma_holds_at_parts(buf, base, le(h, 8), le(o, 4));
    lemma_le_at(buf, base, h, 8);
    lemma_le_at(buf, base + 8, o, 4);
    lemma_le_at(buf, base + 12, l, 4);
}

/// What index entry `k` of the binary form of a document says.
proof fn lemma_blob_entry(d: Doc, k: int)
    requires
        fits_blob(d),
        0 <= k < d.fields.len(),
    ensures
        ({
            let buf = blob_bytes(d);
            let i = stable_order(name_ranks(d.fields))[k];
            &&& 0 <= i < d.fields.len()
            &&& stored_hash_at(buf, k) == name_hash(d.fields[i].0)
            &&& stored_length_at(buf, k) == record(d.fields[i]).len()
            &&& stored_offset_at(buf, k) == encoding_of_fields(d.fields.take(i)).len()
            &&& holds_at(
                buf,
                entry_base(stored_count(buf) as int) + stored_offset_at(buf, k),
                record(d.fields[i]),
            )
        }),
{
    let buf = blob_bytes(d);
    let fields = d.fields;
    let order = stable_order(name_ranks(fields));
    crate::sort::lemma_stable_order(name_ranks(fields));
    assert(0 <= order[k] < fields.len());
    let i = order[k];
    assert(stored_count(buf) == fields.len() && holds_at(buf, 75, index_of(fields)) && holds_at(
        buf,
        entry_base(fields.len() as int),
        encoding_of_fields(fields),
    )) by {
        lemma_blob_layout(d);
    }
    lemma_index_entry_at(fields, order, k, buf, 75);
    lemma_record_at(fields, i, buf, entry_base(fields.len() as int));
    assert(75 + 16 * k == entry_base(k));
    lemma_index_entry_reads(fields, i, buf, entry_base(k));
}

proof fn lemma_blob_entries(d: Doc, n: nat)
    requires
        fits_blob(d),
        n <= d.fields.len(),
    ensures
        parse_entries(blob_bytes(d), n) == Ok::<Seq<(Seq<char>, Datum)>, BlobFault>(
            Seq::new(n, |k: int| d.fields[stable_order(name_ranks(d.fields))[k]]),
        ),
    decreases n,
{
    let buf = blob_bytes(d);
    let order = stable_order(name_ranks(d.fields));
    let pairs = Seq::new(n, |k: int| d.fields[order[k]]);
    if n == 0 {
        assert(pairs =~= seq![]);
    } else {
        let m = (n - 1) as nat;
        lemma_blob_entries(d, m);
        lemma_blob_entry(d, m as int);
        lemma_blob_layout(d);
        let field = d.fields[order[m as int]];
        lemma_parse_record(field);
        assert(pairs =~= Seq::new(m, |k: int| d.fields[order[k]]).push(field));
    }
}

/// Decoding gives back the document that was encoded.
pub proof fn law_decode_of_encode(d: Doc)
    requires
        fits_blob(d),
    ensures
        parse_blob(blob_bytes(d)) == Ok::<Doc, BlobFault>(d),
{
    let order = stable_order(name_ranks(d.fields));
    crate::sort::lemma_stable_order(name_ranks(d.fields));
    lemma_blob_layout(d);
    lemma_blob_entries(d, d.fields.len());
    assert forall|i: int, j: int| 0 <= i < j < order.len() implies #[trigger] order[i]
        != #[trigger] order[j] by {
        assert(crate::sort::comes_before(name_ranks(d.fields), order[i], order[j]));
        crate::bytes::lemma_lex_strict(
            name_ranks(d.fields)[order[i]],
            name_ranks(d.fields)[order[j]],
        );
    }
    crate::fields::lemma_collect_permuted(d.fields, order);
    assert(Seq::new(d.fields.len(), |k: int| d.fields[order[k]]) =~= Seq::new(
        order.len(),
        |k: int| d.fields[order[k]],
    ));
}

/// Whether the name hashes of the first `n` index entries do not fall.
spec fn index_sorted(buf: Seq<u8>, n: int) -> bool {
    forall|i: int, j: int|
        0 <= i <= j < n ==> #[trigger] stored_hash_at(buf, i) <= #[trigger] stored_hash_at(buf, j)
}

/// In a sorted index, binary search ends between the lower hashes and the others.
proof fn lemma_search_index(buf: Seq<u8>, target: nat, lo: int, hi: int, n: int)
    requires
        index_sorted(buf, n),
        0 <= lo <= hi <= n,
        forall|i: int| 0 <= i < lo ==> #[trigger] stored_hash_at(buf, i) < target,
        forall|i: int| hi <= i < n ==> #[trigger] stored_hash_at(buf, i) >= target,
    ensures
        ({
            let r = search_index(buf, target, lo, hi);
            &&& 0 <= r <= n
            &&& forall|i: int| 0 <= i < r ==> #[trigger] stored_hash_at(buf, i) < target
            &&& forall|i: int| r <= i < n ==> #[trigger] stored_hash_at(buf, i) >= target
        }),
    decreases hi - lo,
{
    if lo < hi {
        let mid = lo + (hi - lo) / 2;
        if stored_hash_at(buf, mid) < target {
            lemma_search_index(buf, target, mid + 1, hi, n);
        } else {
            lemma_search_index(buf, target, lo, mid, n);
        }
    }
}

proof fn lemma_blob_index_sorted(d: Doc)
    requires
        fits_blob(d),
    ensures
        index_sorted(blob_bytes(d), d.fields.len() as int),
{
    let buf = blob_bytes(d);
    let order = stable_order(name_ranks(d.fields));
    crate::sort::lemma_stable_order(name_ranks(d.fields));
    assert forall|i: int, j: int| 0 <= i <= j < d.fields.len() implies #[trigger] stored_hash_at(
        buf,
        i,
    ) <= #[trigger] stored_hash_at(buf, j) by {
        lemma_blob_entry(d, i);
        lemma_blob_entry(d, j);
        if i < j {
            let a = d.fields[order[i]].0;
            let b = d.fields[order[j]].0;
            assert(crate::sort::comes_before(name_ranks(d.fields), order[i], order[j]));
            crate::bytes::lemma_pow256_values();
            crate::bytes::lemma_from_le_bound(blake3_digest(encode_utf8(a))@.subrange(0, 8));
            crate::bytes::lemma_from_le_bound(blake3_digest(encode_utf8(b))@.subrange(0, 8));
            crate::bytes::lemma_be_order(name_hash(a), name_hash(b), 8);
        }
    }
}

/// What the record of a field gives for a name.
proof fn lemma_value_in_record(field: (Seq<char>, Datum), name: Seq<char>)
    requires
        encode_utf8(field.0).len() <= u32::MAX,
        encodable(field.1),
    ensures
        value_in_record(record(field), name) == Ok::<Option<Datum>, BlobFault>(
            if field.0 == name {
                Some(field.1)
            } else {
                None
            },
        ),
{
    let data = record(field);
    let text = encode_utf8(field.0);
    assert(data.subrange(0, data.len() as int) =~= data);
    lemma_holds_at_parts(data, 0, sized(text), encoding(field.1));
    lemma_sized_at(data, 0, text);
    lemma_value_at(field.1, data, sized(text).len() as int);
    vstd::utf8::encode_utf8_valid_utf8(field.0);
    vstd::utf8::encode_utf8_decode_utf8(field.0);
}

/// What an index entry of the binary form of a document gives for a name.
proof fn lemma_blob_value_at(d: Doc, k: int, name: Seq<char>)
    requires
        fits_blob(d),
        0 <= k < d.fields.len(),
    ensures
        ({
            let field = d.fields[stable_order(name_ranks(d.fields))[k]];
            value_at_entry(blob_bytes(d), k, name) == Ok::<Option<Datum>, BlobFault>(
                if field.0 == name {
                    Some(field.1)
                } else {
                    None
                },
            )
        }),
{
    let buf = blob_bytes(d);
    let field = d.fields[stable_order(name_ranks(d.fields))[k]];
    lemma_blob_entry(d, k);
    lemma_value_in_record(field, name);
}

proof fn lemma_blob_scan(d: Doc, name: Seq<char>, i: int)
    requires
        fits_blob(d),
        0 <= i <= d.fields.len(),
        i < d.fields.len() ==> stored_hash_at(blob_bytes(d), i) >= name_hash(name),
        forall|k: int|
            0 <= k < i ==> d.fields[#[trigger] stable_order(name_ranks(d.fields))[k]].0 != name,
    ensures
        scan_index(blob_bytes(d), name_hash(name), i, name) == (match lookup(d.fields, name) {
            Some(value) => Ok::<Datum, BlobFault>(value),
            None => Err::<Datum, BlobFault>(BlobFault::FieldNotFound(name_hash(name))),
        }),
    decreases d.fields.len() - i,
{
    let buf = blob_bytes(d);
    let order = stable_order(name_ranks(d.fields));
    let n = d.fields.len();
    crate::sort::lemma_stable_order(name_ranks(d.fields));
    lemma_blob_index_sorted(d);
    assert(stored_count(buf) == n) by {
        lemma_blob_layout(d);
    }
    if i >= n || stored_hash_at(buf, i) != name_hash(name) {
        if exists|m: int| 0 <= m < n && (#[trigger] d.fields[m]).0 == name {
            let m = choose|m: int| 0 <= m < n && (#[trigger] d.fields[m]).0 == name;
            assert(order.contains(m));
            let k = choose|k: int| 0 <= k < order.len() && order[k] == m;
            lemma_blob_entry(d, k);
            assert(stored_hash_at(buf, i) <= stored_hash_at(buf, k));
        }
    } else {
        lemma_blob_value_at(d, i, name);
        if d.fields[order[i]].0 == name {
            crate::fields::lemma_lookup_at(d.fields, order[i]);
        } else {
            if i + 1 < n {
                assert(stored_hash_at(buf, i) <= stored_hash_at(buf, i + 1));
            }
            lemma_blob_scan(d, name, i + 1);
        }
    }
}

/// Reading one field of an encoded document gives the value that the document has for it,
/// or says that there is no such field.
pub proof fn law_extract_of_encode(d: Doc, name: Seq<char>)
    requires
        fits_blob(d),
    ensures
        parse_field(blob_bytes(d), name) == (match lookup(d.fields, name) {
            Some(value) => Ok::<Datum, BlobFault>(value),
            None => Err::<Datum, BlobFault>(BlobFault::FieldNotFound(name_hash(name))),
        }),
{
    let buf = blob_bytes(d);
    let n = d.fields.len() as int;
    let order = stable_order(name_ranks(d.fields));
    crate::sort::lemma_stable_order(name_ranks(d.fields));
    assert(stored_count(buf) == n && layout_fault(buf) is None) by {
        lemma_blob_layout(d);
    }
    lemma_blob_index_sorted(d);
    lemma_search_index(buf, name_hash(name), 0, n, n);
    let first = search_index(buf, name_hash(name), 0, n);
    assert forall|k: int| 0 <= k < first implies d.fields[#[trigger] order[k]].0 != name by {
        lemma_blob_entry(d, k);
    }
    lemma_blob_scan(d, name, first);
}

/// The binary form of a document is a header of 75 bytes, an index with 16 bytes for each field,
/// and the fields. The header holds the magic number, the format version, the identity, the
/// version, the flags, the content hash and the number of fields.
pub proof fn law_binary_layout(d: Doc)
    requires
        fits_blob(d),
    ensures
        ({
            let buf = blob_bytes(d);
            let n = d.fields.len();
            &&& buf.len() == 75 + 16 * n + encoding_of_fields(d.fields).len()
            &&& buf.subrange(0, 4) == seq![0x49u8, 0x4E, 0x47, 0x4F]
            &&& from_le(buf.subrange(4, 6)) == 2
            &&& buf.subrange(6, 22) == d.id
            &&& buf.subrange(22, 38) == d.version
            &&& buf[38] == d.flags
            &&& buf.subrange(39, 71) == blake3_digest(
                d.id + d.version + seq![d.flags] + encoding_of_fields(d.fields),
            )@
            &&& from_le(buf.subrange(71, 75)) == n
            &&& buf.skip(75 + 16 * n as int) == encoding_of_fields(d.fields)
        }),
{
    lemma_blob_layout(d);
    let magic = MAGIC@;
    assert(magic =~= seq![0x49u8, 0x4E, 0x47, 0x4F]);
    let buf = blob_bytes(d);
    let at = 75 + 16 * d.fields.len() as int;
    assert(buf.skip(at) =~= buf.subrange(at, buf.len() as int));
}

/// Every index entry gives the hash of a field's name, and where its record lies and how long it
/// is. The entries come in the order of the hashes, and each field has one.
pub proof fn law_index_describes_fields(d: Doc) -> (order: Seq<int>)
    requires
        fits_blob(d),
    ensures
        order.len() == d.fields.len(),
        order.no_duplicates(),
        forall|k: int|
            0 <= k < order.len() ==> 0 <= #[trigger] order[k] < d.fields.len() && from_le(
                blob_bytes(d).subrange(75 + 16 * k, 83 + 16 * k),
            ) == name_hash(d.fields[order[k]].0) && from_le(
                blob_bytes(d).subrange(83 + 16 * k, 87 + 16 * k),
            ) == encoding_of_fields(d.fields.take(order[k])).len() && from_le(
                blob_bytes(d).subrange(87 + 16 * k, 91 + 16 * k),
            ) == record(d.fields[order[k]]).len(),
        forall|j: int, k: int|
            0 <= j < k < order.len() ==> name_hash(d.fields[#[trigger] order[j]].0) <= name_hash(
                d.fields[#[trigger] order[k]].0,
            ),
{
    let rs = name_ranks(d.fields);
    crate::sort::lemma_stable_order(rs);
    let stable = stable_order(rs);
    lemma_blob_index_sorted(d);
    assert forall|j: int, k: int| 0 <= j < k < stable.len() implies stable[j] != stable[k] by {
        assert(crate::sort::comes_before(rs, stable[j], stable[k]));
        crate::bytes::lemma_lex_strict(rs[stable[j]], rs[stable[k]]);
    }
    assert forall|k: int| 0 <= k < stable.len() implies 0 <= #[trigger] stable[k] < d.fields.len()
        && from_le(blob_bytes(d).subrange(75 + 16 * k, 83 + 16 * k)) == name_hash(
        d.fields[stable[k]].0,
    ) && from_le(blob_bytes(d).subrange(83 + 16 * k, 87 + 16 * k)) == encoding_of_fields(
        d.fields.take(stable[k]),
    ).len() && from_le(blob_bytes(d).subrange(87 + 16 * k, 91 + 16 * k)) == record(
        d.fields[stable[k]],
    ).len() by {
        lemma_blob_entry(d, k);
        assert(entry_base(k) == 75 + 16 * k);
    }
    assert forall|j: int, k: int| 0 <= j < k < stable.len() implies name_hash(
        d.fields[#[trigger] stable[j]].0,
    ) <= name_hash(d.fields[#[trigger] stable[k]].0) by {
        lemma_blob_entry(d, j);
        lemma_blob_entry(d, k);
        assert(stored_hash_at(blob_bytes(d), j) <= stored_hash_at(blob_bytes(d), k));
    }
    stable
}

proof fn lemma_entries_all_parse(buf: Seq<u8>, n: nat, i: int)
    requires
        parse_entries(buf, n) is Ok,
        0 <= i < n,
    ensures
        parse_entry(buf, i) is Ok,
    decreases n,
{
    if i < n - 1 {
        lemma_entries_all_parse(buf, (n - 1) as nat, i);
    }
}

/// No document decodes where the end of its binary form is cut off.
pub proof fn law_cut_off_blob(d: Doc, k: int)
    requires
        fits_blob(d),
        0 <= k < blob_bytes(d).len(),
    ensures
        parse_blob(blob_bytes(d).take(k)) is Err,
{
    let whole = blob_bytes(d);
    let buf = whole.take(k);
    let n = d.fields.len();
    lemma_blob_layout(d);
    if k >= 75 {
        assert(buf.subrange(71, 75) =~= whole.subrange(71, 75));
        assert(stored_count(buf) == n);
        if entry_base(n as int) <= k {
            assert(n > 0);
            let order = stable_order(name_ranks(d.fields));
            crate::sort::lemma_stable_order(name_ranks(d.fields));
            assert(order.contains(n - 1));
            let e = choose|e: int| 0 <= e < order.len() && order[e] == n - 1;
            lemma_blob_entry(d, e);
            let base = entry_base(e);
            assert(base + 16 <= entry_base(n as int));
            assert(buf.subrange(base + 8, base + 12) =~= whole.subrange(base + 8, base + 12));
            assert(buf.subrange(base + 12, base + 16) =~= whole.subrange(base + 12, base + 16));
            assert(d.fields.take(n - 1) =~= d.fields.drop_last());
            assert(encoding_of_fields(d.fields).len() == encoding_of_fields(
                d.fields.take(n - 1),
            ).len() + record(d.fields[n - 1]).len());
            assert(parse_entry(buf, e) is Err);
            if parse_entries(buf, n) is Ok {
                lemma_entries_all_parse(buf, n, e);
            }
        }
    }
}

/// What is wrong with the beginning of some bytes is told by the first thing that is: too few
/// bytes for a header, a wrong magic number, a format version that is not known.
pub proof fn law_decoding_errors(buf: Seq<u8>)
    ensures
        buf.len() < 75 ==> parse_blob(buf) == Err::<Doc, BlobFault>(
            BlobFault::BufferTooShort { need: 75, have: buf.len() },
        ),
        buf.len() >= 75 && buf.subrange(0, 4) != seq![0x49u8, 0x4E, 0x47, 0x4F] ==> parse_blob(buf)
            == Err::<Doc, BlobFault>(BlobFault::InvalidMagic),
        buf.len() >= 75 && buf.subrange(0, 4) == seq![0x49u8, 0x4E, 0x47, 0x4F] && from_le(
            buf.subrange(4, 6),
        ) != 2 ==> parse_blob(buf) == Err::<Doc, BlobFault>(
            BlobFault::UnsupportedVersion(from_le(buf.subrange(4, 6))),
        ),
{
    let magic = MAGIC@;
    assert(magic =~= seq![0x49u8, 0x4E, 0x47, 0x4F]);
}

/// Whether the flags mark a tombstone.
pub open spec fn deleted(d: Doc) -> bool {
    d.flags & FLAG_DELETED != 0
}

/// Whether the flags mark a partial view.
pub open spec fn partial(d: Doc) -> bool {
    d.flags & FLAG_PROJECTION != 0
}

/// A document without fields that marks its identity as deleted.
pub open spec fn tombstone_of(id: Seq<u8>) -> Doc {
    Doc { id, version: filled_id(0), flags: FLAG_DELETED, fields: seq![] }
}

/// The part of a document that holds only the listed fields.
pub open spec fn projection(d: Doc, names: Seq<Seq<char>>) -> Doc {
    Doc { flags: d.flags | FLAG_PROJECTION, fields: projected(d.fields, names), ..d }
}

/// The value of a field, where `_id` and `_version` name the identifiers.
pub open spec fn field_value(d: Doc, name: Seq<char>) -> Option<Datum> {
    if name == "_id"@ {
        Some(Datum::Uuid(d.id))
    } else if name == "_version"@ {
        Some(Datum::Uuid(d.version))
    } else {
        lookup(d.fields, name)
    }
}

/// A projection keeps identity, version and deletion mark, is marked as partial, and has
/// the value of each listed field and no other field.
pub proof fn law_projection(d: Doc, names: Seq<Seq<char>>, name: Seq<char>)
    requires
        valid_doc(d),
    ensures
        projection(d, names).id == d.id,
        projection(d, names).version == d.version,
        deleted(projection(d, names)) == deleted(d),
        partial(projection(d, names)),
        lookup(projection(d, names).fields, name) == (if names.contains(name) {
            lookup(d.fields, name)
        } else {
            None
        }),
{
    let flags = d.flags;
    assert((flags | FLAG_PROJECTION) & FLAG_DELETED == flags & FLAG_DELETED) by (bit_vector);
    assert((flags | FLAG_PROJECTION) & FLAG_PROJECTION != 0) by (bit_vector);
    crate::fields::law_lookup_in_projection(d.fields, names, name);
}

/// A tombstone is marked as deleted and is no partial view.
pub proof fn law_tombstone(id: Seq<u8>)
    ensures
        deleted(tombstone_of(id)),
        !partial(tombstone_of(id)),
{
    assert(FLAG_DELETED & FLAG_DELETED != 0) by (bit_vector);
    assert(FLAG_DELETED & FLAG_PROJECTION == 0) by (bit_vector);
}

impl IBlob {
    /// Create a new IBlob from key-value pairs.
    /// Auto-generates a UUIDv7 `_id`. The `_version` is left nil (server sets it at write time).
    /// Hash is computed later at encode() time.
    pub fn new(fields: Fields) -> (blob: Self)
        ensures
            is_generated(blob@.id),
            is_uuid_v7(blob@.id),
            blob@ == (Doc { id: blob@.id, version: filled_id(0), flags: 0, fields: fields@ }),
            blob.held_hash() == no_hash(),
            !blob.is_cached(),
            blob.computations() == 0,
    {
        Self::with_id(DocumentId::new(), fields)
    }

    /// Create a tombstone for the given document ID.
    /// Hash is computed at encode() time.
    pub fn tombstone(id: DocumentId) -> (blob: Self)
        ensures
            blob@ == tombstone_of(id@),
            blob.held_hash() == no_hash(),
            !blob.is_cached(),
            blob.computations() == 0,
    {
        let hash: ContentHash = [0; 32];
        assert(hash@ =~= no_hash());
        IBlob {
            id,
            version: DocumentId::nil(),
            flags: FLAG_DELETED,
            hash,
            fields: Fields::new(),
            encoded: None,
            hash_computations: 0,
        }
    }

    /// Create a projected (partial) view of this document with only the specified fields.
    /// Same `_id` and `_version`, but with the projection flag set.
    pub fn project(&self, field_names: &[String]) -> (blob: Self)
        ensures
            blob@ == projection(self@, texts(field_names@)),
            blob.held_hash() == no_hash(),
            !blob.is_cached(),
            blob.computations() == 0,
    {
        let fields = self.fields.project(field_names);
        proof {
            use_type_invariant(&fields);
        }
        let hash: ContentHash = [0; 32];
        assert(hash@ =~= no_hash());
        IBlob {
            id: self.id,
            version: self.version,
            flags: self.flags | FLAG_PROJECTION,
            hash,
            fields,
            encoded: None,
            hash_computations: 0,
        }
    }

    /// Create from a list of (key, value) tuples.
    pub fn from_pairs<K: FieldName>(pairs: Vec<(K, Value)>) -> (blob: Self)
        ensures
            is_generated(blob@.id),
            is_uuid_v7(blob@.id),
            blob@ == (Doc {
                id: blob@.id,
                version: filled_id(0),
                flags: 0,
                fields: collected(pair_views(pairs@)),
            }),
            blob.held_hash() == no_hash(),
            !blob.is_cached(),
            blob.computations() == 0,
    {
        Self::new(Fields::from_pairs(pairs))
    }

    /// Stable document identity.
    pub fn id(&self) -> (id: &DocumentId)
        ensures
            id@ == self@.id,
    {
        &self.id
    }

    /// Server-assigned version (nil until written through the engine).
    pub fn version(&self) -> (version: &DocumentId)
        ensures
            version@ == self@.version,
    {
        &self.version
    }

    /// Set the version. Called by the LSM engine at write time.
    pub fn set_version(&mut self, v: DocumentId)
        ensures
            final(self)@ == (Doc { version: v@, ..old(self)@ }),
            final(self).held_hash() == no_hash(),
            !final(self).is_cached(),
            final(self).computations() == old(self).computations(),
    {
        proof {
            use_type_invariant(&*self);
        }
        let zeros: ContentHash = [0; 32];
        assert(zeros@ =~= no_hash());
        self.encoded = None;
        self.hash = zeros;  // version is part of hash
        self.version = v;
    }

    /// Whether this is a tombstone (deleted document).
    pub fn is_deleted(&self) -> (r: bool)
        ensures
            r == deleted(self@),
    {
        self.flags & FLAG_DELETED != 0
    }

    /// Whether this is a projected (partial) view of a document.
    pub fn is_projection(&self) -> (r: bool)
        ensures
            r == partial(self@),
    {
        self.flags & FLAG_PROJECTION != 0
    }

    /// Content hash covering id + version + flags + fields.
    /// Valid after encode() or decode(). Zero before first encode().
    pub fn hash(&self) -> (hash: &ContentHash)
        ensures
            hash@ == self.held_hash(),
    {
        &self.hash
    }

    /// Access the fields.
    pub fn fields(&self) -> (fields: &Fields)
        ensures
            fields@ == self@.fields,
    {
        &self.fields
    }

    /// Get a field by name. Only looks in user fields, not metadata.
    pub fn get(&self, key: &str) -> (r: Option<&Value>)
        ensures
            match r {
                Some(v) => lookup(self@.fields, key@) == Some(v@),
                None => lookup(self@.fields, key@) is None,
            },
    {
        self.fields.get(key)
    }

    /// Get a field by name, including virtual metadata fields `_id` and `_version`.
    /// Returns owned Value since metadata fields are constructed on the fly.
    pub fn get_field(&self, key: &str) -> (r: Option<Value>)
        ensures
            match r {
                Some(v) => field_value(self@, key@) == Some(v@),
                None => field_value(self@, key@) is None,
            },
    {
        if same_text(key, "_id") {
            Some(Value::Uuid(self.id))
        } else if same_text(key, "_version") {
            Some(Value::Uuid(self.version))
        } else {
            match self.fields.get(key) {
                Some(v) => Some(v.clone()),
                None => None,
            }
        }
    }

    /// Number of fields.
    pub fn field_count(&self) -> (n: usize)
        ensures
            n == self@.fields.len(),
    {
        self.fields.len()
    }

    /// Number of times the hash was computed on this blob (for testing).
    pub fn hash_computations(&self) -> (n: u32)
        ensures
            n == self.computations(),
    {
        self.hash_computations
    }
}

impl Clone for IBlob {
    fn clone(&self) -> (blob: Self)
        ensures
            blob@ == self@,
            blob.held_hash() == self.held_hash(),
            blob.is_cached() == self.is_cached(),
            blob.computations() == self.computations(),
    {
        proof {
            use_type_invariant(self);
        }
        let encoded: Option<Vec<u8>> = match &self.encoded {
            Some(bytes) => Some(vstd::slice::slice_to_vec(bytes.as_slice())),
            None => None,
        };
        IBlob {
            id: self.id,
            version: self.version,
            flags: self.flags,
            hash: self.hash,
            fields: self.fields.clone(),
            encoded,
            hash_computations: self.hash_computations,
        }
    }
}

/// Documents are equal where their identities are.
impl PartialEq for IBlob {
    fn eq(&self, other: &Self) -> (r: bool) {
        bytes_eq(self.id.as_bytes(), other.id.as_bytes())
    }
}

impl vstd::std_specs::cmp::PartialEqSpecImpl for IBlob {
    open spec fn obeys_eq_spec() -> bool {
        true
    }

    open spec fn eq_spec(&self, other: &Self) -> bool {
        self@.id == other@.id
    }
}

impl Eq for IBlob {

}

} // verus!
