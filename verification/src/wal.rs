//! The write-ahead log.

use crate::bytes::{from_le, get_le, le, lemma_le_len, lemma_pow256_values, put_le, put_slice};
use crate::error::BlobFault;
use crate::hashing::{crc32c, crc32c_of};
use crate::iblob::{
    all_serialized, blob_bytes, content_hash, fits_blob, law_decode_of_encode, parse_blob,
    serialized, Doc, IBlob,
};
use crate::sstable::writer::docs_of;
use crate::value::{holds_at, lemma_holds_at_parts, lemma_le_at};
use vstd::prelude::*;

verus! {

/// A log record: the length and the checksum of a document's binary form, then the form.
pub open spec fn log_record(blob: Seq<u8>) -> Seq<u8> {
    le(blob.len(), 4) + le(crc32c(blob) as nat, 4) + blob
}

/// Records one after another.
pub open spec fn log_records(blobs: Seq<Seq<u8>>) -> Seq<u8>
    decreases blobs.len(),
{
    if blobs.len() == 0 {
        seq![]
    } else {
        log_records(blobs.drop_last()) + log_record(blobs.last())
    }
}

/// The binary forms of some documents.
pub open spec fn forms_of(docs: Seq<Doc>) -> Seq<Seq<u8>> {
    Seq::new(docs.len(), |i: int| blob_bytes(docs[i]))
}

/// The records of some documents, one after another.
pub open spec fn log_bytes(docs: Seq<Doc>) -> Seq<u8> {
    log_records(forms_of(docs))
}

/// The document of the record at `pos` and where the record ends, if a whole and sound record
/// lies there.
pub open spec fn parse_log_record(data: Seq<u8>, pos: int) -> Option<(Doc, int)> {
    if pos + 8 > data.len() {
        None
    } else {
        let end = pos + 8 + from_le(data.subrange(pos, pos + 4));
        if end > data.len() {
            None
        } else {
            let blob = data.subrange(pos + 8, end);
            if crc32c(blob) != from_le(data.subrange(pos + 4, pos + 8)) {
                None
            } else {
                match parse_blob(blob) {
                    Ok(doc) => Some((doc, end)),
                    Err(_) => None,
                }
            }
        }
    }
}

/// The documents of the records from `pos` on, up to the first that is cut off or corrupt.
pub open spec fn recovered(data: Seq<u8>, pos: int) -> Seq<Doc>
    decreases data.len() - pos,
{
    match parse_log_record(data, pos) {
        None => seq![],
        Some((doc, end)) => if end <= pos {
            seq![]
        } else {
            seq![doc] + recovered(data, end)
        },
    }
}

/// Reads the record at `pos`. Returns the document and where the record ends.
fn read_record(data: &[u8], pos: usize) -> (r: Option<(IBlob, usize)>)
    requires
        pos <= data@.len(),
    ensures
        match r {
            Some((blob, end)) => parse_log_record(data@, pos as int) == Some((blob@, end as int))
                && pos + 8 <= end <= data@.len() && blob.held_hash() == content_hash(blob@),
            None => parse_log_record(data@, pos as int) is None,
        },
{
    let total: usize = data.len();
    if total - pos < 8 {
        return None;  // not enough room for header
    }
    proof {
        lemma_pow256_values();
    }
    let length: u64 = get_le(data, pos, 4);
    let stored_crc: u64 = get_le(data, pos + 4, 4);
    if length > (total - pos - 8) as u64 {
        return None;  // truncated record
    }
    let end: usize = pos + 8 + length as usize;
    let bytes = vstd::slice::slice_subrange(data, pos + 8, end);
    if crc32c_of(bytes) as u64 != stored_crc {
        return None;  // corrupted record
    }
    match IBlob::decode(bytes) {
        Ok(blob) => Some((blob, end)),
        Err(_) => None,  // corrupted blob data
    }
}

/// Write-Ahead Log for IngoDB.
///
/// Record format:
/// ```text
/// [length: 4B LE]  length of blob_bytes
/// [crc32:  4B LE]  CRC32C of blob_bytes
/// [blob_bytes: length B]
/// ```
///
/// Records that were appended wait in a buffer until they are taken to be written to the
/// file. On recovery, corrupted or truncated tail records are skipped.
pub struct Wal {
    path: String,
    pending: Vec<u8>,
    size: u64,
}

impl Wal {
    /// The path of the file.
    pub closed spec fn path_text(&self) -> Seq<char> {
        self.path@
    }

    /// What was appended and not taken yet.
    pub closed spec fn buffered(&self) -> Seq<u8> {
        self.pending@
    }

    /// The size of the log.
    pub closed spec fn log_size(&self) -> u64 {
        self.size
    }

    /// Open a log whose file has `size` bytes.
    pub fn open(path: String, size: u64) -> (wal: Self)
        ensures
            wal.path_text() == path@,
            wal.buffered() == Seq::<u8>::empty(),
            wal.log_size() == size,
    {
        Wal { path, pending: Vec::new(), size }
    }

    /// Append a blob to the WAL. Returns the byte offset of the record.
    pub fn append(&mut self, blob: &mut IBlob) -> (offset: u64)
        ensures
            offset == old(self).log_size(),
            final(self).path_text() == old(self).path_text(),
            final(self).buffered() == old(self).buffered() + log_record(blob_bytes(old(blob)@)),
            final(self).log_size() == old(self).log_size().wrapping_add(8).wrapping_add(
                blob_bytes(old(blob)@).len() as u64,
            ),
            serialized(*old(blob), *final(blob)),
    {
        let offset: u64 = self.size;
        let bytes = blob.encode();
        let crc: u32 = crc32c_of(bytes.as_slice());
        put_le(&mut self.pending, bytes.len() as u64, 4);
        put_le(&mut self.pending, crc as u64, 4);
        put_slice(&mut self.pending, bytes.as_slice());
        self.size = self.size.wrapping_add(8).wrapping_add(bytes.len() as u64);
        assert(self.pending@ =~= old(self).pending@ + log_record(bytes@));
        offset
    }

    /// Append multiple blobs to the WAL in one batch.
    pub fn append_batch(&mut self, blobs: &mut [IBlob])
        ensures
            final(self).path_text() == old(self).path_text(),
            final(self).buffered() == old(self).buffered() + log_bytes(docs_of(old(blobs)@)),
            final(self).log_size() == grown(old(self).log_size(), docs_of(old(blobs)@)),
            docs_of(final(blobs)@) == docs_of(old(blobs)@),
            all_serialized(old(blobs)@, final(blobs)@),
    {
        let ghost docs = docs_of(blobs@);
        let n: usize = blobs.len();
        let mut i: usize = 0;
        assert(docs.take(0) =~= seq![]);
        assert(forms_of(docs.take(0)) =~= seq![]);
        assert(self.pending@ =~= old(self).pending@ + log_bytes(docs.take(0)));
        while i < n
            invariant
                n == blobs@.len(),
                i <= n,
                docs == docs_of(blobs@),
                self.path@ == old(self).path@,
                self.pending@ == old(self).pending@ + log_bytes(docs.take(i as int)),
                self.size == grown(old(self).size, docs.take(i as int)),
                n == old(blobs)@.len(),
                forall|j: int| 0 <= j < i ==> serialized(old(blobs)@[j], #[trigger] blobs@[j]),
                forall|j: int| i <= j < n ==> #[trigger] blobs@[j] == old(blobs)@[j],
            decreases n - i,
        {
            let ghost before = blobs@;
            self.append(&mut blobs[i]);
            proof {
                assert(docs_of(blobs@) =~= docs);
                assert(before[i as int]@ == docs[i as int]);
                assert(docs.take(i + 1).drop_last() =~= docs.take(i as int));
                assert(docs.take(i + 1).last() == docs[i as int]);
                assert(forms_of(docs.take(i + 1)).drop_last() =~= forms_of(docs.take(i as int)));
                assert(self.pending@ =~= old(self).pending@ + log_bytes(docs.take(i + 1)));
            }
            i += 1;
        }
        assert(docs.take(n as int) =~= docs);
    }

    /// Takes the bytes that are to be written to the end of the file.
    pub fn take_pending(&mut self) -> (bytes: Vec<u8>)
        ensures
            bytes@ == old(self).buffered(),
            final(self).buffered() == Seq::<u8>::empty(),
            final(self).path_text() == old(self).path_text(),
            final(self).log_size() == old(self).log_size(),
    {
        let mut bytes: Vec<u8> = Vec::new();
        std::mem::swap(&mut bytes, &mut self.pending);
        bytes
    }

    /// Current size of the WAL in bytes.
    pub fn size(&self) -> (n: u64)
        ensures
            n == self.log_size(),
    {
        self.size
    }

    /// Path to the WAL file.
    pub fn path(&self) -> (path: &String)
        ensures
            path@ == self.path_text(),
    {
        &self.path
    }

    /// Recover all valid records from the content of a WAL file.
    /// Stops at the first corrupted or truncated record.
    pub fn recover(data: &[u8]) -> (blobs: Vec<IBlob>)
        ensures
            docs_of(blobs@) == recovered(data@, 0),
            forall|i: int|
                0 <= i < blobs@.len() ==> (#[trigger] blobs@[i]).held_hash() == content_hash(
                    blobs@[i]@,
                ),
    {
        let mut blobs: Vec<IBlob> = Vec::new();
        let mut pos: usize = 0;
        let mut more: bool = true;
        assert(docs_of(blobs@) + recovered(data@, 0) =~= recovered(data@, 0));
        while more
            invariant
                pos <= data@.len(),
                more ==> docs_of(blobs@) + recovered(data@, pos as int) == recovered(data@, 0),
                !more ==> docs_of(blobs@) == recovered(data@, 0),
                forall|i: int|
                    0 <= i < blobs@.len() ==> (#[trigger] blobs@[i]).held_hash() == content_hash(
                        blobs@[i]@,
                    ),
            decreases data@.len() - pos, (if more { 1int } else { 0int }),
        {
            match read_record(data, pos) {
                None => {
                    assert(docs_of(blobs@) + Seq::<Doc>::empty() =~= docs_of(blobs@));
                    more = false;
                },
                Some((blob, end)) => {
                    let ghost before = docs_of(blobs@);
                    let ghost doc = blob@;
                    blobs.push(blob);
                    proof {
                        assert(docs_of(blobs@) =~= before.push(doc));
                        assert(before + (seq![doc] + recovered(data@, end as int)) =~= docs_of(
                            blobs@,
                        ) + recovered(data@, end as int));
                    }
                    pos = end;
                },
            }
        }
        blobs
    }
}

/// The size of a log after documents were appended.
pub open spec fn grown(size: u64, docs: Seq<Doc>) -> u64
    decreases docs.len(),
{
    if docs.len() == 0 {
        size
    } else {
        grown(size, docs.drop_last()).wrapping_add(8).wrapping_add(
            blob_bytes(docs.last()).len() as u64,
        )
    }
}

/// Whether documents fit the lengths that the log gives them.
pub open spec fn fits_log(docs: Seq<Doc>) -> bool {
    forall|i: int|
        0 <= i < docs.len() ==> fits_blob(#[trigger] docs[i]) && blob_bytes(docs[i]).len()
            <= u32::MAX
}

/// Whether bytes are the binary form of a document.
#[verifier::opaque]
spec fn decodes(bytes: Seq<u8>, d: Doc) -> bool {
    parse_blob(bytes) == Ok::<Doc, BlobFault>(d)
}

/// A record reads back.
proof fn lemma_record_at(blob: Seq<u8>, d: Doc, data: Seq<u8>, pos: int)
    requires
        blob.len() <= u32::MAX,
        decodes(blob, d),
        holds_at(data, pos, log_record(blob)),
    ensures
        parse_log_record(data, pos) == Some((d, pos + log_record(blob).len())),
        log_record(blob).len() == 8 + blob.len(),
{
    let len = le(blob.len(), 4);
    let crc = le(crc32c(blob) as nat, 4);
    lemma_pow256_values();
    lemma_le_len(blob.len(), 4);
    lemma_le_len(crc32c(blob) as nat, 4);
    lemma_holds_at_parts(data, pos, len + crc, blob);
    lemma_holds_at_parts(data, pos, len, crc);
    lemma_le_at(data, pos, blob.len(), 4);
    lemma_le_at(data, pos + 4, crc32c(blob) as nat, 4);
    reveal(decodes);
}

/// What recovery gives from `pos` on.
#[verifier::opaque]
spec fn rest_of(data: Seq<u8>, pos: int) -> Seq<Doc> {
    recovered(data, pos)
}

proof fn lemma_recover_step(blob: Seq<u8>, d: Doc, data: Seq<u8>, pos: int)
    requires
        blob.len() <= u32::MAX,
        decodes(blob, d),
        holds_at(data, pos, log_record(blob)),
    ensures
        rest_of(data, pos) == seq![d] + rest_of(data, pos + log_record(blob).len()),
{
    reveal(rest_of);
    lemma_record_at(blob, d, data, pos);
}

/// Whether each of `blobs` is the binary form of the document at its place and fits a record.
spec fn log_encodes(blobs: Seq<Seq<u8>>, docs: Seq<Doc>) -> bool {
    &&& blobs.len() == docs.len()
    &&& forall|i: int|
        0 <= i < blobs.len() ==> (#[trigger] blobs[i]).len() <= u32::MAX && decodes(
            blobs[i],
            docs[i],
        )
}

proof fn lemma_log_encodes(docs: Seq<Doc>)
    requires
        fits_log(docs),
    ensures
        log_encodes(forms_of(docs), docs),
{
    let blobs = forms_of(docs);
    assert forall|i: int| 0 <= i < blobs.len() implies (#[trigger] blobs[i]).len() <= u32::MAX
        && decodes(blobs[i], docs[i]) by {
        assert(fits_blob(docs[i]));
        law_decode_of_encode(docs[i]);
        reveal(decodes);
    }
}

proof fn lemma_recover_from(blobs: Seq<Seq<u8>>, docs: Seq<Doc>, i: int, tail: Seq<u8>)
    requires
        log_encodes(blobs, docs),
        0 <= i <= docs.len(),
    ensures
        rest_of(log_records(blobs) + tail, log_records(blobs.take(i)).len() as int) == docs.skip(i)
            + rest_of(log_records(blobs) + tail, log_records(blobs).len() as int),
    decreases docs.len() - i,
{
    let data = log_records(blobs) + tail;
    let rest = rest_of(data, log_records(blobs).len() as int);
    if i == docs.len() {
        assert(blobs.take(i) =~= blobs);
        assert(docs.skip(i) + rest =~= rest);
    } else {
        let blob = blobs[i];
        lemma_log_prefix(blobs, i + 1);
        assert(blobs.take(i + 1).drop_last() =~= blobs.take(i));
        let upto = log_records(blobs.take(i + 1));
        assert(data.subrange(0, upto.len() as int) =~= log_records(blobs).take(
            upto.len() as int,
        ));
        lemma_holds_at_parts(data, 0, log_records(blobs.take(i)), log_record(blob));
        lemma_recover_step(blob, docs[i], data, log_records(blobs.take(i)).len() as int);
        lemma_recover_from(blobs, docs, i + 1, tail);
        assert(seq![docs[i]] + (docs.skip(i + 1) + rest) =~= docs.skip(i) + rest);
    }
}

proof fn lemma_log_prefix(blobs: Seq<Seq<u8>>, i: int)
    requires
        0 <= i <= blobs.len(),
    ensures
        log_records(blobs.take(i)).len() <= log_records(blobs).len(),
        log_records(blobs).take(log_records(blobs.take(i)).len() as int) == log_records(
            blobs.take(i),
        ),
    decreases blobs.len(),
{
    if i == blobs.len() {
        assert(blobs.take(i) =~= blobs);
        assert(log_records(blobs).take(log_records(blobs).len() as int) =~= log_records(blobs));
    } else {
        let init = blobs.drop_last();
        lemma_log_prefix(init, i);
        assert(init.take(i) =~= blobs.take(i));
        let n = log_records(blobs.take(i)).len() as int;
        assert(log_records(blobs).take(n) =~= log_records(init).take(n));
    }
}

/// A record that starts later in a file reads as it would at the start of the rest.
proof fn lemma_record_shifts(head: Seq<u8>, tail: Seq<u8>, pos: int)
    requires
        0 <= pos,
    ensures
        parse_log_record(head + tail, head.len() + pos) == (match parse_log_record(tail, pos) {
            Some((d, end)) => Some((d, head.len() + end)),
            None => None,
        }),
{
    let data = head + tail;
    let at = head.len() + pos;
    if pos + 8 <= tail.len() {
        assert(data.subrange(at, at + 4) =~= tail.subrange(pos, pos + 4));
        assert(data.subrange(at + 4, at + 8) =~= tail.subrange(pos + 4, pos + 8));
        let len = from_le(tail.subrange(pos, pos + 4));
        if pos + 8 + len <= tail.len() {
            assert(data.subrange(at + 8, at + 8 + len) =~= tail.subrange(pos + 8, pos + 8 + len));
        }
    }
}

proof fn lemma_recover_shifts(head: Seq<u8>, tail: Seq<u8>, pos: int)
    requires
        0 <= pos,
    ensures
        recovered(head + tail, head.len() + pos) == recovered(tail, pos),
    decreases tail.len() - pos,
{
    lemma_record_shifts(head, tail, pos);
    match parse_log_record(tail, pos) {
        None => {},
        Some((d, end)) => {
            if end > pos {
                lemma_recover_shifts(head, tail, end);
            }
        },
    }
}

/// Recovery gives back every document that was appended, and then what the rest of the file
/// gives: whatever follows the records, none of them is lost.
pub proof fn law_recover_of_append(docs: Seq<Doc>, tail: Seq<u8>)
    requires
        fits_log(docs),
    ensures
        recovered(log_bytes(docs) + tail, 0) == docs + recovered(tail, 0),
        recovered(log_bytes(docs), 0) == docs,
{
    let log = log_bytes(docs);
    let blobs = forms_of(docs);
    reveal(rest_of);
    lemma_log_encodes(docs);
    assert(blobs.take(0) =~= seq![]);
    assert(docs.skip(0) =~= docs);
    lemma_recover_from(blobs, docs, 0, tail);
    lemma_recover_shifts(log, tail, 0);
    let none = Seq::<u8>::empty();
    lemma_recover_from(blobs, docs, 0, none);
    lemma_recover_shifts(log, none, 0);
    assert(log + none =~= log);
    assert(docs + recovered(none, 0) =~= docs);
}

/// Recovery stops at a record that is cut off: one whose header or content runs past the end
/// of the file.
pub proof fn law_truncated_record_stops(docs: Seq<Doc>, tail: Seq<u8>)
    requires
        fits_log(docs),
        tail.len() < 8 || tail.len() < 8 + from_le(tail.subrange(0, 4)),
    ensures
        recovered(log_bytes(docs) + tail, 0) == docs,
{
    law_recover_of_append(docs, tail);
    assert(docs + recovered(tail, 0) =~= docs);
}

/// Recovery stops at a record whose checksum is wrong, whatever follows it.
pub proof fn law_corrupt_record_stops(docs: Seq<Doc>, blob: Seq<u8>, crc: u32, rest: Seq<u8>)
    requires
        fits_log(docs),
        blob.len() <= u32::MAX,
        crc != crc32c(blob),
    ensures
        recovered(
            log_bytes(docs) + (le(blob.len(), 4) + le(crc as nat, 4) + blob + rest),
            0,
        ) == docs,
{
    let len = le(blob.len(), 4);
    let stored = le(crc as nat, 4);
    let tail = len + stored + blob + rest;
    lemma_pow256_values();
    lemma_le_len(blob.len(), 4);
    lemma_le_len(crc as nat, 4);
    assert(tail.subrange(0, tail.len() as int) =~= tail);
    lemma_holds_at_parts(tail, 0, len + stored + blob, rest);
    lemma_holds_at_parts(tail, 0, len + stored, blob);
    lemma_holds_at_parts(tail, 0, len, stored);
    lemma_le_at(tail, 0, blob.len(), 4);
    lemma_le_at(tail, 4, crc as nat, 4);
    law_recover_of_append(docs, tail);
    assert(docs + recovered(tail, 0) =~= docs);
}

} // verus!
