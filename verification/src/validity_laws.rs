//! What it takes to be valid, to fit and to be equal, said in full, and how values are laid out.

use crate::bytes::{le, lex_le, lex_lt};
use crate::compaction::{distinct_paths, ranged, SstMeta};
use crate::error::BlobFault;
use crate::fields::{names_sorted, same_fields, Fields};
use crate::iblob::{blob_bytes, fits_blob, valid_doc, Doc, IBlob};
use crate::memtable::{doc_key, law_versions_are_ordered, versions_sorted};
use crate::query::{same_condition, Filter};
use crate::secondary::{place, place_lt, places_rise};
use crate::sstable::keys::law_mvcc_key_order;
use crate::sstable::laws::{
    docs_fit, fits_entry, fits_table, is_latest_of_all, is_latest_version, keys_sorted,
};
use crate::stats::{shapes_distinct, PatternStats, QueryPattern, Shape};
use crate::value::{
    encodable, encoding, encoding_of_fields, encoding_of_items, parse_value, same_value, Datum,
    Value,
};
use crate::wal::fits_log;
use vstd::prelude::*;
use vstd::std_specs::cmp::PartialEqSpec;
use vstd::utf8::{encode_utf8, valid_utf8};

verus! {

/// A document is valid where its identity and its version have sixteen bytes and the names of
/// its fields rise strictly in the order of their bytes.
pub proof fn law_valid_documents(d: Doc)
    ensures
        valid_doc(d) <==> d.id.len() == 16 && d.version.len() == 16 && names_sorted(d.fields),
        names_sorted(d.fields) <==> forall|i: int, j: int|
            0 <= i < j < d.fields.len() ==> lex_lt(
                encode_utf8((#[trigger] d.fields[i]).0),
                encode_utf8((#[trigger] d.fields[j]).0),
            ),
{
    if names_sorted(d.fields) {
        assert forall|i: int, j: int| 0 <= i < j < d.fields.len() implies lex_lt(
            encode_utf8((#[trigger] d.fields[i]).0),
            encode_utf8((#[trigger] d.fields[j]).0),
        ) by {
            crate::blob_laws::law_names_are_ordered(d.fields, i, j);
        }
    }
}

/// Documents are a table where all are valid and they stand in the order of identity and then of
/// version, none twice.
pub proof fn law_valid_tables(docs: Seq<Doc>)
    ensures
        versions_sorted(docs) <==> (forall|i: int|
            0 <= i < docs.len() ==> valid_doc(#[trigger] docs[i])) && forall|i: int, j: int|
            0 <= i < j < docs.len() ==> lex_lt((#[trigger] docs[i]).id, (#[trigger] docs[j]).id)
                || (docs[i].id == docs[j].id && lex_lt(docs[i].version, docs[j].version)),
{
    if versions_sorted(docs) {
        assert forall|i: int, j: int| 0 <= i < j < docs.len() implies lex_lt(
            (#[trigger] docs[i]).id,
            (#[trigger] docs[j]).id,
        ) || (docs[i].id == docs[j].id && lex_lt(docs[i].version, docs[j].version)) by {
            law_versions_are_ordered(docs, i, j);
        }
    }
    if (forall|i: int| 0 <= i < docs.len() ==> valid_doc(#[trigger] docs[i])) && forall|
        i: int,
        j: int,
    |
        0 <= i < j < docs.len() ==> lex_lt((#[trigger] docs[i]).id, (#[trigger] docs[j]).id) || (
        docs[i].id == docs[j].id && lex_lt(docs[i].version, docs[j].version)) {
        assert forall|i: int, j: int| 0 <= i < j < docs.len() implies lex_lt(
            doc_key(#[trigger] docs[i]),
            doc_key(#[trigger] docs[j]),
        ) by {
            assert(valid_doc(docs[i]) && valid_doc(docs[j]));
            law_mvcc_key_order(docs[i], docs[j]);
        }
    }
}

/// Buffered entries are in order where they rise strictly by key, and under one key by identity.
pub proof fn law_valid_buffers(entries: Seq<(Seq<u8>, Doc)>)
    ensures
        places_rise(entries) <==> forall|i: int, j: int|
            0 <= i < j < entries.len() ==> lex_lt((#[trigger] entries[i]).0, (
            #[trigger] entries[j]).0) || (entries[i].0 == entries[j].0 && lex_lt(
                entries[i].1.id,
                entries[j].1.id,
            )),
{
    if places_rise(entries) {
        assert forall|i: int, j: int| 0 <= i < j < entries.len() implies lex_lt(
            (#[trigger] entries[i]).0,
            (#[trigger] entries[j]).0,
        ) || (entries[i].0 == entries[j].0 && lex_lt(entries[i].1.id, entries[j].1.id)) by {
            assert(place_lt(place(entries[i]), place(entries[j])));
        }
    }
}

/// A value can be encoded where its lengths and those of its parts fit four bytes and its
/// identifiers have sixteen bytes.
pub proof fn law_encodable_values(
    b: bool,
    i: i64,
    u: u64,
    f: u64,
    s: Seq<char>,
    bytes: Seq<u8>,
    id: Seq<u8>,
    items: Seq<Datum>,
    fields: Seq<(Seq<char>, Datum)>,
)
    ensures
        encodable(Datum::Null),
        encodable(Datum::Bool(b)),
        encodable(Datum::I64(i)),
        encodable(Datum::U64(u)),
        encodable(Datum::F64(f)),
        encodable(Datum::Text(s)) <==> encode_utf8(s).len() <= u32::MAX,
        encodable(Datum::Bytes(bytes)) <==> bytes.len() <= u32::MAX,
        encodable(Datum::Uuid(id)) <==> id.len() == 16,
        encodable(Datum::Array(items)) <==> items.len() <= u32::MAX && forall|k: int|
            0 <= k < items.len() ==> encodable(#[trigger] items[k]),
        encodable(Datum::Document(fields)) <==> fields.len() <= u32::MAX && forall|k: int|
            0 <= k < fields.len() ==> encode_utf8((#[trigger] fields[k]).0).len() <= u32::MAX
                && encodable(fields[k].1),
{
    let array = Datum::Array(items);
    let document = Datum::Document(fields);
    assert(array->Array_0 == items && document->Document_0 == fields);
}

/// A document fits where it is valid and its lengths fit the places that its binary form gives
/// them; an entry where also its key and the form do; and documents fit a log or a table where
/// each of them does and they are not too many.
pub proof fn law_fitting_documents(
    d: Doc,
    e: (Seq<u8>, Doc),
    entries: Seq<(Seq<u8>, Doc)>,
    docs: Seq<Doc>,
    keys: Seq<Seq<u8>>,
)
    ensures
        fits_blob(d) <==> valid_doc(d) && encodable(Datum::Document(d.fields))
            && encoding_of_fields(d.fields).len() <= u32::MAX,
        fits_log(docs) <==> forall|i: int|
            0 <= i < docs.len() ==> fits_blob(#[trigger] docs[i]) && blob_bytes(docs[i]).len()
                <= u32::MAX,
        fits_entry(e) <==> e.0.len() <= u16::MAX && fits_blob(e.1) && blob_bytes(e.1).len()
            <= u32::MAX,
        fits_table(entries) <==> entries.len() > 0 && entries.len() * 10 <= u32::MAX && forall|
            i: int,
        |
            0 <= i < entries.len() ==> fits_entry(#[trigger] entries[i]),
        docs_fit(docs, keys) <==> docs.len() > 0 && docs.len() * 10 <= u32::MAX && keys.len()
            == docs.len() && forall|i: int|
            0 <= i < docs.len() ==> fits_entry((keys[i], #[trigger] docs[i])),
        keys_sorted(entries) <==> forall|i: int, j: int|
            0 <= i <= j < entries.len() ==> lex_le(
                (#[trigger] entries[i]).0,
                (#[trigger] entries[j]).0,
            ),
{
}

/// The latest version of a document up to a snapshot is one of its versions, is not above the
/// snapshot, and no other such version is above it. There is none exactly where every version is
/// above the snapshot. The latest of all is the same without a snapshot.
pub proof fn law_latest_versions(
    docs: Seq<Doc>,
    id: Seq<u8>,
    snapshot: Seq<u8>,
    d: Doc,
)
    ensures
        is_latest_version(docs, id, snapshot, Some(d)) <==> docs.contains(d) && d.id == id
            && lex_le(d.version, snapshot) && forall|i: int|
            0 <= i < docs.len() && (#[trigger] docs[i]).id == id && lex_le(
                docs[i].version,
                snapshot,
            ) ==> lex_le(docs[i].version, d.version),
        is_latest_version(docs, id, snapshot, None) <==> forall|i: int|
            0 <= i < docs.len() && (#[trigger] docs[i]).id == id ==> !lex_le(
                docs[i].version,
                snapshot,
            ),
        is_latest_of_all(docs, id, Some(d)) <==> docs.contains(d) && d.id == id && forall|i: int|
            0 <= i < docs.len() && (#[trigger] docs[i]).id == id ==> lex_le(
                docs[i].version,
                d.version,
            ),
        is_latest_of_all(docs, id, None) <==> forall|i: int|
            0 <= i < docs.len() ==> (#[trigger] docs[i]).id != id,
{
}

/// Patterns are distinct where no two have one shape, tables have distinct paths where no two
/// have one path, and a table has a range where its smallest identifier is not above its
/// greatest.
pub proof fn law_distinct_parts(
    entries: Seq<(Shape, PatternStats)>,
    metas: Seq<SstMeta>,
    meta: SstMeta,
)
    ensures
        shapes_distinct(entries) <==> forall|i: int, j: int|
            0 <= i < j < entries.len() ==> (#[trigger] entries[i]).0 != (#[trigger] entries[j]).0,
        distinct_paths(metas) <==> forall|i: int, j: int|
            0 <= i < metas.len() && 0 <= j < metas.len() && i != j ==> (#[trigger] metas[i]).path@
                != (#[trigger] metas[j]).path@,
        ranged(meta) <==> !lex_lt(meta.max_id@, meta.min_id@),
{
}

/// `==` compares values, fields, filters and query patterns by content, and documents by
/// identity alone.
pub proof fn law_equality_operators(
    a: Value,
    b: Value,
    f: Fields,
    g: Fields,
    x: Filter,
    y: Filter,
    p: QueryPattern,
    q: QueryPattern,
    m: IBlob,
    n: IBlob,
)
    ensures
        a.eq_spec(&b) <==> same_value(a@, b@),
        f.eq_spec(&g) <==> same_fields(f@, g@),
        x.eq_spec(&y) <==> same_condition(x@, y@),
        p.eq_spec(&q) <==> p@ == q@,
        m.eq_spec(&n) <==> m@.id == n@.id,
{
}

/// A value is laid out as the number of its type and then its content: a byte for a boolean,
/// eight bytes for a number, with negative integers in two's complement, a length in four bytes
/// and the bytes for texts and byte strings, sixteen bytes for an identifier, and a count in four
/// bytes and the parts for arrays and documents.
pub proof fn law_value_layout(
    b: bool,
    i: i64,
    u: u64,
    s: Seq<char>,
    bytes: Seq<u8>,
    id: Seq<u8>,
    items: Seq<Datum>,
    fields: Seq<(Seq<char>, Datum)>,
)
    ensures
        encoding(Datum::Null) == seq![0u8],
        encoding(Datum::Bool(b)) == seq![
            1u8,
            if b {
                1u8
            } else {
                0
            },
        ],
        i >= 0 ==> encoding(Datum::I64(i)) == seq![2u8] + le(i as nat, 8),
        i < 0 ==> encoding(Datum::I64(i)) == seq![2u8] + le(
            (0x1_0000_0000_0000_0000 + i) as nat,
            8,
        ),
        encoding(Datum::U64(u)) == seq![3u8] + le(u as nat, 8),
        encoding(Datum::F64(u)) == seq![4u8] + le(u as nat, 8),
        encoding(Datum::Text(s)) == seq![5u8] + (le(encode_utf8(s).len(), 4) + encode_utf8(s)),
        encoding(Datum::Bytes(bytes)) == seq![6u8] + (le(bytes.len(), 4) + bytes),
        encoding(Datum::Uuid(id)) == seq![7u8] + id,
        encoding(Datum::Array(items)) == seq![8u8] + le(items.len(), 4) + encoding_of_items(items),
        encoding(Datum::Document(fields)) == seq![9u8] + le(fields.len(), 4) + encoding_of_fields(
            fields,
        ),
{
    let array = Datum::Array(items);
    let document = Datum::Document(fields);
    assert(array->Array_0 == items && document->Document_0 == fields);
}

/// The parts of an array and of a document are laid out one after another: an item as its
/// encoding, and a field as the length of its name in four bytes, the name, and the encoding of
/// its value.
pub proof fn law_parts_layout(
    items: Seq<Datum>,
    fields: Seq<(Seq<char>, Datum)>,
    name: Seq<char>,
    d: Datum,
)
    ensures
        encoding_of_items(Seq::empty()) == Seq::<u8>::empty(),
        encoding_of_items(items.push(d)) == encoding_of_items(items) + encoding(d),
        encoding_of_fields(Seq::empty()) == Seq::<u8>::empty(),
        encoding_of_fields(fields.push((name, d))) == encoding_of_fields(fields) + (le(
            encode_utf8(name).len(),
            4,
        ) + encode_utf8(name)) + encoding(d),
{
    assert(items.push(d).drop_last() =~= items);
    assert(fields.push((name, d)).drop_last() =~= fields);
}

/// Bytes that no value begins with are told by the first of them, a text that is no UTF-8 is
/// told as such, and every byte but zero stands for true.
pub proof fn law_value_errors(buf: Seq<u8>, pos: int)
    requires
        0 <= pos < buf.len(),
    ensures
        buf[pos] > 9 ==> parse_value(buf, pos) == Err::<(Datum, nat), BlobFault>(
            BlobFault::UnknownValueType(buf[pos]),
        ),
        buf[pos] == 0 ==> parse_value(buf, pos) == Ok::<(Datum, nat), BlobFault>((Datum::Null, 1)),
        buf[pos] == 1 && pos + 1 < buf.len() ==> parse_value(buf, pos) == Ok::<
            (Datum, nat),
            BlobFault,
        >((Datum::Bool(buf[pos + 1] != 0), 2)),
        buf[pos] == 5 && parse_value(buf, pos) is Ok ==> exists|n: nat|
            pos + 5 + n <= buf.len() && #[trigger] valid_utf8(buf.subrange(pos + 5, pos + 5 + n)),
        parse_value(buf, pos) matches Ok((d, n)) ==> n >= 1,
{
    if buf[pos] == 5 && parse_value(buf, pos) is Ok {
        let n = crate::bytes::from_le(buf.subrange(pos + 1, pos + 5));
        assert(pos + 5 + n <= buf.len());
        assert(valid_utf8(buf.subrange(pos + 5, pos + 5 + n)));
    }
}

/// The numbers that the formats and the rules rest on.
pub proof fn law_fixed_numbers()
    ensures
        crate::iblob::HEADER_SIZE == 75,
        crate::iblob::INDEX_ENTRY_SIZE == 16,
        crate::iblob::FORMAT_VERSION == 2,
        crate::iblob::FLAG_DELETED == 1,
        crate::iblob::FLAG_PROJECTION == 2,
        crate::sstable::format::FOOTER_SIZE == 30,
        crate::sstable::format::SSTABLE_VERSION == 2,
        crate::sstable::format::DEFAULT_BLOCK_SIZE == 4096,
        crate::secondary::SPILL_THRESHOLD == 1000,
        crate::secondary::DROP_COMPACTION_CYCLES == 10,
        crate::secondary::DROP_HOURS == 720,
        crate::secondary::DEFAULT_INDEX_THRESHOLD == 3,
{
}

} // verus!
