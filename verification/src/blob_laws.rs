//! Laws of documents: their fields, their marks, their binary form and their log.

use crate::bytes::{le, lemma_lex_strict, lex_lt};
use crate::error::BlobFault;
use crate::fields::{
    collected, law_lookup_after_set, lemma_collected_sorted, lemma_lookup_at, lemma_name_order,
    lemma_with_field_sorted, lookup, name_lt, names_sorted, projected, same_fields, with_field,
};
use crate::hashing::{crc32c, crc_register, crc_step, crc_steps};
use crate::iblob::{
    blob_bytes, content_hash, deleted, field_value, fits_blob, hashable, parse_blob, partial,
    projection, tombstone_of, valid_doc, Doc,
};
use crate::value::{
    encodable, encoding_of_fields, holds_at, lemma_fields_at, lemma_fields_prefix, same_value,
    Datum,
};
use crate::wal::{
    fits_log, forms_of, grown, law_corrupt_record_stops, log_bytes, log_record, log_records,
    recovered,
};
use vstd::prelude::*;
use vstd::utf8::encode_utf8;

verus! {

/// Looking up a name gives the value of the field with that name, and nothing exactly where no
/// field has it.
pub proof fn law_lookup_finds_field(
    fields: Seq<(Seq<char>, Datum)>,
    name: Seq<char>,
    value: Datum,
)
    requires
        names_sorted(fields),
    ensures
        lookup(fields, name) == Some(value) <==> fields.contains((name, value)),
        lookup(fields, name) is None <==> forall|i: int|
            0 <= i < fields.len() ==> (#[trigger] fields[i]).0 != name,
{
    if fields.contains((name, value)) {
        let i = choose|i: int| 0 <= i < fields.len() && fields[i] == (name, value);
        lemma_lookup_at(fields, i);
    }
    if lookup(fields, name) == Some(value) {
        let i = choose|i: int| 0 <= i < fields.len() && (#[trigger] fields[i]).0 == name;
        lemma_lookup_at(fields, i);
        assert(fields[i] == (name, value));
    }
}

/// The fields of a document stand in the byte order of their names, and no name occurs twice.
pub proof fn law_names_are_ordered(fields: Seq<(Seq<char>, Datum)>, i: int, j: int)
    requires
        names_sorted(fields),
        0 <= i < j < fields.len(),
    ensures
        lex_lt(encode_utf8(fields[i].0), encode_utf8(fields[j].0)),
        fields[i].0 != fields[j].0,
{
    assert(name_lt(fields[i].0, fields[j].0));
    lemma_lex_strict(encode_utf8(fields[i].0), encode_utf8(fields[j].0));
}

/// Setting a field gives that field its value, and keeps every field of another name. Nothing
/// else comes in, and the names stay in order.
pub proof fn law_set_keeps_other_fields(
    fields: Seq<(Seq<char>, Datum)>,
    name: Seq<char>,
    value: Datum,
)
    requires
        names_sorted(fields),
    ensures
        names_sorted(with_field(fields, name, value)),
        forall|f: (Seq<char>, Datum)| #[trigger]
            with_field(fields, name, value).contains(f) <==> f == (name, value) || (
            fields.contains(f) && f.0 != name),
{
    lemma_with_field_sorted(fields, name, value);
    let after = with_field(fields, name, value);
    assert forall|f: (Seq<char>, Datum)| #[trigger]
        after.contains(f) <==> f == (name, value) || (fields.contains(f) && f.0 != name) by {
        law_lookup_after_set(fields, name, value, f.0);
        law_lookup_finds_field(after, f.0, f.1);
        law_lookup_finds_field(fields, f.0, f.1);
    }
}

/// Of pairs with one name the last gives the value, and a name that no pair has is not there.
pub proof fn law_last_pair_wins(pairs: Seq<(Seq<char>, Datum)>, i: int, name: Seq<char>)
    ensures
        names_sorted(collected(pairs)),
        0 <= i < pairs.len() && (forall|j: int|
            i < j < pairs.len() ==> (#[trigger] pairs[j]).0 != pairs[i].0) ==> lookup(
            collected(pairs),
            pairs[i].0,
        ) == Some(pairs[i].1),
        (forall|j: int| 0 <= j < pairs.len() ==> (#[trigger] pairs[j]).0 != name) ==> lookup(
            collected(pairs),
            name,
        ) is None,
    decreases pairs.len(),
{
    lemma_collected_sorted(pairs);
    if pairs.len() > 0 {
        let init = pairs.drop_last();
        let last = pairs[pairs.len() - 1];
        lemma_collected_sorted(init);
        law_last_pair_wins(init, i, name);
        law_lookup_after_set(collected(init), last.0, last.1, name);
        if 0 <= i < pairs.len() {
            law_lookup_after_set(collected(init), last.0, last.1, pairs[i].0);
            if i < init.len() {
                assert(init[i] == pairs[i]);
                if forall|j: int| i < j < pairs.len() ==> (#[trigger] pairs[j]).0 != pairs[i].0 {
                    assert(last.0 != pairs[i].0);
                    assert forall|j: int| i < j < init.len() implies (#[trigger] init[j]).0
                        != init[i].0 by {
                        assert(init[j] == pairs[j]);
                    }
                }
            }
        }
        if forall|j: int| 0 <= j < pairs.len() ==> (#[trigger] pairs[j]).0 != name {
            assert(last.0 != name);
            assert forall|j: int| 0 <= j < init.len() implies (#[trigger] init[j]).0 != name by {
                assert(init[j] == pairs[j]);
            }
        }
    }
}

/// A projection is the fields whose names are listed, in their order.
pub proof fn law_projection_selects_fields(
    fields: Seq<(Seq<char>, Datum)>,
    names: Seq<Seq<char>>,
)
    ensures
        projected(fields, names) == fields.filter(|f: (Seq<char>, Datum)| names.contains(f.0)),
    decreases fields.len(),
{
    reveal(Seq::filter);
    if fields.len() > 0 {
        law_projection_selects_fields(fields.drop_last(), names);
    }
}

/// Fields are equal exactly where every name is in both with equal values, or in neither.
pub proof fn law_equal_fields_look_up_alike(
    a: Seq<(Seq<char>, Datum)>,
    b: Seq<(Seq<char>, Datum)>,
)
    requires
        names_sorted(a),
        names_sorted(b),
    ensures
        same_fields(a, b) <==> forall|name: Seq<char>|
            match (#[trigger] lookup(a, name), lookup(b, name)) {
                (Some(x), Some(y)) => same_value(x, y),
                (None, None) => true,
                _ => false,
            },
{
    if same_fields(a, b) {
        assert forall|name: Seq<char>|
            match (#[trigger] lookup(a, name), lookup(b, name)) {
                (Some(x), Some(y)) => same_value(x, y),
                (None, None) => true,
                _ => false,
            } by {
            if exists|i: int| 0 <= i < a.len() && (#[trigger] a[i]).0 == name {
                let i = choose|i: int| 0 <= i < a.len() && (#[trigger] a[i]).0 == name;
                lemma_lookup_at(a, i);
                lemma_lookup_at(b, i);
            } else if exists|i: int| 0 <= i < b.len() && (#[trigger] b[i]).0 == name {
                let i = choose|i: int| 0 <= i < b.len() && (#[trigger] b[i]).0 == name;
                assert(a[i].0 == name);
            }
        }
    }
    if forall|name: Seq<char>|
        match (#[trigger] lookup(a, name), lookup(b, name)) {
            (Some(x), Some(y)) => same_value(x, y),
            (None, None) => true,
            _ => false,
        } {
        assert forall|i: int| 0 <= i < a.len() implies has_name(b, #[trigger] a[i].0) by {
            lemma_lookup_at(a, i);
            assert(lookup(b, a[i].0) is Some);
        }
        assert forall|i: int| 0 <= i < b.len() implies has_name(a, #[trigger] b[i].0) by {
            lemma_lookup_at(b, i);
            assert(lookup(a, b[i].0) is Some);
        }
        lemma_same_names(a, b);
        assert forall|i: int| 0 <= i < a.len() implies (#[trigger] a[i]).0 == b[i].0 && same_value(
            a[i].1,
            b[i].1,
        ) by {
            lemma_lookup_at(a, i);
            lemma_lookup_at(b, i);
            assert(lookup(a, a[i].0) is Some);
        }
    }
}

/// Whether a field has a name.
spec fn has_name(fields: Seq<(Seq<char>, Datum)>, name: Seq<char>) -> bool {
    exists|i: int| 0 <= i < fields.len() && (#[trigger] fields[i]).0 == name
}

/// Fields with the same names have them at the same places.
proof fn lemma_same_names(a: Seq<(Seq<char>, Datum)>, b: Seq<(Seq<char>, Datum)>)
    requires
        names_sorted(a),
        names_sorted(b),
        forall|i: int| 0 <= i < a.len() ==> has_name(b, #[trigger] a[i].0),
        forall|i: int| 0 <= i < b.len() ==> has_name(a, #[trigger] b[i].0),
    ensures
        a.len() == b.len(),
        forall|i: int| 0 <= i < a.len() ==> (#[trigger] a[i]).0 == b[i].0,
    decreases a.len(),
{
    if a.len() == 0 {
        if b.len() > 0 {
            assert(has_name(a, b[0].0));
        }
    } else {
        let n = a.len() - 1;
        assert(has_name(b, a[n].0));
        let m = b.len() - 1;
        assert(has_name(a, b[m].0));
        let i = choose|i: int| 0 <= i < b.len() && (#[trigger] b[i]).0 == a[n].0;
        let j = choose|j: int| 0 <= j < a.len() && (#[trigger] a[j]).0 == b[m].0;
        lemma_name_order(a[n].0, b[m].0, a[n].0);
        if i < m {
            assert(name_lt(b[i].0, b[m].0));
            if j < n {
                assert(name_lt(a[j].0, a[n].0));
            }
        }
        assert(a[n].0 == b[m].0);
        let a0 = a.drop_last();
        let b0 = b.drop_last();
        lemma_name_order(a[n].0, a[n].0, a[n].0);
        assert forall|k: int| 0 <= k < a0.len() implies has_name(b0, #[trigger] a0[k].0) by {
            assert(has_name(b, a[k].0));
            let l = choose|l: int| 0 <= l < b.len() && (#[trigger] b[l]).0 == a[k].0;
            assert(name_lt(a[k].0, a[n].0));
            assert(b0[l].0 == a0[k].0);
        }
        assert forall|k: int| 0 <= k < b0.len() implies has_name(a0, #[trigger] b0[k].0) by {
            assert(has_name(a, b[k].0));
            let l = choose|l: int| 0 <= l < a.len() && (#[trigger] a[l]).0 == b[k].0;
            assert(name_lt(b[k].0, b[m].0));
            assert(a0[l].0 == b0[k].0);
        }
        lemma_same_names(a0, b0);
        assert forall|k: int| 0 <= k < a.len() implies (#[trigger] a[k]).0 == b[k].0 by {
            if k < n {
                assert(a0[k].0 == b0[k].0);
            }
        }
    }
}

/// The lowest bit of the flags marks a deletion and the next one a partial view.
pub proof fn law_flags(d: Doc)
    ensures
        deleted(d) <==> d.flags % 2 == 1,
        partial(d) <==> (d.flags / 2) % 2 == 1,
{
    let flags = d.flags;
    assert(flags & 0x01u8 != 0 <==> flags % 2 == 1) by (bit_vector);
    assert(flags & 0x02u8 != 0 <==> (flags / 2) % 2 == 1) by (bit_vector);
}

/// A projection changes nothing of a document but its fields and the mark of a partial view.
pub proof fn law_projection_marks(d: Doc, names: Seq<Seq<char>>)
    ensures
        projection(d, names).id == d.id,
        projection(d, names).version == d.version,
        projection(d, names).flags == (if (d.flags / 2) % 2 == 1 {
            d.flags as int
        } else {
            d.flags + 2
        }),
        projection(d, names).fields == d.fields.filter(
            |f: (Seq<char>, Datum)| names.contains(f.0),
        ),
{
    let flags = d.flags;
    assert((flags / 2) % 2 == 1 ==> flags | 0x02u8 == flags) by (bit_vector);
    assert((flags / 2) % 2 != 1 ==> flags | 0x02u8 == flags + 2) by (bit_vector);
    law_projection_selects_fields(d.fields, names);
}

/// A tombstone has the identity of the document that it deletes, is marked as deleted and as
/// nothing else, has no field, and no version yet.
pub proof fn law_tombstone_is_empty(id: Seq<u8>)
    requires
        id.len() == 16,
    ensures
        valid_doc(tombstone_of(id)),
        tombstone_of(id).id == id,
        tombstone_of(id).flags == 1,
        tombstone_of(id).fields.len() == 0,
        tombstone_of(id).version.len() == 16,
        forall|i: int| 0 <= i < 16 ==> #[trigger] tombstone_of(id).version[i] == 0,
{
}

/// `_id` and `_version` give the identifiers of a document, and every other name the value of
/// the field that has it.
pub proof fn law_field_values(d: Doc, name: Seq<char>, value: Datum)
    requires
        valid_doc(d),
    ensures
        field_value(d, "_id"@) == Some(Datum::Uuid(d.id)),
        field_value(d, "_version"@) == Some(Datum::Uuid(d.version)),
        name != "_id"@ && name != "_version"@ ==> (field_value(d, name) == Some(value)
            <==> d.fields.contains((name, value))),
        name != "_id"@ && name != "_version"@ ==> (field_value(d, name) is None <==> forall|i: int|
            0 <= i < d.fields.len() ==> (#[trigger] d.fields[i]).0 != name),
{
    reveal_strlit("_id");
    reveal_strlit("_version");
    law_lookup_finds_field(d.fields, name, value);
    assert("_id"@.len() != "_version"@.len());
}

/// Fields that fit and have the same bytes are the same fields.
proof fn lemma_fields_bytes_unique(
    a: Seq<(Seq<char>, Datum)>,
    b: Seq<(Seq<char>, Datum)>,
)
    requires
        encodable(Datum::Document(a)),
        encodable(Datum::Document(b)),
        encoding_of_fields(a) == encoding_of_fields(b),
        a.len() <= b.len(),
    ensures
        a == b,
{
    let bytes = encoding_of_fields(a);
    let n = a.len() as int;
    let head = b.take(n);
    let da = Datum::Document(a);
    let db = Datum::Document(b);
    assert(da->Document_0 == a && db->Document_0 == b);
    assert(bytes.subrange(0, bytes.len() as int) =~= bytes);
    lemma_fields_at(a, 0, bytes, 0);
    assert(a.take(0) =~= seq![]);
    assert(a.skip(0) =~= a);
    lemma_fields_prefix(b, n);
    assert(bytes.subrange(0, encoding_of_fields(head).len() as int) =~= encoding_of_fields(head));
    assert forall|j: int| 0 <= j < head.len() implies encode_utf8((#[trigger] head[j]).0).len()
        <= u32::MAX && encodable(head[j].1) by {
        assert(head[j] == b[j]);
    }
    assert(holds_at(bytes, 0, encoding_of_fields(head)));
    lemma_fields_at(head, 0, bytes, 0);
    assert(head.take(0) =~= seq![]);
    assert(head.skip(0) =~= head);
    assert(a == head);
    if n < b.len() {
        lemma_fields_prefix(b, n + 1);
        let next = b.take(n + 1);
        assert(next.drop_last() =~= head);
        assert(crate::value::sized(encode_utf8(next.last().0)).len() >= 4) by {
            crate::bytes::lemma_le_len(encode_utf8(next.last().0).len(), 4);
        }
        assert(encoding_of_fields(next).len() > encoding_of_fields(head).len());
    }
    assert(b.take(b.len() as int) =~= b);
}

/// What the content hash is taken of tells documents apart: two documents that differ in
/// identity, version, flags or any field have different bytes to hash.
pub proof fn law_hash_covers_content(a: Doc, b: Doc)
    requires
        fits_blob(a),
        fits_blob(b),
    ensures
        hashable(a) == hashable(b) <==> a == b,
{
    if hashable(a) == hashable(b) {
        let h = hashable(a);
        assert(h.take(16) =~= a.id && hashable(b).take(16) =~= b.id);
        assert(h.subrange(16, 32) =~= a.version && hashable(b).subrange(16, 32) =~= b.version);
        assert(h[32] == a.flags && hashable(b)[32] == b.flags);
        assert(h.skip(33) =~= encoding_of_fields(a.fields));
        assert(hashable(b).skip(33) =~= encoding_of_fields(b.fields));
        if a.fields.len() <= b.fields.len() {
            lemma_fields_bytes_unique(a.fields, b.fields);
        } else {
            lemma_fields_bytes_unique(b.fields, a.fields);
        }
    }
}

/// Different documents have different binary forms.
pub proof fn law_binary_form_is_unique(a: Doc, b: Doc)
    requires
        fits_blob(a),
        fits_blob(b),
        blob_bytes(a) == blob_bytes(b),
    ensures
        a == b,
{
    crate::iblob::law_decode_of_encode(a);
    crate::iblob::law_decode_of_encode(b);
}

/// Bytes decode only where they begin with the magic number and the format version, and where
/// the hash that they hold is that of the document that they give. Identity, version and flags
/// are those that the header holds.
pub proof fn law_decoding_checks_content(buf: Seq<u8>, d: Doc)
    requires
        parse_blob(buf) == Ok::<Doc, BlobFault>(d),
    ensures
        buf.len() >= 75,
        buf.subrange(0, 4) == seq![0x49u8, 0x4E, 0x47, 0x4F],
        buf[4] == 2 && buf[5] == 0,
        d.id == buf.subrange(6, 22),
        d.version == buf.subrange(22, 38),
        d.flags == buf[38],
        content_hash(d) == buf.subrange(39, 71),
        names_sorted(d.fields),
{
    let magic = crate::iblob::MAGIC@;
    assert(magic =~= seq![0x49u8, 0x4E, 0x47, 0x4F]);
    let version = buf.subrange(4, 6);
    assert(version.drop_first().drop_first() =~= seq![]);
    reveal_with_fuel(crate::bytes::from_le, 3);
    assert(version[0] == buf[4] && version.drop_first()[0] == buf[5]);
    let pairs = crate::iblob::parse_entries(buf, crate::iblob::stored_count(buf))->Ok_0;
    lemma_collected_sorted(pairs);
}

proof fn lemma_step_is_injective(a: u32, b: u32)
    ensures
        crc_step(a, 0x82F6_3B78) == crc_step(b, 0x82F6_3B78) ==> a == b,
{
    assert((if a & 1 == 1 {
        (a >> 1) ^ 0x82F6_3B78u32
    } else {
        a >> 1
    }) == (if b & 1 == 1 {
        (b >> 1) ^ 0x82F6_3B78u32
    } else {
        b >> 1
    }) ==> a == b) by (bit_vector);
}

proof fn lemma_steps_are_injective(a: u32, b: u32, n: nat)
    ensures
        crc_steps(a, 0x82F6_3B78, n) == crc_steps(b, 0x82F6_3B78, n) ==> a == b,
    decreases n,
{
    if n > 0 {
        let k = (n - 1) as nat;
        lemma_steps_are_injective(a, b, k);
        lemma_step_is_injective(crc_steps(a, 0x82F6_3B78, k), crc_steps(b, 0x82F6_3B78, k));
    }
}

proof fn lemma_register_tells(a: Seq<u8>, b: Seq<u8>, i: int)
    requires
        a.len() == b.len(),
        0 <= i < a.len(),
        a[i] != b[i],
        forall|j: int| 0 <= j < a.len() && j != i ==> #[trigger] a[j] == b[j],
    ensures
        crc_register(a, 0x82F6_3B78) != crc_register(b, 0x82F6_3B78),
    decreases a.len(),
{
    let n = a.len() - 1;
    let a0 = a.drop_last();
    let b0 = b.drop_last();
    let x = crc_register(a0, 0x82F6_3B78);
    let y = crc_register(b0, 0x82F6_3B78);
    let p = a[n] as u32;
    let q = b[n] as u32;
    lemma_steps_are_injective(x ^ p, y ^ q, 8);
    if i < n {
        lemma_register_tells(a0, b0, i);
        assert(a[n] == b[n]);
        assert(x ^ p == y ^ p ==> x == y) by (bit_vector);
    } else {
        assert(a0 =~= b0);
        assert(x ^ p == x ^ q ==> p == q) by (bit_vector);
    }
}

/// A change of any one byte changes the checksum of the log.
pub proof fn law_checksum_tells_a_changed_byte(a: Seq<u8>, b: Seq<u8>, i: int)
    requires
        a.len() == b.len(),
        0 <= i < a.len(),
        a[i] != b[i],
        forall|j: int| 0 <= j < a.len() && j != i ==> #[trigger] a[j] == b[j],
    ensures
        crc32c(a) != crc32c(b),
{
    lemma_register_tells(a, b, i);
    let x = crc_register(a, 0x82F6_3B78);
    let y = crc_register(b, 0x82F6_3B78);
    assert(x ^ 0xFFFF_FFFFu32 == y ^ 0xFFFF_FFFFu32 ==> x == y) by (bit_vector);
}

/// Recovery stops at a record in which one byte of the document was changed, and gives the
/// documents before it.
pub proof fn law_changed_byte_stops_recovery(
    docs: Seq<Doc>,
    d: Doc,
    changed: Seq<u8>,
    i: int,
    rest: Seq<u8>,
)
    requires
        fits_log(docs),
        blob_bytes(d).len() <= u32::MAX,
        changed.len() == blob_bytes(d).len(),
        0 <= i < changed.len(),
        changed[i] != blob_bytes(d)[i],
        forall|j: int|
            0 <= j < changed.len() && j != i ==> #[trigger] changed[j] == blob_bytes(d)[j],
    ensures
        recovered(
            log_bytes(docs) + (le(changed.len(), 4) + le(crc32c(blob_bytes(d)) as nat, 4) + changed
                + rest),
            0,
        ) == docs,
{
    law_checksum_tells_a_changed_byte(changed, blob_bytes(d), i);
    law_corrupt_record_stops(docs, changed, crc32c(blob_bytes(d)), rest);
}

proof fn lemma_records_concat(x: Seq<Seq<u8>>, y: Seq<Seq<u8>>)
    ensures
        log_records(x + y) == log_records(x) + log_records(y),
    decreases y.len(),
{
    if y.len() == 0 {
        assert(x + y =~= x);
        assert(log_records(x) + log_records(y) =~= log_records(x));
    } else {
        lemma_records_concat(x, y.drop_last());
        assert((x + y).drop_last() =~= x + y.drop_last());
        let last = log_record(y.last());
        assert((x + y).last() == y.last());
        assert((log_records(x) + log_records(y.drop_last())) + last =~= log_records(x) + (
        log_records(y.drop_last()) + last));
    }
}

/// A record is the length of the document's binary form in four bytes, its checksum in four
/// bytes, and the form. The log of documents one after another is the logs of the first and of
/// the others one after another.
pub proof fn law_log_is_its_records(a: Seq<Doc>, b: Seq<Doc>, d: Doc)
    ensures
        log_bytes(Seq::empty()) == Seq::<u8>::empty(),
        log_bytes(a + b) == log_bytes(a) + log_bytes(b),
        log_bytes(seq![d]) == le(blob_bytes(d).len(), 4) + le(crc32c(blob_bytes(d)) as nat, 4)
            + blob_bytes(d),
{
    assert(forms_of(Seq::empty()) =~= seq![]);
    lemma_records_concat(forms_of(a), forms_of(b));
    assert(forms_of(a + b) =~= forms_of(a) + forms_of(b));
    let bytes = blob_bytes(d);
    let one = forms_of(seq![d]);
    assert(one =~= seq![bytes]);
    lemma_one_record(bytes);
}

proof fn lemma_one_record(bytes: Seq<u8>)
    ensures
        log_records(seq![bytes]) == log_record(bytes),
{
    let one = seq![bytes];
    assert(one.drop_last() =~= seq![]);
    assert(log_records(one.drop_last()) =~= seq![]);
    assert(log_records(one) =~= log_record(bytes));
}

/// The size of a log grows by the number of bytes that are appended, as far as 64 bits hold it.
pub proof fn law_log_size_counts_bytes(size: u64, docs: Seq<Doc>)
    ensures
        size + log_bytes(docs).len() <= u64::MAX ==> grown(size, docs) == size + log_bytes(
            docs,
        ).len(),
    decreases docs.len(),
{
    if docs.len() == 0 {
        assert(forms_of(docs) =~= seq![]);
    } else {
        let init = docs.drop_last();
        law_log_size_counts_bytes(size, init);
        assert(forms_of(docs).drop_last() =~= forms_of(init));
        let blob = blob_bytes(docs.last());
        crate::bytes::lemma_le_len(blob.len(), 4);
        crate::bytes::lemma_le_len(crc32c(blob) as nat, 4);
        assert(log_bytes(docs).len() == log_bytes(init).len() + 8 + blob.len());
    }
}

} // verus!
