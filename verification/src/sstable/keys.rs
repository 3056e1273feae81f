//! Sort keys.

use crate::bytes::{
    be, is_prefix, lemma_be_len, lemma_be_order, lemma_lex_common_prefix, lemma_lex_dominates,
    lemma_lex_strict, lemma_lex_terminated, lemma_pow256_values, lex_lt, put_be, put_slice,
};
use crate::hashing::{blake3_digest, blake3_hash};
use crate::iblob::{field_value, Doc, IBlob};
use crate::value::{bits_of_i64, encoding, same_value, value_lt, Datum, Value};
use crate::fields::texts;
use vstd::prelude::*;
use vstd::utf8::encode_utf8;

verus! {

/// Extracts a comparable sort key from an IBlob.
///
/// The extracted key bytes must produce the desired sort order when compared
/// lexicographically. The default implementation (`IdKeyExtractor`) sorts
/// by `_id`. Custom implementations can sort by field values or arbitrary
/// user-defined criteria.
pub trait KeyExtractor {
    /// The sort key of a document.
    spec fn key_of(&self, d: Doc) -> Seq<u8>;

    /// Extract the sort key as bytes.
    fn extract_key(&self, blob: &IBlob) -> (key: Vec<u8>)
        ensures
            key@ == self.key_of(blob@),
    ;
}

/// Default key extractor: sorts by `_id` (DocumentId bytes).
pub struct IdKeyExtractor;

impl KeyExtractor for IdKeyExtractor {
    open spec fn key_of(&self, d: Doc) -> Seq<u8> {
        d.id
    }

    fn extract_key(&self, blob: &IBlob) -> (key: Vec<u8>) {
        vstd::slice::slice_to_vec(blob.id().as_bytes())
    }
}

/// MVCC key extractor: sorts by `(_id, _version)`, 32 bytes total.
/// This enables multiple versions of the same document in one SSTable,
/// with natural binary search on the composite key.
pub struct MvccKeyExtractor;

impl KeyExtractor for MvccKeyExtractor {
    open spec fn key_of(&self, d: Doc) -> Seq<u8> {
        d.id + d.version
    }

    fn extract_key(&self, blob: &IBlob) -> (key: Vec<u8>) {
        let mut key: Vec<u8> = Vec::new();
        put_slice(&mut key, blob.id().as_bytes());
        put_slice(&mut key, blob.version().as_bytes());
        assert(key@ =~= blob@.id + blob@.version);
        key
    }
}

/// The number by which a floating-point bit pattern sorts: negative numbers have all bits
/// flipped, the others only the sign bit. The two zeros are one number.
pub open spec fn sortable_float(bits: u64) -> nat {
    if bits > 0x8000_0000_0000_0000 {
        (u64::MAX - bits) as nat
    } else if bits == 0x8000_0000_0000_0000 {
        0x8000_0000_0000_0000
    } else {
        (bits + 0x8000_0000_0000_0000) as nat
    }
}

/// The comparable encoding of a value: a type tag, then bytes that sort as the values do.
/// Arrays and documents have no order: a digest stands for them.
pub open spec fn comparable(d: Datum) -> Seq<u8> {
    match d {
        Datum::Null => seq![0x00],
        Datum::Bool(b) => seq![
            0x01,
            if b {
                1
            } else {
                0
            },
        ],
        Datum::I64(n) => seq![0x02u8] + be((n + 0x8000_0000_0000_0000) as nat, 8),
        Datum::U64(n) => seq![0x03u8] + be(n as nat, 8),
        Datum::F64(bits) => seq![0x04u8] + be(sortable_float(bits), 8),
        Datum::Text(s) => seq![0x05u8] + encode_utf8(s).push(0),
        Datum::Bytes(b) => seq![0x06u8] + b.push(0),
        Datum::Uuid(id) => seq![0x07u8] + id,
        _ => seq![0x08u8] + blake3_digest(encoding(d))@.subrange(0, 16),
    }
}

/// Encode a Value into bytes that preserve ordering under lexicographic comparison.
///
/// Type tags ensure values of different types don't accidentally compare equal.
/// Within each type, encoding is chosen so that byte comparison matches value comparison.
pub fn encode_comparable_value(value: &Value) -> (buf: Vec<u8>)
    ensures
        buf@ == comparable(value@),
{
    let mut buf: Vec<u8> = Vec::new();
    match value {
        Value::Null => {
            buf.push(0x00);
        },
        Value::Bool(b) => {
            buf.push(0x01);
            buf.push(if *b { 1 } else { 0 });
        },
        Value::I64(n) => {
            buf.push(0x02);
            // Flip the sign so that negative < positive in unsigned byte comparison
            let bits: u64 = bits_of_i64(*n);
            let flipped: u64 = if bits >= 0x8000_0000_0000_0000 {
                bits - 0x8000_0000_0000_0000
            } else {
                bits + 0x8000_0000_0000_0000
            };
            put_be(&mut buf, flipped);
        },
        Value::U64(n) => {
            buf.push(0x03);
            put_be(&mut buf, *n);
        },
        Value::F64(bits) => {
            buf.push(0x04);
            let sortable: u64 = if *bits > 0x8000_0000_0000_0000 {
                u64::MAX - *bits  // negative: flip all bits

            } else if *bits == 0x8000_0000_0000_0000 {
                0x8000_0000_0000_0000  // negative zero equals zero

            } else {
                *bits + 0x8000_0000_0000_0000  // positive: flip sign bit

            };
            put_be(&mut buf, sortable);
        },
        Value::String(s) => {
            buf.push(0x05);
            put_slice(&mut buf, s.as_str().as_bytes());
            buf.push(0x00);  // terminator for proper prefix ordering
        },
        Value::Bytes(b) => {
            buf.push(0x06);
            put_slice(&mut buf, b.as_slice());
            buf.push(0x00);
        },
        Value::Uuid(id) => {
            buf.push(0x07);
            put_slice(&mut buf, id.as_bytes());
        },
        _ => {
            // Complex types: not meaningfully sortable, use hash for determinism
            buf.push(0x08);
            let mut content: Vec<u8> = Vec::new();
            value.encode(&mut content);
            assert(content@ =~= encoding(value@));
            let digest = blake3_hash(content.as_slice());
            put_slice(&mut buf, vstd::slice::slice_subrange(&digest, 0, 16));
        },
    }
    assert(buf@ =~= comparable(value@));
    buf
}

/// The part of a field key that a value gives; a missing field sorts last.
pub open spec fn key_part(value: Option<Datum>) -> Seq<u8> {
    match value {
        Some(d) => comparable(d),
        None => seq![0xFF],
    }
}

/// The concatenated parts of the named fields.
pub open spec fn field_key(names: Seq<Seq<char>>, d: Doc) -> Seq<u8>
    decreases names.len(),
{
    if names.len() == 0 {
        seq![]
    } else {
        field_key(names.drop_last(), d) + key_part(field_value(d, names.last()))
    }
}

/// Key extractor that sorts by specified field values.
/// Multi-field keys are the concatenation of each field's comparable encoding.
pub struct FieldKeyExtractor {
    fields: Vec<String>,
}

impl FieldKeyExtractor {
    /// The names of the fields, most significant first.
    pub closed spec fn names(&self) -> Seq<Seq<char>> {
        texts(self.fields@)
    }

    pub fn new(fields: Vec<String>) -> (extractor: Self)
        ensures
            extractor.names() == texts(fields@),
    {
        FieldKeyExtractor { fields }
    }
}

impl KeyExtractor for FieldKeyExtractor {
    open spec fn key_of(&self, d: Doc) -> Seq<u8> {
        field_key(self.names(), d)
    }

    fn extract_key(&self, blob: &IBlob) -> (key: Vec<u8>) {
        let ghost names = self.names();
        let mut key: Vec<u8> = Vec::new();
        let n: usize = self.fields.len();
        let mut i: usize = 0;
        assert(names.take(0) =~= seq![]);
        while i < n
            invariant
                n == self.fields@.len(),
                names == texts(self.fields@),
                i <= n,
                key@ == field_key(names.take(i as int), blob@),
            decreases n - i,
        {
            match blob.get_field(self.fields[i].as_str()) {
                Some(value) => put_slice(&mut key, encode_comparable_value(&value).as_slice()),
                None => key.push(0xFF),  // null sorts last
            }
            proof {
                assert(names.take(i + 1).drop_last() =~= names.take(i as int));
                assert(key@ =~= field_key(names.take(i + 1), blob@));
            }
            i += 1;
        }
        assert(names.take(n as int) =~= names);
        key
    }
}

/// MVCC keys sort by identity, then by version.
pub proof fn law_mvcc_key_order(a: Doc, b: Doc)
    requires
        a.id.len() == 16,
        b.id.len() == 16,
    ensures
        lex_lt(MvccKeyExtractor.key_of(a), MvccKeyExtractor.key_of(b)) <==> lex_lt(a.id, b.id) || (
        a.id == b.id && lex_lt(a.version, b.version)),
{
    if a.id == b.id {
        lemma_lex_common_prefix(a.id, a.version, b.version);
        lemma_lex_strict(a.id, b.id);
    } else {
        assert(b.id.take(16) =~= b.id && a.id.take(16) =~= a.id);
        crate::bytes::lemma_lex_total(a.id, b.id);
        lemma_lex_dominates(a.id, b.id, a.version, b.version);
        lemma_lex_dominates(b.id, a.id, b.version, a.version);
        lemma_lex_strict(a.id, b.id);
        lemma_lex_strict(a.id + a.version, b.id + b.version);
    }
}

/// The type tag of a comparable encoding. Arrays and documents share one.
pub open spec fn type_tag(d: Datum) -> u8 {
    comparable(d)[0]
}

/// Values of types with different tags have different encodings, in the order of the tags.
pub proof fn law_types_do_not_collide(a: Datum, b: Datum)
    requires
        type_tag(a) != type_tag(b),
    ensures
        comparable(a) != comparable(b),
        lex_lt(comparable(a), comparable(b)) <==> type_tag(a) < type_tag(b),
{
}

/// Byte order is value order within each type that has one.
pub proof fn law_comparable_order(a: Datum, b: Datum)
    ensures
        value_lt(a, b) ==> lex_lt(comparable(a), comparable(b)),
{
    lemma_pow256_values();
    if value_lt(a, b) {
        let tag = seq![type_tag(a)];
        match (a, b) {
            (Datum::Bool(x), Datum::Bool(y)) => {
                reveal_with_fuel(lex_lt, 3);
            },
            (Datum::I64(x), Datum::I64(y)) => {
                let m = (x + 0x8000_0000_0000_0000) as nat;
                let n = (y + 0x8000_0000_0000_0000) as nat;
                lemma_be_order(m, n, 8);
                lemma_lex_common_prefix(tag, be(m, 8), be(n, 8));
            },
            (Datum::U64(x), Datum::U64(y)) => {
                lemma_be_order(x as nat, y as nat, 8);
                lemma_lex_common_prefix(tag, be(x as nat, 8), be(y as nat, 8));
            },
            (Datum::F64(x), Datum::F64(y)) => {
                lemma_be_order(sortable_float(x), sortable_float(y), 8);
                lemma_lex_common_prefix(
                    tag,
                    be(sortable_float(x), 8),
                    be(sortable_float(y), 8),
                );
            },
            (Datum::Text(x), Datum::Text(y)) => {
                lemma_lex_terminated(encode_utf8(x), encode_utf8(y));
                lemma_lex_common_prefix(tag, encode_utf8(x).push(0), encode_utf8(y).push(0));
            },
            (Datum::Bytes(x), Datum::Bytes(y)) => {
                lemma_lex_terminated(x, y);
                lemma_lex_common_prefix(tag, x.push(0), y.push(0));
            },
            _ => {},
        }
    }
}

/// Equal values have equal encodings, whatever their bits. Arrays and documents have no place
/// in the order: their encodings tell only whether their binary forms are equal.
pub proof fn law_equal_values_encode_equally(a: Datum, b: Datum)
    requires
        same_value(a, b),
        !(a is Array),
        !(a is Document),
    ensures
        comparable(a) == comparable(b),
{
}

/// Identifiers sort as their bytes do.
pub proof fn law_comparable_uuid_order(a: Seq<u8>, b: Seq<u8>)
    ensures
        lex_lt(comparable(Datum::Uuid(a)), comparable(Datum::Uuid(b))) <==> lex_lt(a, b),
{
    lemma_lex_common_prefix(seq![0x07u8], a, b);
}

/// A missing field sorts after every value.
pub proof fn law_missing_sorts_last(d: Datum)
    ensures
        lex_lt(key_part(Some(d)), key_part(None)),
{
}

/// Whether no byte is zero.
pub open spec fn no_zero(bytes: Seq<u8>) -> bool {
    forall|i: int| 0 <= i < bytes.len() ==> #[trigger] bytes[i] != 0
}

/// Whether a value's encoding ends where its content says: it has a fixed width, or no
/// terminator occurs before its end.
pub open spec fn self_delimiting(d: Datum) -> bool {
    match d {
        Datum::Text(s) => no_zero(encode_utf8(s)),
        Datum::Bytes(b) => no_zero(b),
        Datum::Uuid(id) => id.len() == 16,
        _ => true,
    }
}

proof fn lemma_terminated_prefix_free(a: Seq<u8>, b: Seq<u8>, tag: u8)
    requires
        no_zero(b),
        is_prefix(seq![tag] + a.push(0), seq![tag] + b.push(0)),
    ensures
        a == b,
{
    let x = seq![tag] + a.push(0);
    let y = seq![tag] + b.push(0);
    assert(y.take(x.len() as int) == x);
    if a.len() < b.len() {
        assert(x[1 + a.len() as int] == 0);
        assert(y[1 + a.len() as int] == b[a.len() as int]);
    }
    assert forall|i: int| 0 <= i < a.len() implies a[i] == b[i] by {
        assert(x[1 + i] == y[1 + i]);
    }
    assert(a =~= b);
}

/// Where a value ends is seen from its encoding: no encoding begins a different one.
proof fn lemma_prefix_free(a: Datum, b: Datum)
    requires
        self_delimiting(a),
        self_delimiting(b),
        comparable(a) != comparable(b),
    ensures
        !is_prefix(comparable(a), comparable(b)),
{
    let x = comparable(a);
    let y = comparable(b);
    if is_prefix(x, y) {
        assert(x[0] == y[0]);
        lemma_be_len(0, 8);
        match (a, b) {
            (Datum::Text(s), Datum::Text(t)) => {
                lemma_terminated_prefix_free(encode_utf8(s), encode_utf8(t), 0x05);
            },
            (Datum::Bytes(s), Datum::Bytes(t)) => {
                lemma_terminated_prefix_free(s, t, 0x06);
            },
            (Datum::I64(m), Datum::I64(n)) => {
                lemma_be_len((m + 0x8000_0000_0000_0000) as nat, 8);
                lemma_be_len((n + 0x8000_0000_0000_0000) as nat, 8);
            },
            (Datum::U64(m), Datum::U64(n)) => {
                lemma_be_len(m as nat, 8);
                lemma_be_len(n as nat, 8);
            },
            (Datum::F64(m), Datum::F64(n)) => {
                lemma_be_len(sortable_float(m), 8);
                lemma_be_len(sortable_float(n), 8);
            },
            _ => {},
        }
        assert(x.len() == y.len());
        assert(y.take(x.len() as int) =~= y);
    }
}

/// The parts of the first `n` names.
proof fn lemma_field_key_split(names: Seq<Seq<char>>, d: Doc, k: int) -> (rest: Seq<u8>)
    requires
        0 <= k < names.len(),
    ensures
        field_key(names, d) == field_key(names.take(k), d) + (key_part(field_value(d, names[k]))
            + rest),
    decreases names.len(),
{
    let init = names.drop_last();
    if k == names.len() - 1 {
        assert(names.take(k) =~= init);
        let rest: Seq<u8> = seq![];
        let part = key_part(field_value(d, names[k]));
        assert(part + rest =~= part);
        rest
    } else {
        let shorter = lemma_field_key_split(init, d, k);
        let last = key_part(field_value(d, names.last()));
        assert(init.take(k) =~= names.take(k));
        let rest = shorter + last;
        assert(field_key(names, d) =~= field_key(names.take(k), d) + (key_part(
            field_value(d, names[k]),
        ) + rest));
        rest
    }
}

/// Keys of several fields sort by the first field in which they differ. Text and byte values
/// must not hold the terminator.
pub proof fn law_first_difference_decides(
    names: Seq<Seq<char>>,
    a: Doc,
    b: Doc,
    k: int,
)
    requires
        0 <= k < names.len(),
        field_key(names.take(k), a) == field_key(names.take(k), b),
        field_value(a, names[k]) matches Some(v) ==> self_delimiting(v),
        field_value(b, names[k]) matches Some(v) ==> self_delimiting(v),
        lex_lt(key_part(field_value(a, names[k])), key_part(field_value(b, names[k]))),
    ensures
        lex_lt(field_key(names, a), field_key(names, b)),
{
    let ra = lemma_field_key_split(names, a, k);
    let rb = lemma_field_key_split(names, b, k);
    let pa = key_part(field_value(a, names[k]));
    let pb = key_part(field_value(b, names[k]));
    lemma_lex_strict(pa, pb);
    match (field_value(a, names[k]), field_value(b, names[k])) {
        (Some(x), Some(y)) => {
            lemma_prefix_free(x, y);
        },
        (Some(x), None) => {
            if is_prefix(pa, pb) {
                assert(pb.take(pa.len() as int)[0] == pa[0]);
            }
        },
        (None, Some(y)) => {
            assert(pa[0] == 0xFF && pb[0] != 0xFF);
        },
        (None, None) => {},
    }
    lemma_lex_dominates(pa, pb, ra, rb);
    lemma_lex_common_prefix(field_key(names.take(k), a), pa + ra, pb + rb);
}

} // verus!
