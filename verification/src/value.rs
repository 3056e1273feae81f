//! Tagged values and their binary encoding.

use crate::bytes::{clamped, from_le, get_le, le, lex_lt, put_le, put_slice};
use crate::document_id::DocumentId;
use crate::error::{BlobError, BlobFault};
use crate::text::string_from_utf8;
use vstd::prelude::*;
use vstd::utf8::{decode_utf8, encode_utf8, valid_utf8};

verus! {

/// Tagged value types supported by IngoDB.
///
/// These are the "standard library" of primitives that the engine understands
/// natively for indexing and comparison. Everything else is opaque bytes.
#[derive(Debug)]
pub enum Value {
    /// Null / missing value
    Null,
    /// Boolean
    Bool(bool),
    /// Signed 64-bit integer
    I64(i64),
    /// Unsigned 64-bit integer
    U64(u64),
    /// 64-bit floating point, held as its IEEE 754 bit pattern
    F64(u64),
    /// UTF-8 string
    String(String),
    /// Raw bytes (opaque to the engine)
    Bytes(Vec<u8>),
    /// UUID value (16 bytes). Often used to store document IDs as field values.
    Uuid(DocumentId),
    /// Ordered list of values
    Array(Vec<Value>),
    /// Nested document (key-value pairs)
    Document(Vec<(String, Value)>),
}

/// A [`Value`] as a mathematical value.
pub enum Datum {
    Null,
    Bool(bool),
    I64(i64),
    U64(u64),
    F64(u64),
    Text(Seq<char>),
    Bytes(Seq<u8>),
    Uuid(Seq<u8>),
    Array(Seq<Datum>),
    Document(Seq<(Seq<char>, Datum)>),
}

/// The mathematical value that a [`Value`] stands for.
pub open spec fn datum(v: Value) -> Datum
    decreases v,
{
    match v {
        Value::Null => Datum::Null,
        Value::Bool(b) => Datum::Bool(b),
        Value::I64(n) => Datum::I64(n),
        Value::U64(n) => Datum::U64(n),
        Value::F64(n) => Datum::F64(n),
        Value::String(s) => Datum::Text(s@),
        Value::Bytes(b) => Datum::Bytes(b@),
        Value::Uuid(id) => Datum::Uuid(id@),
        Value::Array(items) => Datum::Array(
            Seq::new(
                items@.len(),
                |i: int|
                    if 0 <= i < items@.len() {
                        datum(items@[i])
                    } else {
                        Datum::Null
                    },
            ),
        ),
        Value::Document(fields) => Datum::Document(
            Seq::new(
                fields@.len(),
                |i: int|
                    if 0 <= i < fields@.len() {
                        (fields@[i].0@, datum(fields@[i].1))
                    } else {
                        (Seq::empty(), Datum::Null)
                    },
            ),
        ),
    }
}

impl View for Value {
    type V = Datum;

    open spec fn view(&self) -> Datum {
        datum(*self)
    }
}

/// The items of an array as mathematical values.
pub open spec fn item_views(items: Seq<Value>) -> Seq<Datum> {
    Seq::new(items.len(), |i: int| items[i]@)
}

/// The fields of a nested document as mathematical values.
pub open spec fn field_views(fields: Seq<(String, Value)>) -> Seq<(Seq<char>, Datum)> {
    Seq::new(fields.len(), |i: int| (fields[i].0@, fields[i].1@))
}

proof fn lemma_array_view(items: Vec<Value>)
    ensures
        Value::Array(items)@ == Datum::Array(item_views(items@)),
{
    let v = Value::Array(items);
    assert(v@->Array_0 =~= item_views(items@));
}

proof fn lemma_document_view(fields: Vec<(String, Value)>)
    ensures
        Value::Document(fields)@ == Datum::Document(field_views(fields@)),
{
    let v = Value::Document(fields);
    assert(v@->Document_0 =~= field_views(fields@));
}

// Type tags for binary encoding
pub const TAG_NULL: u8 = 0;

pub const TAG_BOOL: u8 = 1;

pub const TAG_I64: u8 = 2;

pub const TAG_U64: u8 = 3;

pub const TAG_F64: u8 = 4;

pub const TAG_STRING: u8 = 5;

pub const TAG_BYTES: u8 = 6;

pub const TAG_UUID: u8 = 7;

pub const TAG_ARRAY: u8 = 8;

pub const TAG_DOCUMENT: u8 = 9;

/// The two's complement bit pattern of a signed integer.
pub open spec fn i64_bits(v: i64) -> nat {
    if v >= 0 {
        v as nat
    } else {
        (v + 0x1_0000_0000_0000_0000) as nat
    }
}

/// The signed integer with a given two's complement bit pattern.
pub open spec fn bits_i64(bits: nat) -> i64 {
    if bits < 0x8000_0000_0000_0000 {
        bits as i64
    } else {
        (bits - 0x1_0000_0000_0000_0000) as i64
    }
}

/// A byte string behind its length in four bytes.
pub open spec fn sized(bytes: Seq<u8>) -> Seq<u8> {
    le(bytes.len(), 4) + bytes
}

/// The binary encoding of a value: its tag, then its content.
pub open spec fn encoding(d: Datum) -> Seq<u8>
    decreases d,
{
    match d {
        Datum::Null => seq![TAG_NULL],
        Datum::Bool(b) => seq![
            TAG_BOOL,
            if b {
                1
            } else {
                0
            },
        ],
        Datum::I64(v) => seq![TAG_I64] + le(i64_bits(v), 8),
        Datum::U64(v) => seq![TAG_U64] + le(v as nat, 8),
        Datum::F64(v) => seq![TAG_F64] + le(v as nat, 8),
        Datum::Text(s) => seq![TAG_STRING] + sized(encode_utf8(s)),
        Datum::Bytes(b) => seq![TAG_BYTES] + sized(b),
        Datum::Uuid(id) => seq![TAG_UUID] + id,
        Datum::Array(items) => seq![TAG_ARRAY] + le(items.len(), 4) + encoding_of_items(items),
        Datum::Document(fields) => seq![TAG_DOCUMENT] + le(fields.len(), 4) + encoding_of_fields(
            fields,
        ),
    }
}

/// The encodings of the items of an array, one after another.
pub open spec fn encoding_of_items(items: Seq<Datum>) -> Seq<u8>
    decreases items,
{
    if items.len() == 0 {
        seq![]
    } else {
        encoding_of_items(items.drop_last()) + encoding(items.last())
    }
}

/// The keys and values of a nested document, one field after another.
pub open spec fn encoding_of_fields(fields: Seq<(Seq<char>, Datum)>) -> Seq<u8>
    decreases fields,
{
    if fields.len() == 0 {
        seq![]
    } else {
        encoding_of_fields(fields.drop_last()) + sized(encode_utf8(fields.last().0)) + encoding(
            fields.last().1,
        )
    }
}

/// The error for a read of `need` bytes at `offset` that the buffer does not hold.
pub open spec fn too_short(buf: Seq<u8>, offset: int, need: int) -> BlobFault {
    BlobFault::BufferTooShort { need: clamped(offset + need), have: buf.len() }
}

/// The bytes left from `offset` on.
pub open spec fn remaining(buf: Seq<u8>, offset: int) -> nat {
    if offset < buf.len() {
        (buf.len() - offset) as nat
    } else {
        0
    }
}

/// The length-prefixed byte string at `pos`.
pub open spec fn parse_sized(buf: Seq<u8>, pos: int) -> Result<Seq<u8>, BlobFault> {
    if pos + 4 > buf.len() {
        Err(too_short(buf, pos, 4))
    } else {
        let len = from_le(buf.subrange(pos, pos + 4));
        if pos + 4 + len > buf.len() {
            Err(too_short(buf, pos + 4, len as int))
        } else {
            Ok(buf.subrange(pos + 4, pos + 4 + len))
        }
    }
}

/// The length-prefixed text at `pos`, and the number of bytes of its encoding.
pub open spec fn parse_text(buf: Seq<u8>, pos: int) -> Result<(Seq<char>, nat), BlobFault> {
    match parse_sized(buf, pos) {
        Err(e) => Err(e),
        Ok(bytes) => if valid_utf8(bytes) {
            Ok((decode_utf8(bytes), bytes.len()))
        } else {
            Err(BlobFault::InvalidUtf8)
        },
    }
}

/// What decoding the value at `offset` gives: the value and the bytes it took, or the error.
pub open spec fn parse_value(buf: Seq<u8>, offset: int) -> Result<(Datum, nat), BlobFault>
    decreases remaining(buf, offset), 0nat,
{
    if offset >= buf.len() {
        Err(too_short(buf, offset, 1))
    } else {
        let tag = buf[offset];
        let pos = offset + 1;
        if tag == TAG_NULL {
            Ok((Datum::Null, 1))
        } else if tag == TAG_BOOL {
            if pos + 1 > buf.len() {
                Err(too_short(buf, pos, 1))
            } else {
                Ok((Datum::Bool(buf[pos] != 0), 2))
            }
        } else if tag == TAG_I64 || tag == TAG_U64 || tag == TAG_F64 {
            if pos + 8 > buf.len() {
                Err(too_short(buf, pos, 8))
            } else {
                let bits = from_le(buf.subrange(pos, pos + 8));
                if tag == TAG_I64 {
                    Ok((Datum::I64(bits_i64(bits)), 9))
                } else if tag == TAG_U64 {
                    Ok((Datum::U64(bits as u64), 9))
                } else {
                    Ok((Datum::F64(bits as u64), 9))
                }
            }
        } else if tag == TAG_STRING {
            match parse_text(buf, pos) {
                Err(e) => Err(e),
                Ok((s, n)) => Ok((Datum::Text(s), 5 + n)),
            }
        } else if tag == TAG_BYTES {
            match parse_sized(buf, pos) {
                Err(e) => Err(e),
                Ok(b) => Ok((Datum::Bytes(b), 5 + b.len())),
            }
        } else if tag == TAG_UUID {
            if pos + 16 > buf.len() {
                Err(too_short(buf, pos, 16))
            } else {
                Ok((Datum::Uuid(buf.subrange(pos, pos + 16)), 17))
            }
        } else if tag == TAG_ARRAY || tag == TAG_DOCUMENT {
            if pos + 4 > buf.len() {
                Err(too_short(buf, pos, 4))
            } else {
                let count = from_le(buf.subrange(pos, pos + 4));
                if tag == TAG_ARRAY {
                    match parse_items(buf, pos + 4, count) {
                        Err(e) => Err(e),
                        Ok((items, n)) => Ok((Datum::Array(items), 5 + n)),
                    }
                } else {
                    match parse_fields(buf, pos + 4, count) {
                        Err(e) => Err(e),
                        Ok((fields, n)) => Ok((Datum::Document(fields), 5 + n)),
                    }
                }
            }
        } else {
            Err(BlobFault::UnknownValueType(tag))
        }
    }
}

/// What decoding `count` values from `pos` on gives.
pub open spec fn parse_items(buf: Seq<u8>, pos: int, count: nat) -> Result<
    (Seq<Datum>, nat),
    BlobFault,
>
    decreases remaining(buf, pos), count,
{
    if count == 0 {
        Ok((seq![], 0))
    } else {
        match parse_value(buf, pos) {
            Err(e) => Err(e),
            Ok((d, n)) => match parse_items(buf, pos + n, (count - 1) as nat) {
                Err(e) => Err(e),
                Ok((ds, m)) => Ok((seq![d] + ds, n + m)),
            },
        }
    }
}

/// What decoding `count` keys and values from `pos` on gives.
pub open spec fn parse_fields(buf: Seq<u8>, pos: int, count: nat) -> Result<
    (Seq<(Seq<char>, Datum)>, nat),
    BlobFault,
>
    decreases remaining(buf, pos), count,
{
    if count == 0 {
        Ok((seq![], 0))
    } else {
        match parse_text(buf, pos) {
            Err(e) => Err(e),
            Ok((key, k)) => match parse_value(buf, pos + 4 + k) {
                Err(e) => Err(e),
                Ok((d, n)) => match parse_fields(buf, pos + 4 + k + n, (count - 1) as nat) {
                    Err(e) => Err(e),
                    Ok((ds, m)) => Ok((seq![(key, d)] + ds, 4 + k + n + m)),
                },
            },
        }
    }
}

/// The two's complement bit pattern of a signed integer.
pub fn bits_of_i64(v: i64) -> (bits: u64)
    ensures
        bits == i64_bits(v),
{
    if v >= 0 {
        v as u64
    } else {
        u64::MAX - ((-(v + 1)) as u64)
    }
}

/// The signed integer with a given two's complement bit pattern.
pub fn i64_of_bits(bits: u64) -> (v: i64)
    ensures
        v == bits_i64(bits as nat),
{
    if bits < 0x8000_0000_0000_0000 {
        bits as i64
    } else {
        -((u64::MAX - bits) as i64) - 1
    }
}

/// Appends text behind the length of its UTF-8 encoding.
pub fn put_text(buf: &mut Vec<u8>, s: &str)
    ensures
        final(buf)@ == old(buf)@ + sized(encode_utf8(s@)),
{
    let bytes = s.as_bytes();
    put_le(buf, bytes.len() as u64, 4);
    put_slice(buf, bytes);
    assert(buf@ =~= old(buf)@ + sized(encode_utf8(s@)));
}

impl Value {
    /// Encode this value at the end of the buffer, returning bytes written.
    pub fn encode(&self, buf: &mut Vec<u8>) -> (written: usize)
        ensures
            final(buf)@ == old(buf)@ + encoding(self@),
            written == encoding(self@).len(),
        decreases self,
    {
        let ghost start = buf@;
        let before: usize = buf.len();
        match self {
            Value::Null => {
                buf.push(TAG_NULL);
            },
            Value::Bool(b) => {
                buf.push(TAG_BOOL);
                buf.push(if *b { 1 } else { 0 });
            },
            Value::I64(v) => {
                buf.push(TAG_I64);
                put_le(buf, bits_of_i64(*v), 8);
            },
            Value::U64(v) => {
                buf.push(TAG_U64);
                put_le(buf, *v, 8);
            },
            Value::F64(v) => {
                buf.push(TAG_F64);
                put_le(buf, *v, 8);
            },
            Value::String(s) => {
                buf.push(TAG_STRING);
                put_text(buf, s.as_str());
            },
            Value::Bytes(b) => {
                buf.push(TAG_BYTES);
                put_le(buf, b.len() as u64, 4);
                put_slice(buf, b.as_slice());
            },
            Value::Uuid(id) => {
                buf.push(TAG_UUID);
                put_slice(buf, id.as_bytes());
            },
            Value::Array(items) => {
                buf.push(TAG_ARRAY);
                put_le(buf, items.len() as u64, 4);
                let ghost head = buf@;
                let ghost ds = item_views(items@);
                proof {
                    lemma_array_view(*items);
                }
                let n: usize = items.len();
                let mut i: usize = 0;
                while i < n
                    invariant
                        n == items@.len(),
                        i <= n,
                        *self == Value::Array(*items),
                        self@ == Datum::Array(ds),
                        ds == item_views(items@),
                        buf@ == head + encoding_of_items(ds.take(i as int)),
                    decreases n - i,
                {
                    items[i].encode(buf);
                    proof {
                        assert(ds.take(i + 1).drop_last() =~= ds.take(i as int));
                        assert(buf@ =~= head + encoding_of_items(ds.take(i + 1)));
                    }
                    i += 1;
                }
                assert(ds.take(n as int) =~= ds);
            },
            Value::Document(fields) => {
                buf.push(TAG_DOCUMENT);
                put_le(buf, fields.len() as u64, 4);
                let ghost head = buf@;
                let ghost ds = field_views(fields@);
                proof {
                    lemma_document_view(*fields);
                }
                let n: usize = fields.len();
                let mut i: usize = 0;
                while i < n
                    invariant
                        n == fields@.len(),
                        i <= n,
                        *self == Value::Document(*fields),
                        self@ == Datum::Document(ds),
                        ds == field_views(fields@),
                        buf@ == head + encoding_of_fields(ds.take(i as int)),
                    decreases n - i,
                {
                    put_text(buf, fields[i].0.as_str());
                    fields[i].1.encode(buf);
                    proof {
                        assert(ds.take(i + 1).drop_last() =~= ds.take(i as int));
                        assert(buf@ =~= head + encoding_of_fields(ds.take(i + 1)));
                    }
                    i += 1;
                }
                assert(ds.take(n as int) =~= ds);
            },
        }
        assert(buf@ =~= start + encoding(self@));
        buf.len() - before
    }
}

/// Whether `need` more bytes lie at `offset`.
pub fn check_len(buf: &[u8], offset: usize, need: usize) -> (r: Result<(), BlobError>)
    ensures
        r is Ok <==> offset + need <= buf@.len(),
        r matches Err(e) ==> e@ == too_short(buf@, offset as int, need as int),
{
    if offset > buf.len() || need > buf.len() - offset {
        Err(BlobError::BufferTooShort { need: offset.saturating_add(need), have: buf.len() })
    } else {
        Ok(())
    }
}

/// Reads the length-prefixed byte string at `pos`.
pub fn get_sized(buf: &[u8], pos: usize) -> (r: Result<Vec<u8>, BlobError>)
    ensures
        match r {
            Ok(b) => parse_sized(buf@, pos as int) == Ok::<Seq<u8>, BlobFault>(b@) && pos + 4
                + b@.len() <= buf@.len(),
            Err(e) => parse_sized(buf@, pos as int) == Err::<Seq<u8>, BlobFault>(e@),
        },
{
    let total: usize = buf.len();
    match check_len(buf, pos, 4) {
        Err(e) => Err(e),
        Ok(()) => {
            assert(pos + 4 <= total);
            proof {
                crate::bytes::lemma_pow256_values();
            }
            let len: usize = get_le(buf, pos, 4) as u32 as usize;
            match check_len(buf, pos + 4, len) {
                Err(e) => Err(e),
                Ok(()) => Ok(crate::bytes::copy_range(buf, pos + 4, pos + 4 + len)),
            }
        },
    }
}

/// Reads the length-prefixed text at `pos`. Returns (text, bytes of its encoding).
pub fn get_text(buf: &[u8], pos: usize) -> (r: Result<(String, usize), BlobError>)
    ensures
        match r {
            Ok((s, n)) => parse_text(buf@, pos as int) == Ok::<(Seq<char>, nat), BlobFault>(
                (s@, n as nat),
            ) && pos + 4 + n <= buf@.len(),
            Err(e) => parse_text(buf@, pos as int) == Err::<(Seq<char>, nat), BlobFault>(e@),
        },
{
    match get_sized(buf, pos) {
        Err(e) => Err(e),
        Ok(bytes) => {
            let n: usize = bytes.len();
            match string_from_utf8(bytes) {
                None => Err(BlobError::InvalidUtf8),
                Some(s) => Ok((s, n)),
            }
        },
    }
}

/// What [`Value::decode`] returns, as mathematical values.
pub open spec fn decoded_view(r: Result<(Value, usize), BlobError>) -> Result<
    (Datum, nat),
    BlobFault,
> {
    match r {
        Ok((v, n)) => Ok((v@, n as nat)),
        Err(e) => Err(e@),
    }
}

impl Value {
    /// Decode a value from the buffer at the given offset. Returns (value, bytes_consumed).
    pub fn decode(buf: &[u8], offset: usize) -> (r: Result<(Value, usize), BlobError>)
        ensures
            decoded_view(r) == parse_value(buf@, offset as int),
            r matches Ok((_, n)) ==> 1 <= n && offset + n <= buf@.len(),
        decreases buf@.len() - offset, 0int,
    {
        let total: usize = buf.len();
        if offset >= total {
            return Err(
                BlobError::BufferTooShort { need: offset.saturating_add(1), have: total },
            );
        }
        let tag: u8 = buf[offset];
        let pos: usize = offset + 1;
        proof {
            crate::bytes::lemma_pow256_values();
        }
        if tag == TAG_NULL {
            Ok((Value::Null, 1))
        } else if tag == TAG_BOOL {
            match check_len(buf, pos, 1) {
                Err(e) => Err(e),
                Ok(()) => Ok((Value::Bool(buf[pos] != 0), 2)),
            }
        } else if tag == TAG_I64 || tag == TAG_U64 || tag == TAG_F64 {
            match check_len(buf, pos, 8) {
                Err(e) => Err(e),
                Ok(()) => {
                    let bits: u64 = get_le(buf, pos, 8);
                    if tag == TAG_I64 {
                        Ok((Value::I64(i64_of_bits(bits)), 9))
                    } else if tag == TAG_U64 {
                        Ok((Value::U64(bits), 9))
                    } else {
                        Ok((Value::F64(bits), 9))
                    }
                },
            }
        } else if tag == TAG_STRING {
            match get_text(buf, pos) {
                Err(e) => Err(e),
                Ok((s, n)) => Ok((Value::String(s), 5 + n)),
            }
        } else if tag == TAG_BYTES {
            match get_sized(buf, pos) {
                Err(e) => Err(e),
                Ok(b) => {
                    let n: usize = b.len();
                    Ok((Value::Bytes(b), 5 + n))
                },
            }
        } else if tag == TAG_UUID {
            match check_len(buf, pos, 16) {
                Err(e) => Err(e),
                Ok(()) => Ok((Value::Uuid(get_id(buf, pos)), 17)),
            }
        } else if tag == TAG_ARRAY {
            match check_len(buf, pos, 4) {
                Err(e) => Err(e),
                Ok(()) => {
                    let count: u32 = get_le(buf, pos, 4) as u32;
                    match Self::decode_items(buf, pos + 4, count) {
                        Err(e) => Err(e),
                        Ok((items, n)) => {
                            proof {
                                lemma_array_view(items);
                            }
                            Ok((Value::Array(items), 5 + n))
                        },
                    }
                },
            }
        } else if tag == TAG_DOCUMENT {
            match check_len(buf, pos, 4) {
                Err(e) => Err(e),
                Ok(()) => {
                    let count: u32 = get_le(buf, pos, 4) as u32;
                    match Self::decode_fields(buf, pos + 4, count) {
                        Err(e) => Err(e),
                        Ok((fields, n)) => {
                            proof {
                                lemma_document_view(fields);
                            }
                            Ok((Value::Document(fields), 5 + n))
                        },
                    }
                },
            }
        } else {
            Err(BlobError::UnknownValueType(tag))
        }
    }

    fn decode_items(buf: &[u8], start: usize, count: u32) -> (r: Result<
        (Vec<Value>, usize),
        BlobError,
    >)
        requires
            start <= buf@.len(),
        ensures
            match r {
                Ok((items, n)) => parse_items(buf@, start as int, count as nat) == Ok::<
                    (Seq<Datum>, nat),
                    BlobFault,
                >((item_views(items@), n as nat)) && start + n <= buf@.len(),
                Err(e) => parse_items(buf@, start as int, count as nat) == Err::<
                    (Seq<Datum>, nat),
                    BlobFault,
                >(e@),
            },
        decreases buf@.len() - start, 1int,
    {
        let total: usize = buf.len();
        let mut items: Vec<Value> = Vec::new();
        let mut consumed: usize = 0;
        let mut i: u32 = 0;
        assert forall|ds: Seq<Datum>| item_views(items@) + ds == ds by {
            assert(item_views(items@) + ds =~= ds);
        }
        while i < count
            invariant
                total == buf@.len(),
                start + consumed <= total,
                i <= count,
                ({
                    let whole = parse_items(buf@, start as int, count as nat);
                    match parse_items(buf@, start + consumed, (count - i) as nat) {
                        Ok((ds, m)) => whole == Ok::<(Seq<Datum>, nat), BlobFault>(
                            (item_views(items@) + ds, (consumed + m) as nat),
                        ),
                        Err(e) => whole == Err::<(Seq<Datum>, nat), BlobFault>(e),
                    }
                }),
            decreases count - i,
        {
            match Self::decode(buf, start + consumed) {
                Err(e) => {
                    return Err(e);
                },
                Ok((v, n)) => {
                    let ghost before = item_views(items@);
                    items.push(v);
                    proof {
                        assert(item_views(items@) =~= before.push(v@));
                        assert forall|ds: Seq<Datum>|
                            before + (seq![v@] + ds) == item_views(items@) + ds by {
                            assert(before + (seq![v@] + ds) =~= item_views(items@) + ds);
                        }
                    }
                    consumed += n;
                },
            }
            i += 1;
        }
        assert(item_views(items@) + Seq::<Datum>::empty() =~= item_views(items@));
        Ok((items, consumed))
    }

    fn decode_fields(buf: &[u8], start: usize, count: u32) -> (r: Result<
        (Vec<(String, Value)>, usize),
        BlobError,
    >)
        requires
            start <= buf@.len(),
        ensures
            match r {
                Ok((fields, n)) => parse_fields(buf@, start as int, count as nat) == Ok::<
                    (Seq<(Seq<char>, Datum)>, nat),
                    BlobFault,
                >((field_views(fields@), n as nat)) && start + n <= buf@.len(),
                Err(e) => parse_fields(buf@, start as int, count as nat) == Err::<
                    (Seq<(Seq<char>, Datum)>, nat),
                    BlobFault,
                >(e@),
            },
        decreases buf@.len() - start, 1int,
    {
        let total: usize = buf.len();
        let mut fields: Vec<(String, Value)> = Vec::new();
        let mut consumed: usize = 0;
        let mut i: u32 = 0;
        assert forall|ds: Seq<(Seq<char>, Datum)>| field_views(fields@) + ds == ds by {
            assert(field_views(fields@) + ds =~= ds);
        }
        while i < count
            invariant
                total == buf@.len(),
                start + consumed <= total,
                i <= count,
                ({
                    let whole = parse_fields(buf@, start as int, count as nat);
                    match parse_fields(buf@, start + consumed, (count - i) as nat) {
                        Ok((ds, m)) => whole == Ok::<(Seq<(Seq<char>, Datum)>, nat), BlobFault>(
                            (field_views(fields@) + ds, (consumed + m) as nat),
                        ),
                        Err(e) => whole == Err::<(Seq<(Seq<char>, Datum)>, nat), BlobFault>(e),
                    }
                }),
            decreases count - i,
        {
            let (key, klen) = match get_text(buf, start + consumed) {
                Err(e) => {
                    return Err(e);
                },
                Ok(found) => found,
            };
            let (value, n) = match Self::decode(buf, start + consumed + 4 + klen) {
                Err(e) => {
                    return Err(e);
                },
                Ok(found) => found,
            };
            let ghost before = field_views(fields@);
            let ghost entry = (key@, value@);
            fields.push((key, value));
            proof {
                assert(field_views(fields@) =~= before.push(entry));
                assert forall|ds: Seq<(Seq<char>, Datum)>|
                    before + (seq![entry] + ds) == field_views(fields@) + ds by {
                    assert(before + (seq![entry] + ds) =~= field_views(fields@) + ds);
                }
            }
            consumed += 4 + klen + n;
            i += 1;
        }
        assert(field_views(fields@) + Seq::<(Seq<char>, Datum)>::empty() =~= field_views(fields@));
        Ok((fields, consumed))
    }
}

/// Reads the identifier at `pos`.
pub fn get_id(buf: &[u8], pos: usize) -> (id: DocumentId)
    requires
        pos + 16 <= buf@.len(),
    ensures
        id@ == buf@.subrange(pos as int, pos + 16),
{
    let total: usize = buf.len();
    let mut bytes: [u8; 16] = [0; 16];
    let mut i: usize = 0;
    while i < 16
        invariant
            total == buf@.len(),
            pos + 16 <= total,
            i <= 16,
            forall|j: int| 0 <= j < i ==> bytes@[j] == buf@[pos + j],
        decreases 16 - i,
    {
        bytes[i] = buf[pos + i];
        i += 1;
    }
    assert(bytes@ =~= buf@.subrange(pos as int, pos + 16));
    DocumentId::from_bytes(bytes)
}

impl Value {
    /// A deep copy of this value.
    fn duplicate(&self) -> (r: Self)
        ensures
            r@ == self@,
        decreases self,
    {
        match self {
            Value::Null => Value::Null,
            Value::Bool(b) => Value::Bool(*b),
            Value::I64(v) => Value::I64(*v),
            Value::U64(v) => Value::U64(*v),
            Value::F64(v) => Value::F64(*v),
            Value::String(s) => Value::String(s.clone()),
            Value::Bytes(b) => Value::Bytes(vstd::slice::slice_to_vec(b.as_slice())),
            Value::Uuid(id) => Value::Uuid(*id),
            Value::Array(items) => {
                let n: usize = items.len();
                let mut copy: Vec<Value> = Vec::new();
                let mut i: usize = 0;
                while i < n
                    invariant
                        n == items@.len(),
                        i <= n,
                        *self == Value::Array(*items),
                        copy@.len() == i,
                        forall|j: int| 0 <= j < i ==> (#[trigger] copy@[j])@ == items@[j]@,
                    decreases n - i,
                {
                    let item = &items[i];
                    assert(decreases_to!(*self => self->Array_0));
                    copy.push(item.duplicate());
                    i += 1;
                }
                proof {
                    lemma_array_view(*items);
                    lemma_array_view(copy);
                    assert(item_views(copy@) =~= item_views(items@));
                }
                Value::Array(copy)
            },
            Value::Document(fields) => {
                let n: usize = fields.len();
                let mut copy: Vec<(String, Value)> = Vec::new();
                let mut i: usize = 0;
                while i < n
                    invariant
                        n == fields@.len(),
                        i <= n,
                        *self == Value::Document(*fields),
                        copy@.len() == i,
                        forall|j: int|
                            0 <= j < i ==> (#[trigger] copy@[j]).0@ == fields@[j].0@ && copy@[j].1@
                                == fields@[j].1@,
                    decreases n - i,
                {
                    let field = &fields[i];
                    assert(decreases_to!(*self => self->Document_0));
                    copy.push((field.0.clone(), field.1.duplicate()));
                    i += 1;
                }
                proof {
                    lemma_document_view(*fields);
                    lemma_document_view(copy);
                    assert(field_views(copy@) =~= field_views(fields@));
                }
                Value::Document(copy)
            },
        }
    }
}

impl Clone for Value {
    fn clone(&self) -> (r: Self)
        ensures
            r@ == self@,
    {
        self.duplicate()
    }
}

/// The bits of a floating-point number below its sign.
pub open spec fn float_magnitude(bits: u64) -> int {
    bits as int % 0x8000_0000_0000_0000
}

/// Whether the bit pattern is that of a NaN.
pub open spec fn is_nan(bits: u64) -> bool {
    float_magnitude(bits) > 0x7FF0_0000_0000_0000
}

/// A number that orders bit patterns as the floating-point numbers that they stand for,
/// with both zeros at 0.
pub open spec fn float_rank(bits: u64) -> int {
    if bits < 0x8000_0000_0000_0000 {
        float_magnitude(bits)
    } else {
        -float_magnitude(bits)
    }
}

/// Equality of values. Floating-point numbers are equal as numbers: a NaN is equal to
/// nothing, and the two zeros are equal.
pub open spec fn same_value(a: Datum, b: Datum) -> bool
    decreases a,
{
    match (a, b) {
        (Datum::F64(x), Datum::F64(y)) => !is_nan(x) && !is_nan(y) && float_rank(x) == float_rank(
            y,
        ),
        (Datum::Array(xs), Datum::Array(ys)) => xs.len() == ys.len() && forall|i: int|
            0 <= i < xs.len() ==> same_value(#[trigger] xs[i], ys[i]),
        (Datum::Document(xs), Datum::Document(ys)) => xs.len() == ys.len() && forall|i: int|
            0 <= i < xs.len() ==> (#[trigger] xs[i]).0 == ys[i].0 && same_value(xs[i].1, ys[i].1),
        (Datum::Array(_), _) => false,
        (Datum::Document(_), _) => false,
        (Datum::F64(_), _) => false,
        _ => a == b,
    }
}

/// Whether the bit pattern is that of a NaN.
pub fn float_is_nan(bits: u64) -> (r: bool)
    ensures
        r == is_nan(bits),
{
    bits % 0x8000_0000_0000_0000 > 0x7FF0_0000_0000_0000
}

/// Whether two floating-point numbers that are not NaN are in order `a <= b`.
pub fn float_le(a: u64, b: u64) -> (r: bool)
    ensures
        r == (float_rank(a) <= float_rank(b)),
{
    let ma: u64 = a % 0x8000_0000_0000_0000;
    let mb: u64 = b % 0x8000_0000_0000_0000;
    if a < 0x8000_0000_0000_0000 {
        if b < 0x8000_0000_0000_0000 {
            ma <= mb
        } else {
            ma == 0 && mb == 0
        }
    } else if b < 0x8000_0000_0000_0000 {
        true
    } else {
        mb <= ma
    }
}

impl Value {
    /// Whether two values are equal.
    pub fn same(&self, other: &Value) -> (r: bool)
        ensures
            r == same_value(self@, other@),
        decreases self,
    {
        match (self, other) {
            (Value::Null, Value::Null) => true,
            (Value::Bool(a), Value::Bool(b)) => *a == *b,
            (Value::I64(a), Value::I64(b)) => *a == *b,
            (Value::U64(a), Value::U64(b)) => *a == *b,
            (Value::F64(a), Value::F64(b)) => !float_is_nan(*a) && !float_is_nan(*b) && float_le(
                *a,
                *b,
            ) && float_le(*b, *a),
            (Value::String(a), Value::String(b)) => *a == *b,
            (Value::Bytes(a), Value::Bytes(b)) => crate::bytes::bytes_eq(
                a.as_slice(),
                b.as_slice(),
            ),
            (Value::Uuid(a), Value::Uuid(b)) => crate::bytes::bytes_eq(a.as_bytes(), b.as_bytes()),
            (Value::Array(a), Value::Array(b)) => {
                proof {
                    lemma_array_view(*a);
                    lemma_array_view(*b);
                }
                if a.len() != b.len() {
                    return false;
                }
                let ghost xs = item_views(a@);
                let ghost ys = item_views(b@);
                let n: usize = a.len();
                let mut i: usize = 0;
                while i < n
                    invariant
                        n == a@.len(),
                        n == b@.len(),
                        i <= n,
                        *self == Value::Array(*a),
                        self@ == Datum::Array(xs),
                        other@ == Datum::Array(ys),
                        xs == item_views(a@),
                        ys == item_views(b@),
                        forall|j: int| 0 <= j < i ==> same_value(#[trigger] xs[j], ys[j]),
                    decreases n - i,
                {
                    if !a[i].same(&b[i]) {
                        assert(!same_value(xs[i as int], ys[i as int]));
                        return false;
                    }
                    i += 1;
                }
                true
            },
            (Value::Document(a), Value::Document(b)) => {
                proof {
                    lemma_document_view(*a);
                    lemma_document_view(*b);
                }
                if a.len() != b.len() {
                    return false;
                }
                let ghost xs = field_views(a@);
                let ghost ys = field_views(b@);
                let n: usize = a.len();
                let mut i: usize = 0;
                while i < n
                    invariant
                        n == a@.len(),
                        n == b@.len(),
                        i <= n,
                        *self == Value::Document(*a),
                        self@ == Datum::Document(xs),
                        other@ == Datum::Document(ys),
                        xs == field_views(a@),
                        ys == field_views(b@),
                        forall|j: int|
                            0 <= j < i ==> (#[trigger] xs[j]).0 == ys[j].0 && same_value(
                                xs[j].1,
                                ys[j].1,
                            ),
                    decreases n - i,
                {
                    if !(a[i].0 == b[i].0 && a[i].1.same(&b[i].1)) {
                        assert(!(xs[i as int].0 == ys[i as int].0 && same_value(
                            xs[i as int].1,
                            ys[i as int].1,
                        )));
                        return false;
                    }
                    i += 1;
                }
                true
            },
            _ => false,
        }
    }
}

impl PartialEq for Value {
    fn eq(&self, other: &Value) -> (r: bool) {
        self.same(other)
    }
}

impl vstd::std_specs::cmp::PartialEqSpecImpl for Value {
    open spec fn obeys_eq_spec() -> bool {
        true
    }

    open spec fn eq_spec(&self, other: &Value) -> bool {
        same_value(self@, other@)
    }
}

/// Whether the lengths in a value fit the four bytes that the encoding gives them.
pub open spec fn encodable(d: Datum) -> bool
    decreases d,
{
    match d {
        Datum::Text(s) => encode_utf8(s).len() <= u32::MAX,
        Datum::Bytes(b) => b.len() <= u32::MAX,
        Datum::Uuid(id) => id.len() == 16,
        Datum::Array(items) => items.len() <= u32::MAX && forall|i: int|
            0 <= i < items.len() ==> encodable(#[trigger] items[i]),
        Datum::Document(fields) => fields.len() <= u32::MAX && forall|i: int|
            0 <= i < fields.len() ==> encode_utf8((#[trigger] fields[i]).0).len() <= u32::MAX
                && encodable(fields[i].1),
        _ => true,
    }
}

/// Whether `part` lies in `buf` at `pos`.
pub open spec fn holds_at(buf: Seq<u8>, pos: int, part: Seq<u8>) -> bool {
    0 <= pos && pos + part.len() <= buf.len() && buf.subrange(pos, pos + part.len()) == part
}

pub proof fn lemma_holds_at_parts(buf: Seq<u8>, pos: int, a: Seq<u8>, b: Seq<u8>)
    requires
        holds_at(buf, pos, a + b),
    ensures
        holds_at(buf, pos, a),
        holds_at(buf, pos + a.len(), b),
{
    let whole = buf.subrange(pos, pos + (a + b).len());
    assert(buf.subrange(pos, pos + a.len()) =~= whole.subrange(0, a.len() as int));
    assert(whole.subrange(0, a.len() as int) =~= a);
    assert(buf.subrange(pos + a.len(), pos + a.len() + b.len()) =~= whole.subrange(
        a.len() as int,
        (a + b).len() as int,
    ));
    assert(whole.subrange(a.len() as int, (a + b).len() as int) =~= b);
}

/// A little-endian integer reads back.
pub proof fn lemma_le_at(buf: Seq<u8>, pos: int, x: nat, n: nat)
    requires
        holds_at(buf, pos, le(x, n)),
        x < crate::bytes::pow256(n),
    ensures
        pos + n <= buf.len(),
        from_le(buf.subrange(pos, pos + n)) == x,
{
    crate::bytes::lemma_le_len(x, n);
    crate::bytes::lemma_from_le_of_le(x, n);
}

/// A length-prefixed byte string reads back.
pub proof fn lemma_sized_at(buf: Seq<u8>, pos: int, bytes: Seq<u8>)
    requires
        holds_at(buf, pos, sized(bytes)),
        bytes.len() <= u32::MAX,
    ensures
        parse_sized(buf, pos) == Ok::<Seq<u8>, BlobFault>(bytes),
        sized(bytes).len() == 4 + bytes.len(),
{
    crate::bytes::lemma_pow256_values();
    crate::bytes::lemma_le_len(bytes.len(), 4);
    lemma_holds_at_parts(buf, pos, le(bytes.len(), 4), bytes);
    lemma_le_at(buf, pos, bytes.len(), 4);
}

/// Length-prefixed text reads back.
pub proof fn lemma_text_at(buf: Seq<u8>, pos: int, s: Seq<char>)
    requires
        holds_at(buf, pos, sized(encode_utf8(s))),
        encode_utf8(s).len() <= u32::MAX,
    ensures
        parse_text(buf, pos) == Ok::<(Seq<char>, nat), BlobFault>((s, encode_utf8(s).len())),
        sized(encode_utf8(s)).len() == 4 + encode_utf8(s).len(),
{
    lemma_sized_at(buf, pos, encode_utf8(s));
    vstd::utf8::encode_utf8_valid_utf8(s);
    vstd::utf8::encode_utf8_decode_utf8(s);
}

proof fn lemma_items_prefix(items: Seq<Datum>, i: int)
    requires
        0 <= i <= items.len(),
    ensures
        encoding_of_items(items.take(i)).len() <= encoding_of_items(items).len(),
        encoding_of_items(items).take(encoding_of_items(items.take(i)).len() as int)
            == encoding_of_items(items.take(i)),
    decreases items.len(),
{
    if i == items.len() {
        assert(items.take(i) =~= items);
        assert(encoding_of_items(items).take(encoding_of_items(items).len() as int)
            =~= encoding_of_items(items));
    } else {
        let init = items.drop_last();
        lemma_items_prefix(init, i);
        assert(init.take(i) =~= items.take(i));
        let n = encoding_of_items(items.take(i)).len() as int;
        assert(encoding_of_items(items).take(n) =~= encoding_of_items(init).take(n));
    }
}

pub proof fn lemma_fields_prefix(fields: Seq<(Seq<char>, Datum)>, i: int)
    requires
        0 <= i <= fields.len(),
    ensures
        encoding_of_fields(fields.take(i)).len() <= encoding_of_fields(fields).len(),
        encoding_of_fields(fields).take(encoding_of_fields(fields.take(i)).len() as int)
            == encoding_of_fields(fields.take(i)),
    decreases fields.len(),
{
    if i == fields.len() {
        assert(fields.take(i) =~= fields);
        assert(encoding_of_fields(fields).take(encoding_of_fields(fields).len() as int)
            =~= encoding_of_fields(fields));
    } else {
        let init = fields.drop_last();
        lemma_fields_prefix(init, i);
        assert(init.take(i) =~= fields.take(i));
        let n = encoding_of_fields(fields.take(i)).len() as int;
        assert(encoding_of_fields(fields).take(n) =~= encoding_of_fields(init).take(n));
    }
}

/// A prefix of what lies at a position lies there too.
pub proof fn lemma_holds_at_prefix(buf: Seq<u8>, pos: int, whole: Seq<u8>, part: Seq<u8>)
    requires
        holds_at(buf, pos, whole),
        part.len() <= whole.len(),
        whole.take(part.len() as int) == part,
    ensures
        holds_at(buf, pos, part),
{
    assert(whole =~= part + whole.skip(part.len() as int));
    lemma_holds_at_parts(buf, pos, part, whole.skip(part.len() as int));
}

proof fn lemma_items_at(items: Seq<Datum>, i: int, buf: Seq<u8>, start: int)
    requires
        0 <= i <= items.len(),
        forall|j: int| 0 <= j < items.len() ==> encodable(#[trigger] items[j]),
        holds_at(buf, start, encoding_of_items(items)),
    ensures
        encoding_of_items(items.take(i)).len() <= encoding_of_items(items).len(),
        parse_items(
            buf,
            start + encoding_of_items(items.take(i)).len(),
            (items.len() - i) as nat,
        ) == Ok::<(Seq<Datum>, nat), BlobFault>(
            (
                items.skip(i),
                (encoding_of_items(items).len() - encoding_of_items(items.take(i)).len()) as nat,
            ),
        ),
    decreases items, items.len() - i,
{
    lemma_items_prefix(items, i);
    if i == items.len() {
        assert(items.take(i) =~= items);
        assert(items.skip(i) =~= seq![]);
    } else {
        lemma_items_prefix(items, i + 1);
        assert(items.take(i + 1).drop_last() =~= items.take(i));
        lemma_holds_at_prefix(
            buf,
            start,
            encoding_of_items(items),
            encoding_of_items(items.take(i + 1)),
        );
        lemma_holds_at_parts(
            buf,
            start,
            encoding_of_items(items.take(i)),
            encoding(items[i]),
        );
        lemma_value_at(items[i], buf, start + encoding_of_items(items.take(i)).len());
        lemma_items_at(items, i + 1, buf, start);
        assert(seq![items[i]] + items.skip(i + 1) =~= items.skip(i));
    }
}

pub proof fn lemma_fields_at(fields: Seq<(Seq<char>, Datum)>, i: int, buf: Seq<u8>, start: int)
    requires
        0 <= i <= fields.len(),
        forall|j: int|
            0 <= j < fields.len() ==> encode_utf8((#[trigger] fields[j]).0).len() <= u32::MAX
                && encodable(fields[j].1),
        holds_at(buf, start, encoding_of_fields(fields)),
    ensures
        encoding_of_fields(fields.take(i)).len() <= encoding_of_fields(fields).len(),
        parse_fields(
            buf,
            start + encoding_of_fields(fields.take(i)).len(),
            (fields.len() - i) as nat,
        ) == Ok::<(Seq<(Seq<char>, Datum)>, nat), BlobFault>(
            (
                fields.skip(i),
                (encoding_of_fields(fields).len() - encoding_of_fields(
                    fields.take(i),
                ).len()) as nat,
            ),
        ),
    decreases fields, fields.len() - i,
{
    lemma_fields_prefix(fields, i);
    if i == fields.len() {
        assert(fields.take(i) =~= fields);
        assert(fields.skip(i) =~= seq![]);
    } else {
        lemma_fields_prefix(fields, i + 1);
        assert(fields.take(i + 1).drop_last() =~= fields.take(i));
        lemma_holds_at_prefix(
            buf,
            start,
            encoding_of_fields(fields),
            encoding_of_fields(fields.take(i + 1)),
        );
        let pos = start + encoding_of_fields(fields.take(i)).len();
        let key = sized(encode_utf8(fields[i].0));
        let value = encoding(fields[i].1);
        assert(encoding_of_fields(fields.take(i + 1)) =~= encoding_of_fields(fields.take(i)) + (key
            + value));
        lemma_holds_at_parts(buf, start, encoding_of_fields(fields.take(i)), key + value);
        lemma_holds_at_parts(buf, pos, key, value);
        lemma_text_at(buf, pos, fields[i].0);
        lemma_value_at(fields[i].1, buf, pos + key.len());
        lemma_fields_at(fields, i + 1, buf, start);
        assert(seq![fields[i]] + fields.skip(i + 1) =~= fields.skip(i));
        assert(fields[i] == (fields[i].0, fields[i].1));
    }
}

pub proof fn lemma_value_at(d: Datum, buf: Seq<u8>, pos: int)
    requires
        encodable(d),
        holds_at(buf, pos, encoding(d)),
    ensures
        parse_value(buf, pos) == Ok::<(Datum, nat), BlobFault>((d, encoding(d).len())),
    decreases d,
{
    crate::bytes::lemma_pow256_values();
    let code = encoding(d);
    assert(code.len() >= 1);
    assert(buf.subrange(pos, pos + code.len())[0] == code[0]);
    assert(buf[pos] == code[0]);
    match d {
        Datum::Null => {},
        Datum::Bool(b) => {
            assert(buf.subrange(pos, pos + code.len())[1] == code[1]);
        },
        Datum::I64(v) => {
            crate::bytes::lemma_le_len(i64_bits(v), 8);
            lemma_holds_at_parts(buf, pos, seq![TAG_I64], le(i64_bits(v), 8));
            lemma_le_at(buf, pos + 1, i64_bits(v), 8);
        },
        Datum::U64(v) => {
            crate::bytes::lemma_le_len(v as nat, 8);
            lemma_holds_at_parts(buf, pos, seq![TAG_U64], le(v as nat, 8));
            lemma_le_at(buf, pos + 1, v as nat, 8);
        },
        Datum::F64(v) => {
            crate::bytes::lemma_le_len(v as nat, 8);
            lemma_holds_at_parts(buf, pos, seq![TAG_F64], le(v as nat, 8));
            lemma_le_at(buf, pos + 1, v as nat, 8);
        },
        Datum::Text(s) => {
            lemma_holds_at_parts(buf, pos, seq![TAG_STRING], sized(encode_utf8(s)));
            lemma_text_at(buf, pos + 1, s);
        },
        Datum::Bytes(b) => {
            lemma_holds_at_parts(buf, pos, seq![TAG_BYTES], sized(b));
            lemma_sized_at(buf, pos + 1, b);
        },
        Datum::Uuid(id) => {
            lemma_holds_at_parts(buf, pos, seq![TAG_UUID], id);
        },
        Datum::Array(items) => {
            let count = le(items.len(), 4);
            crate::bytes::lemma_le_len(items.len(), 4);
            lemma_holds_at_parts(buf, pos, seq![TAG_ARRAY] + count, encoding_of_items(items));
            lemma_holds_at_parts(buf, pos, seq![TAG_ARRAY], count);
            lemma_le_at(buf, pos + 1, items.len(), 4);
            lemma_items_at(items, 0, buf, pos + 5);
            assert(items.take(0) =~= seq![]);
            assert(items.skip(0) =~= items);
        },
        Datum::Document(fields) => {
            let count = le(fields.len(), 4);
            crate::bytes::lemma_le_len(fields.len(), 4);
            lemma_holds_at_parts(buf, pos, seq![TAG_DOCUMENT] + count, encoding_of_fields(fields));
            lemma_holds_at_parts(buf, pos, seq![TAG_DOCUMENT], count);
            lemma_le_at(buf, pos + 1, fields.len(), 4);
            lemma_fields_at(fields, 0, buf, pos + 5);
            assert(fields.take(0) =~= seq![]);
            assert(fields.skip(0) =~= fields);
        },
    }
}

/// Decoding gives back the value that was encoded, whatever lies before and after it, and
/// takes exactly the bytes of its encoding.
pub proof fn law_decode_of_encode(d: Datum, before: Seq<u8>, after: Seq<u8>)
    requires
        encodable(d),
    ensures
        parse_value(before + encoding(d) + after, before.len() as int) == Ok::<
            (Datum, nat),
            BlobFault,
        >((d, encoding(d).len())),
{
    let buf = before + encoding(d) + after;
    assert(buf.subrange(before.len() as int, (before.len() + encoding(d).len()) as int)
        =~= encoding(d));
    lemma_value_at(d, buf, before.len() as int);
}

/// Whether a buffer ends within `part`, which begins at `pos`.
pub open spec fn ends_within(buf: Seq<u8>, pos: int, part: Seq<u8>) -> bool {
    0 <= pos <= buf.len() < pos + part.len() && buf.subrange(pos, buf.len() as int) == part.take(
        buf.len() - pos,
    )
}

/// Whether an error says that more bytes are needed than the buffer has.
pub open spec fn runs_out(buf: Seq<u8>, e: BlobFault) -> bool {
    e matches BlobFault::BufferTooShort { need, have } && have == buf.len() && need > have
}

/// A buffer that ends within some bytes ends within their beginning or holds it.
proof fn lemma_ends_within_prefix(buf: Seq<u8>, pos: int, whole: Seq<u8>, part: Seq<u8>)
    requires
        ends_within(buf, pos, whole),
        part.len() <= whole.len(),
        whole.take(part.len() as int) == part,
    ensures
        if buf.len() < pos + part.len() {
            ends_within(buf, pos, part)
        } else {
            holds_at(buf, pos, part)
        },
{
    let n = buf.len() - pos;
    let rest = buf.subrange(pos, buf.len() as int);
    if n < part.len() {
        assert(part.take(n) =~= whole.take(n));
    } else {
        assert(buf.subrange(pos, pos + part.len()) =~= rest.take(part.len() as int));
        assert(whole.take(n).take(part.len() as int) =~= whole.take(part.len() as int));
    }
}

/// A buffer that ends within two byte strings ends within the first, or holds it and ends
/// within the second.
proof fn lemma_ends_within_parts(buf: Seq<u8>, pos: int, a: Seq<u8>, b: Seq<u8>)
    requires
        ends_within(buf, pos, a + b),
    ensures
        if buf.len() < pos + a.len() {
            ends_within(buf, pos, a)
        } else {
            holds_at(buf, pos, a) && ends_within(buf, pos + a.len(), b)
        },
{
    let whole = a + b;
    assert(whole.take(a.len() as int) =~= a);
    lemma_ends_within_prefix(buf, pos, whole, a);
    if buf.len() >= pos + a.len() {
        let n = buf.len() - pos;
        let rest = buf.subrange(pos, buf.len() as int);
        assert(buf.subrange(pos + a.len(), buf.len() as int) =~= rest.skip(a.len() as int));
        assert(whole.take(n).skip(a.len() as int) =~= b.take(n - a.len()));
    }
}

proof fn lemma_sized_ends(buf: Seq<u8>, pos: int, bytes: Seq<u8>)
    requires
        ends_within(buf, pos, sized(bytes)),
        bytes.len() <= u32::MAX,
        buf.len() < usize::MAX,
    ensures
        parse_sized(buf, pos) matches Err(e) && runs_out(buf, e),
{
    crate::bytes::lemma_pow256_values();
    crate::bytes::lemma_le_len(bytes.len(), 4);
    lemma_ends_within_parts(buf, pos, le(bytes.len(), 4), bytes);
    if buf.len() >= pos + 4 {
        lemma_le_at(buf, pos, bytes.len(), 4);
    }
}

proof fn lemma_items_end(items: Seq<Datum>, i: int, buf: Seq<u8>, start: int)
    requires
        0 <= i <= items.len(),
        forall|j: int| 0 <= j < items.len() ==> encodable(#[trigger] items[j]),
        ends_within(buf, start, encoding_of_items(items)),
        start + encoding_of_items(items.take(i)).len() <= buf.len(),
        buf.len() < usize::MAX,
    ensures
        parse_items(
            buf,
            start + encoding_of_items(items.take(i)).len(),
            (items.len() - i) as nat,
        ) matches Err(e) && runs_out(buf, e),
    decreases items, items.len() - i,
{
    if i == items.len() {
        assert(items.take(i) =~= items);
    } else {
        let whole = encoding_of_items(items);
        let head = encoding_of_items(items.take(i));
        let pos = start + head.len();
        let code = encoding(items[i]);
        lemma_items_prefix(items, i + 1);
        assert(items.take(i + 1).drop_last() =~= items.take(i));
        lemma_ends_within_prefix(buf, start, whole, head + code);
        if buf.len() < pos + code.len() {
            lemma_ends_within_parts(buf, start, head, code);
            lemma_value_ends(items[i], buf, pos);
        } else {
            lemma_holds_at_parts(buf, start, head, code);
            lemma_value_at(items[i], buf, pos);
            lemma_items_end(items, i + 1, buf, start);
        }
    }
}

proof fn lemma_fields_end(fields: Seq<(Seq<char>, Datum)>, i: int, buf: Seq<u8>, start: int)
    requires
        0 <= i <= fields.len(),
        forall|j: int|
            0 <= j < fields.len() ==> encode_utf8((#[trigger] fields[j]).0).len() <= u32::MAX
                && encodable(fields[j].1),
        ends_within(buf, start, encoding_of_fields(fields)),
        start + encoding_of_fields(fields.take(i)).len() <= buf.len(),
        buf.len() < usize::MAX,
    ensures
        parse_fields(
            buf,
            start + encoding_of_fields(fields.take(i)).len(),
            (fields.len() - i) as nat,
        ) matches Err(e) && runs_out(buf, e),
    decreases fields, fields.len() - i,
{
    if i == fields.len() {
        assert(fields.take(i) =~= fields);
    } else {
        let whole = encoding_of_fields(fields);
        let head = encoding_of_fields(fields.take(i));
        let pos = start + head.len();
        let key = sized(encode_utf8(fields[i].0));
        let value = encoding(fields[i].1);
        lemma_fields_prefix(fields, i + 1);
        assert(fields.take(i + 1).drop_last() =~= fields.take(i));
        assert(encoding_of_fields(fields.take(i + 1)) =~= head + (key + value));
        lemma_ends_within_prefix(buf, start, whole, head + (key + value));
        if buf.len() < pos + key.len() + value.len() {
            lemma_ends_within_parts(buf, start, head, key + value);
            lemma_ends_within_parts(buf, pos, key, value);
            if buf.len() < pos + key.len() {
                lemma_sized_ends(buf, pos, encode_utf8(fields[i].0));
            } else {
                lemma_text_at(buf, pos, fields[i].0);
                lemma_value_ends(fields[i].1, buf, pos + key.len());
            }
        } else {
            lemma_holds_at_parts(buf, start, head, key + value);
            lemma_holds_at_parts(buf, pos, key, value);
            lemma_text_at(buf, pos, fields[i].0);
            lemma_value_at(fields[i].1, buf, pos + key.len());
            lemma_fields_end(fields, i + 1, buf, start);
        }
    }
}

proof fn lemma_value_ends(d: Datum, buf: Seq<u8>, pos: int)
    requires
        encodable(d),
        ends_within(buf, pos, encoding(d)),
        buf.len() < usize::MAX,
    ensures
        parse_value(buf, pos) matches Err(e) && runs_out(buf, e),
    decreases d,
{
    crate::bytes::lemma_pow256_values();
    let code = encoding(d);
    let n = buf.len() - pos;
    if n > 0 {
        assert(buf.subrange(pos, buf.len() as int)[0] == buf[pos]);
        assert(code.take(n)[0] == code[0]);
        match d {
            Datum::Null => {},
            Datum::Bool(b) => {},
            Datum::I64(v) => {
                crate::bytes::lemma_le_len(i64_bits(v), 8);
            },
            Datum::U64(v) => {
                crate::bytes::lemma_le_len(v as nat, 8);
            },
            Datum::F64(v) => {
                crate::bytes::lemma_le_len(v as nat, 8);
            },
            Datum::Text(s) => {
                lemma_ends_within_parts(buf, pos, seq![TAG_STRING], sized(encode_utf8(s)));
                lemma_sized_ends(buf, pos + 1, encode_utf8(s));
            },
            Datum::Bytes(b) => {
                lemma_ends_within_parts(buf, pos, seq![TAG_BYTES], sized(b));
                lemma_sized_ends(buf, pos + 1, b);
            },
            Datum::Uuid(id) => {},
            Datum::Array(items) => {
                let count = le(items.len(), 4);
                let head = seq![TAG_ARRAY] + count;
                crate::bytes::lemma_le_len(items.len(), 4);
                lemma_ends_within_parts(buf, pos, head, encoding_of_items(items));
                if n >= 5 {
                    lemma_holds_at_parts(buf, pos, seq![TAG_ARRAY], count);
                    lemma_le_at(buf, pos + 1, items.len(), 4);
                    assert(items.take(0) =~= seq![]);
                    lemma_items_end(items, 0, buf, pos + 5);
                }
            },
            Datum::Document(fields) => {
                let count = le(fields.len(), 4);
                let head = seq![TAG_DOCUMENT] + count;
                crate::bytes::lemma_le_len(fields.len(), 4);
                lemma_ends_within_parts(buf, pos, head, encoding_of_fields(fields));
                if n >= 5 {
                    lemma_holds_at_parts(buf, pos, seq![TAG_DOCUMENT], count);
                    lemma_le_at(buf, pos + 1, fields.len(), 4);
                    assert(fields.take(0) =~= seq![]);
                    lemma_fields_end(fields, 0, buf, pos + 5);
                }
            },
        }
    }
}

/// No encoding decodes where its end is cut off, whatever lies before it: decoding says that
/// it needs more bytes than there are.
pub proof fn law_cut_off_value(d: Datum, before: Seq<u8>, k: int)
    requires
        encodable(d),
        0 <= k < encoding(d).len(),
        before.len() + k < usize::MAX,
    ensures
        parse_value(before + encoding(d).take(k), before.len() as int) matches Err(e) && (
        e matches BlobFault::BufferTooShort { need, have } && have == before.len() + k && need
            > have),
{
    let buf = before + encoding(d).take(k);
    assert(buf.subrange(before.len() as int, buf.len() as int) =~= encoding(d).take(k));
    lemma_value_ends(d, buf, before.len() as int);
}

/// Whether `a` is less than `b`, as values of one type. A NaN is less than nothing, and
/// nothing is less than a NaN.
pub open spec fn value_lt(a: Datum, b: Datum) -> bool {
    match (a, b) {
        (Datum::Bool(x), Datum::Bool(y)) => !x && y,
        (Datum::I64(x), Datum::I64(y)) => x < y,
        (Datum::U64(x), Datum::U64(y)) => x < y,
        (Datum::F64(x), Datum::F64(y)) => !is_nan(x) && !is_nan(y) && float_rank(x) < float_rank(
            y,
        ),
        (Datum::Text(x), Datum::Text(y)) => lex_lt(encode_utf8(x), encode_utf8(y)),
        (Datum::Bytes(x), Datum::Bytes(y)) => lex_lt(x, y),
        _ => false,
    }
}

} // verus!
