//! Laws of values: what they stand for, when they are equal, and how they compare.

use crate::bytes::{lemma_lex_strict, lemma_lex_total, lex_lt};
use crate::document_id::DocumentId;
use crate::query::value_order;
use crate::sstable::keys::{
    comparable, law_comparable_order, law_equal_values_encode_equally, type_tag,
};
use crate::value::{
    encoding, float_magnitude, float_rank, is_nan, same_value, value_lt, Datum, Value,
};
use std::cmp::Ordering;
use vstd::arithmetic::power2::{
    lemma_pow2_pos, lemma_pow2_strictly_increases, lemma_pow2_unfold, pow2,
};
use vstd::prelude::*;
use vstd::utf8::encode_utf8;

verus! {

/// Every value stands for the mathematical value of its own type and content.
pub proof fn law_value_views(
    b: bool,
    i: i64,
    u: u64,
    f: u64,
    s: String,
    bytes: Vec<u8>,
    id: DocumentId,
    items: Vec<Value>,
    fields: Vec<(String, Value)>,
)
    ensures
        Value::Null@ == Datum::Null,
        Value::Bool(b)@ == Datum::Bool(b),
        Value::I64(i)@ == Datum::I64(i),
        Value::U64(u)@ == Datum::U64(u),
        Value::F64(f)@ == Datum::F64(f),
        Value::String(s)@ == Datum::Text(s@),
        Value::Bytes(bytes)@ == Datum::Bytes(bytes@),
        Value::Uuid(id)@ == Datum::Uuid(id.0@),
        Value::Array(items)@ == Datum::Array(Seq::new(items@.len(), |k: int| items@[k]@)),
        Value::Document(fields)@ == Datum::Document(
            Seq::new(fields@.len(), |k: int| (fields@[k].0@, fields@[k].1@)),
        ),
{
    let array = Value::Array(items);
    let document = Value::Document(fields);
    assert(array@->Array_0 =~= Seq::new(items@.len(), |k: int| items@[k]@));
    assert(document@->Document_0 =~= Seq::new(
        fields@.len(),
        |k: int| (fields@[k].0@, fields@[k].1@),
    ));
}

/// The exponent of a floating-point number.
pub open spec fn float_exponent(bits: u64) -> int {
    (bits as int / 0x10_0000_0000_0000) % 2048
}

/// The fraction of a floating-point number.
pub open spec fn float_fraction(bits: u64) -> int {
    bits as int % 0x10_0000_0000_0000
}

/// The size that an exponent and a fraction give, as a multiple of the smallest positive number.
pub open spec fn float_size(exponent: int, fraction: int) -> int {
    if exponent == 0 {
        fraction
    } else {
        (0x10_0000_0000_0000 + fraction) * pow2((exponent - 1) as nat)
    }
}

/// The number that an IEEE 754 bit pattern stands for, as a multiple of the smallest positive
/// number. The infinities lie beyond all others.
pub open spec fn float_number(bits: u64) -> int {
    let size = float_size(float_exponent(bits), float_fraction(bits));
    if bits >= 0x8000_0000_0000_0000 {
        -size
    } else {
        size
    }
}

proof fn lemma_float_size(e: int, m: int, f: int, n: int)
    requires
        0 <= e < f || (0 <= e == f && m < n),
        0 <= m < 0x10_0000_0000_0000,
        0 <= n < 0x10_0000_0000_0000,
    ensures
        0 <= float_size(e, m) < float_size(f, n),
{
    if f > 0 {
        let q = pow2((f - 1) as nat) as int;
        lemma_pow2_pos((f - 1) as nat);
        if e == 0 {
            assert((0x10_0000_0000_0000 + n) * q >= 0x10_0000_0000_0000) by (nonlinear_arith)
                requires
                    q >= 1,
                    n >= 0,
            ;
        } else {
            let p = pow2((e - 1) as nat) as int;
            lemma_pow2_pos((e - 1) as nat);
            if e == f {
                assert((0x10_0000_0000_0000 + m) * p < (0x10_0000_0000_0000 + n) * p)
                    by (nonlinear_arith)
                    requires
                        p >= 1,
                        m < n,
                ;
            } else {
                lemma_pow2_unfold(e as nat);
                if e < f - 1 {
                    lemma_pow2_strictly_increases(e as nat, (f - 1) as nat);
                }
                assert(2 * p <= q);
                assert((0x10_0000_0000_0000 + m) * p < (0x10_0000_0000_0000 + n) * q)
                    by (nonlinear_arith)
                    requires
                        p >= 1,
                        2 * p <= q,
                        0 <= m < 0x10_0000_0000_0000,
                        n >= 0,
                ;
            }
            assert((0x10_0000_0000_0000 + m) * p >= 0) by (nonlinear_arith)
                requires
                    p >= 1,
                    m >= 0,
            ;
        }
    }
}

proof fn lemma_float_order(x: u64, y: u64)
    ensures
        is_nan(x) <==> float_exponent(x) == 2047 && float_fraction(x) != 0,
        float_rank(x) < float_rank(y) <==> float_number(x) < float_number(y),
        float_rank(x) == float_rank(y) <==> float_number(x) == float_number(y),
{
    let (e, m) = (float_exponent(x), float_fraction(x));
    let (f, n) = (float_exponent(y), float_fraction(y));
    assert(float_magnitude(x) == e * 0x10_0000_0000_0000 + m);
    assert(float_magnitude(y) == f * 0x10_0000_0000_0000 + n);
    if e < f || (e == f && m < n) {
        lemma_float_size(e, m, f, n);
    }
    if f < e || (e == f && n < m) {
        lemma_float_size(f, n, e, m);
    }
    if !(e == 0 && m == 0) {
        lemma_float_size(0, 0, e, m);
    }
    if !(f == 0 && n == 0) {
        lemma_float_size(0, 0, f, n);
    }
}

/// Floating-point values compare as the numbers that their bit patterns stand for. A bit
/// pattern that stands for no number is less than nothing, greater than nothing and equal to
/// nothing.
pub proof fn law_floats_compare_as_numbers(x: u64, y: u64)
    ensures
        float_exponent(x) == 2047 && float_fraction(x) != 0 ==> value_order(
            Datum::F64(x),
            Datum::F64(y),
        ) is None && !same_value(Datum::F64(x), Datum::F64(y)),
        float_exponent(y) == 2047 && float_fraction(y) != 0 ==> value_order(
            Datum::F64(x),
            Datum::F64(y),
        ) is None && !same_value(Datum::F64(x), Datum::F64(y)),
        !(float_exponent(x) == 2047 && float_fraction(x) != 0) && !(float_exponent(y) == 2047
            && float_fraction(y) != 0) ==> {
            &&& value_order(Datum::F64(x), Datum::F64(y)) == Some(
                if float_number(x) < float_number(y) {
                    Ordering::Less
                } else if float_number(x) > float_number(y) {
                    Ordering::Greater
                } else {
                    Ordering::Equal
                },
            )
            &&& same_value(Datum::F64(x), Datum::F64(y)) <==> float_number(x) == float_number(y)
        },
{
    lemma_float_order(x, y);
    lemma_float_order(y, x);
}

/// Integers compare as integers, false is below true, byte strings compare by their first
/// difference, and texts as their UTF-8 bytes.
pub proof fn law_simple_values_compare(
    i: i64,
    j: i64,
    u: u64,
    v: u64,
    b: bool,
    c: bool,
    s: Seq<char>,
    t: Seq<char>,
    x: Seq<u8>,
    y: Seq<u8>,
)
    ensures
        value_order(Datum::I64(i), Datum::I64(j)) == Some(
            if i < j {
                Ordering::Less
            } else if i > j {
                Ordering::Greater
            } else {
                Ordering::Equal
            },
        ),
        value_order(Datum::U64(u), Datum::U64(v)) == Some(
            if u < v {
                Ordering::Less
            } else if u > v {
                Ordering::Greater
            } else {
                Ordering::Equal
            },
        ),
        value_order(Datum::Bool(b), Datum::Bool(c)) == Some(
            if b == c {
                Ordering::Equal
            } else if b {
                Ordering::Greater
            } else {
                Ordering::Less
            },
        ),
        value_order(Datum::Bytes(x), Datum::Bytes(y)) == Some(
            if x == y {
                Ordering::Equal
            } else if lex_lt(x, y) {
                Ordering::Less
            } else {
                Ordering::Greater
            },
        ),
        value_order(Datum::Text(s), Datum::Text(t)) == value_order(
            Datum::Bytes(encode_utf8(s)),
            Datum::Bytes(encode_utf8(t)),
        ),
{
    lemma_lex_total(x, y);
    lemma_lex_strict(x, y);
    lemma_lex_strict(y, x);
    let p = encode_utf8(s);
    let q = encode_utf8(t);
    lemma_lex_total(p, q);
    lemma_lex_strict(p, q);
    lemma_lex_strict(q, p);
    vstd::utf8::encode_utf8_decode_utf8(s);
    vstd::utf8::encode_utf8_decode_utf8(t);
}

/// Whether two values are of one of the types that have an order, and both stand for a value
/// that has a place in it.
pub open spec fn orderable(a: Datum, b: Datum) -> bool {
    match (a, b) {
        (Datum::Bool(_), Datum::Bool(_)) => true,
        (Datum::I64(_), Datum::I64(_)) => true,
        (Datum::U64(_), Datum::U64(_)) => true,
        (Datum::F64(x), Datum::F64(y)) => !(float_exponent(x) == 2047 && float_fraction(x) != 0)
            && !(float_exponent(y) == 2047 && float_fraction(y) != 0),
        (Datum::Text(_), Datum::Text(_)) => true,
        (Datum::Bytes(_), Datum::Bytes(_)) => true,
        _ => false,
    }
}

/// Values compare exactly where they are of one type that has an order and neither is a NaN.
/// Then one is less than the other, or they are equal, and never two of these.
pub proof fn law_order_is_total(a: Datum, b: Datum)
    ensures
        value_order(a, b) is Some <==> orderable(a, b),
        orderable(a, b) ==> value_lt(a, b) || value_lt(b, a) || same_value(a, b),
        !(value_lt(a, b) && value_lt(b, a)),
        !(value_lt(a, b) && same_value(a, b)),
        !(value_lt(b, a) && same_value(a, b)),
        value_lt(a, b) <==> value_order(a, b) == Some(Ordering::Less),
        value_lt(b, a) <==> value_order(a, b) == Some(Ordering::Greater),
        orderable(a, b) ==> (same_value(a, b) <==> value_order(a, b) == Some(Ordering::Equal)),
{
    match (a, b) {
        (Datum::F64(x), Datum::F64(y)) => {
            lemma_float_order(x, y);
            lemma_float_order(y, x);
        },
        (Datum::Text(s), Datum::Text(t)) => {
            let p = encode_utf8(s);
            let q = encode_utf8(t);
            lemma_lex_total(p, q);
            lemma_lex_strict(p, q);
            lemma_lex_strict(q, p);
            vstd::utf8::encode_utf8_decode_utf8(s);
            vstd::utf8::encode_utf8_decode_utf8(t);
        },
        (Datum::Bytes(x), Datum::Bytes(y)) => {
            lemma_lex_total(x, y);
            lemma_lex_strict(x, y);
            lemma_lex_strict(y, x);
        },
        _ => {},
    }
}

/// Whether a value holds a floating-point number, itself or at any depth.
pub open spec fn has_float(d: Datum) -> bool
    decreases d,
{
    match d {
        Datum::F64(_) => true,
        Datum::Array(items) => exists|i: int|
            0 <= i < items.len() && has_float(#[trigger] items[i]),
        Datum::Document(fields) => exists|i: int|
            0 <= i < fields.len() && has_float((#[trigger] fields[i]).1),
        _ => false,
    }
}

/// Whether a value holds a NaN, itself or at any depth.
pub open spec fn has_nan(d: Datum) -> bool
    decreases d,
{
    match d {
        Datum::F64(bits) => float_exponent(bits) == 2047 && float_fraction(bits) != 0,
        Datum::Array(items) => exists|i: int| 0 <= i < items.len() && has_nan(#[trigger] items[i]),
        Datum::Document(fields) => exists|i: int|
            0 <= i < fields.len() && has_nan((#[trigger] fields[i]).1),
        _ => false,
    }
}

/// Values without floating-point numbers are equal exactly where they are the same value: of
/// one type, with the same content, at every depth.
pub proof fn law_equality_is_identity(a: Datum, b: Datum)
    requires
        !has_float(a) || !has_float(b),
    ensures
        same_value(a, b) <==> a == b,
    decreases a,
{
    match (a, b) {
        (Datum::Array(xs), Datum::Array(ys)) => {
            if xs.len() == ys.len() {
                assert forall|i: int| 0 <= i < xs.len() implies (same_value(
                    #[trigger] xs[i],
                    ys[i],
                ) <==> xs[i] == ys[i]) by {
                    law_equality_is_identity(xs[i], ys[i]);
                }
                if same_value(a, b) {
                    assert(xs =~= ys);
                }
            }
        },
        (Datum::Document(xs), Datum::Document(ys)) => {
            if xs.len() == ys.len() {
                assert forall|i: int| 0 <= i < xs.len() implies (same_value(
                    (#[trigger] xs[i]).1,
                    ys[i].1,
                ) <==> xs[i].1 == ys[i].1) by {
                    law_equality_is_identity(xs[i].1, ys[i].1);
                }
                if same_value(a, b) {
                    assert(xs =~= ys);
                }
            }
        },
        _ => {},
    }
}

/// Arrays are equal where they have the same length and equal items, and documents where they
/// have equal fields at the same places.
pub proof fn law_equality_of_parts(
    xs: Seq<Datum>,
    ys: Seq<Datum>,
    fs: Seq<(Seq<char>, Datum)>,
    gs: Seq<(Seq<char>, Datum)>,
)
    ensures
        same_value(Datum::Array(xs), Datum::Array(ys)) <==> xs.len() == ys.len() && forall|i: int|
            0 <= i < xs.len() ==> same_value(#[trigger] xs[i], ys[i]),
        same_value(Datum::Document(fs), Datum::Document(gs)) <==> fs.len() == gs.len()
            && forall|i: int|
            0 <= i < fs.len() ==> (#[trigger] fs[i]).0 == gs[i].0 && same_value(fs[i].1, gs[i].1),
{
    let a = Datum::Array(xs);
    let b = Datum::Array(ys);
    assert(a->Array_0 == xs && b->Array_0 == ys);
    let c = Datum::Document(fs);
    let d = Datum::Document(gs);
    assert(c->Document_0 == fs && d->Document_0 == gs);
}

/// A value is equal to itself exactly where it holds no NaN.
pub proof fn law_equality_is_reflexive(a: Datum)
    ensures
        same_value(a, a) <==> !has_nan(a),
    decreases a,
{
    match a {
        Datum::F64(x) => {
            lemma_float_order(x, x);
        },
        Datum::Array(xs) => {
            assert forall|i: int| 0 <= i < xs.len() implies (same_value(#[trigger] xs[i], xs[i])
                <==> !has_nan(xs[i])) by {
                law_equality_is_reflexive(xs[i]);
            }
        },
        Datum::Document(xs) => {
            assert forall|i: int| 0 <= i < xs.len() implies (same_value(
                (#[trigger] xs[i]).1,
                xs[i].1,
            ) <==> !has_nan(xs[i].1)) by {
                law_equality_is_reflexive(xs[i].1);
            }
        },
        _ => {},
    }
}

/// Equality of values is symmetric.
pub proof fn law_equality_is_symmetric(a: Datum, b: Datum)
    ensures
        same_value(a, b) ==> same_value(b, a),
    decreases a,
{
    if same_value(a, b) {
        match (a, b) {
            (Datum::Array(xs), Datum::Array(ys)) => {
                assert forall|i: int| 0 <= i < ys.len() implies same_value(
                    #[trigger] ys[i],
                    xs[i],
                ) by {
                    assert(same_value(xs[i], ys[i]));
                    law_equality_is_symmetric(xs[i], ys[i]);
                }
            },
            (Datum::Document(xs), Datum::Document(ys)) => {
                assert forall|i: int| 0 <= i < ys.len() implies (#[trigger] ys[i]).0 == xs[i].0
                    && same_value(ys[i].1, xs[i].1) by {
                    assert(xs[i].0 == ys[i].0);
                    law_equality_is_symmetric(xs[i].1, ys[i].1);
                }
            },
            _ => {},
        }
    }
}

/// Equality of values is transitive.
pub proof fn law_equality_is_transitive(a: Datum, b: Datum, c: Datum)
    requires
        same_value(a, b),
        same_value(b, c),
    ensures
        same_value(a, c),
    decreases a,
{
    match (a, b, c) {
        (Datum::Array(xs), Datum::Array(ys), Datum::Array(zs)) => {
            assert forall|i: int| 0 <= i < xs.len() implies same_value(#[trigger] xs[i], zs[i]) by {
                assert(same_value(xs[i], ys[i]) && same_value(ys[i], zs[i]));
                law_equality_is_transitive(xs[i], ys[i], zs[i]);
            }
        },
        (Datum::Document(xs), Datum::Document(ys), Datum::Document(zs)) => {
            assert forall|i: int| 0 <= i < xs.len() implies (#[trigger] xs[i]).0 == zs[i].0
                && same_value(xs[i].1, zs[i].1) by {
                assert(xs[i].0 == ys[i].0 && ys[i].0 == zs[i].0);
                law_equality_is_transitive(xs[i].1, ys[i].1, zs[i].1);
            }
        },
        _ => {},
    }
}

/// Equal values compare alike with every value.
pub proof fn law_equal_values_compare_alike(a: Datum, b: Datum, c: Datum)
    requires
        same_value(a, b),
    ensures
        value_order(a, c) == value_order(b, c),
        value_order(c, a) == value_order(c, b),
        same_value(a, c) == same_value(b, c),
        same_value(c, a) == same_value(c, b),
{
    law_equality_is_symmetric(a, b);
    law_equality_is_symmetric(a, c);
    law_equality_is_symmetric(b, c);
    law_equality_is_symmetric(c, a);
    law_equality_is_symmetric(c, b);
    if same_value(a, c) {
        law_equality_is_transitive(b, a, c);
    }
    if same_value(b, c) {
        law_equality_is_transitive(a, b, c);
    }
}

/// Encodings order as the values do, both ways: where two values have an order, the encoding of
/// one is below that of the other exactly where the value is, and the encodings are the same
/// exactly where the values are equal.
pub proof fn law_encodings_order_as_values(a: Datum, b: Datum)
    requires
        orderable(a, b),
    ensures
        lex_lt(comparable(a), comparable(b)) <==> value_order(a, b) == Some(Ordering::Less),
        lex_lt(comparable(b), comparable(a)) <==> value_order(a, b) == Some(Ordering::Greater),
        comparable(a) == comparable(b) <==> same_value(a, b),
{
    law_order_is_total(a, b);
    law_comparable_order(a, b);
    law_comparable_order(b, a);
    lemma_lex_strict(comparable(a), comparable(b));
    lemma_lex_strict(comparable(b), comparable(a));
    if same_value(a, b) {
        law_equal_values_encode_equally(a, b);
    }
}

/// The types sort in this order: null, booleans, signed integers, unsigned integers,
/// floating-point numbers, texts, byte strings, identifiers, and then arrays and documents.
pub proof fn law_types_are_ordered(d: Datum)
    ensures
        type_tag(d) == (match d {
            Datum::Null => 0u8,
            Datum::Bool(_) => 1,
            Datum::I64(_) => 2,
            Datum::U64(_) => 3,
            Datum::F64(_) => 4,
            Datum::Text(_) => 5,
            Datum::Bytes(_) => 6,
            Datum::Uuid(_) => 7,
            Datum::Array(_) => 8,
            Datum::Document(_) => 8,
        }),
        comparable(d).len() > 0,
        comparable(d)[0] == type_tag(d),
{
    crate::bytes::lemma_pow256_values();
}

/// Null has the shortest encoding of all, an identifier is encoded as it is, and arrays and
/// documents by the first sixteen bytes of the digest of their binary form.
pub proof fn law_other_types_are_encoded(id: Seq<u8>, d: Datum)
    ensures
        comparable(Datum::Null) == seq![0u8],
        comparable(Datum::Uuid(id)) == seq![7u8] + id,
        d is Array || d is Document ==> comparable(d) == seq![8u8] + crate::hashing::blake3_digest(
            encoding(d),
        )@.subrange(0, 16),
{
}

/// The binary form of a value begins with the number of its type.
pub proof fn law_encoding_begins_with_type(d: Datum)
    ensures
        encoding(d).len() > 0,
        encoding(d)[0] == (match d {
            Datum::Null => 0u8,
            Datum::Bool(_) => 1,
            Datum::I64(_) => 2,
            Datum::U64(_) => 3,
            Datum::F64(_) => 4,
            Datum::Text(_) => 5,
            Datum::Bytes(_) => 6,
            Datum::Uuid(_) => 7,
            Datum::Array(_) => 8,
            Datum::Document(_) => 9,
        }),
{
}

/// Values that can be encoded and have the same binary form are the same value.
pub proof fn law_encoding_is_unique(a: Datum, b: Datum)
    requires
        crate::value::encodable(a),
        crate::value::encodable(b),
        encoding(a) == encoding(b),
    ensures
        a == b,
{
    crate::value::law_decode_of_encode(a, seq![], seq![]);
    crate::value::law_decode_of_encode(b, seq![], seq![]);
}

} // verus!
