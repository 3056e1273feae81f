use ingodb::document_id::DocumentId;
use ingodb::error::BlobError;
use ingodb::fields::Fields;
use ingodb::iblob::{IBlob, HEADER_SIZE, INDEX_ENTRY_SIZE};
use ingodb::value::Value;

fn roundtrip(v: &Value) {
    let mut buf = Vec::new();
    v.encode(&mut buf);
    let (decoded, consumed) = Value::decode(&buf, 0).unwrap();
    assert_eq!(&decoded, v);
    assert_eq!(consumed, buf.len());
}

#[test]
fn test_null() {
    roundtrip(&Value::Null);
}

#[test]
fn test_bool() {
    roundtrip(&Value::Bool(true));
    roundtrip(&Value::Bool(false));
}

#[test]
fn test_integers() {
    roundtrip(&Value::I64(-42));
    roundtrip(&Value::I64(i64::MIN));
    roundtrip(&Value::U64(42));
    roundtrip(&Value::U64(u64::MAX));
}

#[test]
fn test_f64() {
    roundtrip(&Value::F64(1.23456f64.to_bits()));
    roundtrip(&Value::F64(f64::NEG_INFINITY.to_bits()));
}

#[test]
fn test_string() {
    roundtrip(&Value::String("hello IngoDB".into()));
    roundtrip(&Value::String(String::new()));
    roundtrip(&Value::String("mörkkö 🦀".into()));
}

#[test]
fn test_bytes() {
    roundtrip(&Value::Bytes(vec![0, 1, 2, 255]));
    roundtrip(&Value::Bytes(vec![]));
}

#[test]
fn test_ref() {
    roundtrip(&Value::Uuid(DocumentId::from_bytes([0xAB; 16])));
}

#[test]
fn test_array() {
    roundtrip(&Value::Array(vec![
        Value::I64(1),
        Value::String("two".into()),
        Value::Null,
    ]));
}

#[test]
fn test_nested_document() {
    roundtrip(&Value::Document(vec![
        ("name".into(), Value::String("Henrik".into())),
        (
            "scores".into(),
            Value::Array(vec![Value::U64(100), Value::U64(200)]),
        ),
        (
            "address".into(),
            Value::Document(vec![
                ("city".into(), Value::String("Helsinki".into())),
                ("zip".into(), Value::String("00100".into())),
            ]),
        ),
    ]));
}

fn sample_blob() -> IBlob {
    IBlob::from_pairs(vec![
        ("name", Value::String("Henrik".into())),
        ("age", Value::U64(42)),
        ("active", Value::Bool(true)),
    ])
}

#[test]
fn test_encode_decode_roundtrip() {
    let mut blob = sample_blob();
    let encoded = blob.encode();
    let decoded = IBlob::decode(&encoded).unwrap();

    assert_eq!(blob.id(), decoded.id());
    assert_eq!(blob.hash(), decoded.hash());
    assert_eq!(blob.fields(), decoded.fields());
    assert!(!decoded.is_deleted());
}

#[test]
fn test_hash_deterministic() {
    // Same _id + same fields = same hash (deterministic)
    let id = DocumentId::from_bytes([0x42; 16]);
    let mut blob1 = IBlob::with_id(id, Fields::from_pairs(vec![("x", Value::I64(1))]));
    let mut blob2 = IBlob::with_id(id, Fields::from_pairs(vec![("x", Value::I64(1))]));
    blob1.encode();
    blob2.encode();
    assert_eq!(blob1.hash(), blob2.hash());
}

#[test]
fn test_different_content_different_hash() {
    let mut blob1 = IBlob::from_pairs(vec![("x", Value::I64(1))]);
    let mut blob2 = IBlob::from_pairs(vec![("x", Value::I64(2))]);
    blob1.encode();
    blob2.encode();
    assert_ne!(blob1.hash(), blob2.hash());
}

#[test]
fn test_explicit_id() {
    let id = DocumentId::from_bytes([0x42; 16]);
    let fields = Fields::from_pairs(vec![("k", Value::U64(1))]);
    let mut blob = IBlob::with_id(id, fields);
    assert_eq!(*blob.id(), id);

    // Roundtrip preserves the id
    let encoded = blob.encode();
    let decoded = IBlob::decode(&encoded).unwrap();
    assert_eq!(*decoded.id(), id);
}

#[test]
fn test_version_roundtrip() {
    let mut blob = sample_blob();
    assert!(blob.version().is_nil(), "version starts nil");

    let ver = DocumentId::new();
    blob.set_version(ver);
    assert_eq!(*blob.version(), ver);

    let encoded = blob.encode();
    let decoded = IBlob::decode(&encoded).unwrap();
    assert_eq!(*decoded.version(), ver);
}

#[test]
fn test_tombstone_roundtrip() {
    let id = DocumentId::new();
    let mut tomb = IBlob::tombstone(id);
    assert!(tomb.is_deleted());
    assert_eq!(tomb.field_count(), 0);

    // Stamp a version like the engine would
    tomb.set_version(DocumentId::new());

    let encoded = tomb.encode();
    assert_ne!(
        *tomb.hash(),
        [0u8; 32],
        "tombstone should have a real hash after encode"
    );

    let decoded = IBlob::decode(&encoded).unwrap();
    assert_eq!(decoded.id(), &id);
    assert!(decoded.is_deleted());
    assert_eq!(decoded.field_count(), 0);
    assert_eq!(decoded.version(), tomb.version());
    assert_eq!(decoded.hash(), tomb.hash());
}

#[test]
fn test_projection() {
    let mut blob = sample_blob();
    blob.set_version(DocumentId::new());
    blob.encode(); // compute hash

    assert!(!blob.is_projection());

    let mut projected = blob.project(&["name".into(), "age".into()]);
    assert!(projected.is_projection());
    assert!(!projected.is_deleted());
    assert_eq!(projected.field_count(), 2);
    assert_eq!(projected.get("name"), Some(&Value::String("Henrik".into())));
    assert_eq!(projected.get("age"), Some(&Value::U64(42)));
    assert!(
        projected.get("active").is_none(),
        "unprojected field absent"
    );

    // Same _id and _version as the whole document
    assert_eq!(projected.id(), blob.id());
    assert_eq!(projected.version(), blob.version());

    // Roundtrips correctly
    let encoded = projected.encode();
    let decoded = IBlob::decode(&encoded).unwrap();
    assert!(decoded.is_projection());
    assert_eq!(decoded.field_count(), 2);
    assert_eq!(decoded.id(), blob.id());
}

#[test]
fn test_projection_missing_fields() {
    let blob = sample_blob();
    let projected = blob.project(&["nonexistent".into()]);
    assert_eq!(projected.field_count(), 0);
    assert!(projected.is_projection());
}

#[test]
fn test_extract_field() {
    let mut blob = sample_blob();
    let encoded = blob.encode();

    let name = IBlob::extract_field(&encoded, "name").unwrap();
    assert_eq!(name, Value::String("Henrik".into()));

    let age = IBlob::extract_field(&encoded, "age").unwrap();
    assert_eq!(age, Value::U64(42));

    assert!(IBlob::extract_field(&encoded, "nonexistent").is_err());
}

#[test]
fn test_nested_document_blob() {
    let mut blob = IBlob::from_pairs(vec![
        (
            "user",
            Value::Document(vec![
                ("name".into(), Value::String("Henrik".into())),
                ("email".into(), Value::String("henrik@example.com".into())),
            ]),
        ),
        (
            "refs",
            Value::Array(vec![
                Value::Uuid(DocumentId::from_bytes([0xAA; 16])),
                Value::Uuid(DocumentId::from_bytes([0xBB; 16])),
            ]),
        ),
    ]);

    let encoded = blob.encode();
    let decoded = IBlob::decode(&encoded).unwrap();
    assert_eq!(blob.hash(), decoded.hash());
    assert_eq!(blob.fields(), decoded.fields());
}

#[test]
fn test_empty_blob() {
    let mut blob = IBlob::new(Fields::new());
    let encoded = blob.encode();
    let decoded = IBlob::decode(&encoded).unwrap();
    assert_eq!(decoded.field_count(), 0);
    assert_eq!(blob.hash(), decoded.hash());
}

#[test]
fn test_invalid_magic() {
    let mut encoded = sample_blob().encode();
    encoded[0] = b'X';
    assert!(matches!(
        IBlob::decode(&encoded),
        Err(BlobError::InvalidMagic)
    ));
}

#[test]
fn test_hash_computed_once_per_encode() {
    let mut blob = IBlob::from_pairs(vec![("x", Value::U64(1))]);
    blob.set_version(DocumentId::new());
    assert_eq!(blob.hash_computations(), 0, "no hash at construction");

    blob.encode();
    assert_eq!(blob.hash_computations(), 1, "hash computed once by encode");

    blob.encode(); // cached
    assert_eq!(blob.hash_computations(), 1, "second encode uses cache");
}

#[test]
fn test_hash_computed_once_for_put_path() {
    // Simulates engine put: construct, set_version, encode (WAL), encode (memtable size)
    let mut blob = IBlob::from_pairs(vec![
        ("name", Value::String("test".into())),
        ("value", Value::U64(42)),
    ]);
    blob.set_version(DocumentId::new());
    blob.encode();
    blob.encode();
    assert_eq!(
        blob.hash_computations(),
        1,
        "put path computes hash exactly once"
    );
}

fn make_user(name: &str, age: u64) -> IBlob {
    IBlob::from_pairs(vec![
        ("type", Value::String("user".into())),
        ("name", Value::String(name.into())),
        ("age", Value::U64(age)),
    ])
}

#[test]
fn test_zero_copy_field_extraction() {
    let mut blob = make_user("ZeroCopy", 77);
    let encoded = blob.encode();

    let name = IBlob::extract_field(&encoded, "name").unwrap();
    assert_eq!(name, Value::String("ZeroCopy".into()));

    let age = IBlob::extract_field(&encoded, "age").unwrap();
    assert_eq!(age, Value::U64(77));
}

#[test]
fn value_encodings_are_exact() {
    let mut buf = vec![0xEE];
    Value::Bool(true).encode(&mut buf);
    Value::U64(258).encode(&mut buf);
    Value::String("ab".into()).encode(&mut buf);
    let (first, taken) = Value::decode(&buf, 1).unwrap();
    assert_eq!(first, Value::Bool(true));
    assert_eq!(taken, 2);
    assert_eq!(&buf[1..3], &[1, 1]);
    let (second, taken) = Value::decode(&buf, 3).unwrap();
    assert_eq!(second, Value::U64(258));
    assert_eq!(taken, 9);
    assert_eq!(&buf[3..12], &[3, 2, 1, 0, 0, 0, 0, 0, 0]);
    assert_eq!(&buf[12..], &[5, 2, 0, 0, 0, b'a', b'b']);
}

#[test]
fn values_that_are_cut_short_do_not_decode() {
    let values = vec![
        Value::Bool(true),
        Value::I64(-1),
        Value::U64(7),
        Value::F64(0.5f64.to_bits()),
        Value::String("text".into()),
        Value::Bytes(vec![1, 2, 3]),
        Value::Uuid(DocumentId::from_bytes([1; 16])),
        Value::Array(vec![Value::U64(1), Value::Null]),
        Value::Document(vec![("k".into(), Value::Bool(false))]),
    ];
    for value in &values {
        let mut buf = Vec::new();
        value.encode(&mut buf);
        for len in 0..buf.len() {
            assert!(
                matches!(
                    Value::decode(&buf[..len], 0),
                    Err(BlobError::BufferTooShort { .. })
                ),
                "{:?} cut to {} bytes",
                value,
                len
            );
        }
    }
}

#[test]
fn unknown_tags_and_bad_text_do_not_decode() {
    assert!(matches!(
        Value::decode(&[0xEE], 0),
        Err(BlobError::UnknownValueType(0xEE))
    ));
    let mut buf = Vec::new();
    Value::String("ab".into()).encode(&mut buf);
    let last = buf.len() - 1;
    buf[last] = 0xFF;
    assert!(matches!(
        Value::decode(&buf, 0),
        Err(BlobError::InvalidUtf8)
    ));
}

#[test]
fn floating_point_values_compare_as_numbers() {
    let zero = Value::F64(0.0f64.to_bits());
    let negative_zero = Value::F64((-0.0f64).to_bits());
    let nan = Value::F64(f64::NAN.to_bits());
    assert_eq!(zero, negative_zero);
    assert_ne!(nan, nan.clone());
    assert_ne!(zero, Value::F64(1.0f64.to_bits()));
}

#[test]
fn blobs_that_are_damaged_do_not_decode() {
    let mut blob = sample_blob();
    let good = blob.encode();

    assert!(matches!(
        IBlob::decode(&good[..HEADER_SIZE - 1]),
        Err(BlobError::BufferTooShort { need, have })
            if need == HEADER_SIZE && have == HEADER_SIZE - 1
    ));
    assert!(matches!(
        IBlob::decode(&good[..good.len() - 1]),
        Err(BlobError::BufferTooShort { .. })
    ));

    let mut version = good.clone();
    version[4] = 9;
    assert!(matches!(
        IBlob::decode(&version),
        Err(BlobError::UnsupportedVersion(9))
    ));

    let mut content = good.clone();
    let last = content.len() - 1;
    content[last] ^= 1;
    assert!(IBlob::decode(&content).is_err());

    let mut id = good.clone();
    // The hash covers the identity, which stands in the header.
    let at = good
        .windows(16)
        .position(|w| w == blob.id().as_bytes())
        .unwrap();
    id[at] ^= 1;
    match IBlob::decode(&id) {
        Err(BlobError::HashMismatch { expected, actual }) => {
            assert_eq!(expected.len(), 64);
            assert_eq!(actual.len(), 64);
            assert_ne!(expected, actual);
        }
        other => panic!("unexpected {:?}", other),
    }
}

#[test]
fn extraction_of_a_missing_field_names_its_hash() {
    let mut blob = sample_blob();
    let encoded = blob.encode();
    let digest = blake3::hash(b"nonexistent");
    let mut first = [0u8; 8];
    first.copy_from_slice(&digest.as_bytes()[..8]);
    let hash = u64::from_le_bytes(first);
    assert!(matches!(
        IBlob::extract_field(&encoded, "nonexistent"),
        Err(BlobError::FieldNotFound(h)) if h == hash
    ));
    assert!(encoded.len() > HEADER_SIZE + 3 * INDEX_ENTRY_SIZE);
}

#[test]
fn every_field_can_be_extracted() {
    let names: Vec<String> = (0..100).map(|i| format!("field_{i:04}")).collect();
    let pairs: Vec<(&str, Value)> = names
        .iter()
        .enumerate()
        .map(|(i, k)| (k.as_str(), Value::U64(i as u64)))
        .collect();
    let mut blob = IBlob::from_pairs(pairs);
    assert_eq!(blob.field_count(), 100);
    let encoded = blob.encode();
    for (i, name) in names.iter().enumerate() {
        assert_eq!(
            IBlob::extract_field(&encoded, name).unwrap(),
            Value::U64(i as u64)
        );
    }
    let decoded = IBlob::decode(&encoded).unwrap();
    assert_eq!(decoded, blob);
}

#[test]
fn the_content_hash_is_the_blake3_digest_of_the_content() {
    let id = DocumentId::from_bytes([0x42; 16]);
    let mut blob = IBlob::with_id(id, Fields::new());
    assert_eq!(*blob.hash(), [0u8; 32]);
    blob.encode();
    let mut content = Vec::new();
    content.extend_from_slice(&[0x42; 16]);
    content.extend_from_slice(&[0; 16]);
    content.push(0);
    assert_eq!(blob.hash(), blake3::hash(&content).as_bytes());
}

#[test]
fn setting_a_version_forgets_the_encoding() {
    let mut blob = sample_blob();
    let before = blob.encode();
    blob.set_version(DocumentId::from_bytes([7; 16]));
    assert_eq!(*blob.hash(), [0u8; 32]);
    let after = blob.encode();
    assert_ne!(before, after);
    assert_eq!(blob.hash_computations(), 2);
    assert_eq!(
        *IBlob::decode(&after).unwrap().version(),
        DocumentId::from_bytes([7; 16])
    );
}

#[test]
fn metadata_fields_are_virtual() {
    let blob = sample_blob();
    assert_eq!(blob.get_field("_id"), Some(Value::Uuid(*blob.id())));
    assert_eq!(
        blob.get_field("_version"),
        Some(Value::Uuid(DocumentId::nil()))
    );
    assert_eq!(blob.get_field("age"), Some(Value::U64(42)));
    assert_eq!(blob.get_field("none"), None);
    assert!(blob.get("_id").is_none());
}

#[test]
fn fields_are_sorted_and_the_last_pair_of_a_name_wins() {
    let mut fields = Fields::from_pairs(vec![
        ("b", Value::U64(1)),
        ("a", Value::U64(2)),
        ("b", Value::U64(3)),
    ]);
    assert_eq!(fields.len(), 2);
    assert_eq!(fields.name_at(0), "a");
    assert_eq!(fields.name_at(1), "b");
    assert_eq!(fields.get("b"), Some(&Value::U64(3)));
    let before = fields.insert("a".to_string(), Value::Null);
    assert_eq!(before, Some(Value::U64(2)));
    assert_eq!(fields.insert("c".to_string(), Value::Bool(true)), None);
    assert_eq!(fields.get("a"), Some(&Value::Null));
    assert_eq!(fields.value_at(2), &Value::Bool(true));
    assert!(!fields.is_empty());
    assert!(Fields::new().is_empty());
}

#[test]
fn identifiers_are_version_seven_and_sort_by_creation() {
    let a = DocumentId::new();
    let b = DocumentId::default();
    assert_ne!(a, b);
    assert!(a < b);
    assert_eq!(a.as_bytes()[6] >> 4, 7);
    assert_eq!(a.as_bytes()[8] >> 6, 2);
    assert!(DocumentId::nil().is_nil());
    assert!(!a.is_nil());
    assert!(a < DocumentId::max());
    assert_eq!(DocumentId::max().as_bytes(), &[0xFF; 16]);
}

#[test]
fn identifiers_have_a_hyphenated_text() {
    let mut bytes = [0u8; 16];
    for (i, b) in bytes.iter_mut().enumerate() {
        *b = (i * 17) as u8;
    }
    let id = DocumentId::from_bytes(bytes);
    assert_eq!(id.to_text(), "00112233-4455-6677-8899-aabbccddeeff");
    assert_eq!(
        id.to_debug_text(),
        "DocId(00112233-4455-6677-8899-aabbccddeeff)"
    );
}

#[test]
fn values_that_are_cut_off_do_not_decode() {
    let values = [
        Value::Null,
        Value::Bool(true),
        Value::I64(-1),
        Value::F64(1.5f64.to_bits()),
        Value::Uuid(DocumentId::from_bytes([3; 16])),
        Value::String("some text".into()),
        Value::Array(vec![Value::U64(1), Value::Array(vec![Value::Bool(false)])]),
        Value::Document(vec![
            ("a".into(), Value::Array(vec![Value::Null])),
            ("b".into(), Value::Bytes(vec![1, 2, 3])),
        ]),
    ];
    for value in values {
        let mut buf = vec![0xEE];
        let written = value.encode(&mut buf);
        assert_eq!(written, buf.len() - 1);
        for end in 1..buf.len() {
            match Value::decode(&buf[..end], 1) {
                Err(BlobError::BufferTooShort { need, have }) => {
                    assert_eq!(have, end);
                    assert!(need > end);
                }
                other => panic!("unexpected {:?}", other),
            }
        }
        assert_eq!(Value::decode(&buf, 1).unwrap().1, written);
    }
}
