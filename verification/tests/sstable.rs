use ingodb::compression::{pack, unpack};
use ingodb::document_id::DocumentId;
use ingodb::fields::Fields;
use ingodb::iblob::IBlob;
use ingodb::sstable::bloom::BloomFilter;
use ingodb::sstable::error::SSTableError;
use ingodb::sstable::format::{DEFAULT_BLOCK_SIZE, FOOTER_SIZE};
use ingodb::sstable::keys::{
    encode_comparable_value, FieldKeyExtractor, IdKeyExtractor, KeyExtractor, MvccKeyExtractor,
};
use ingodb::sstable::reader::SSTableReader;
use ingodb::sstable::writer::SSTableWriter;
use ingodb::value::Value;

#[test]
fn test_inserted_keys_found() {
    let mut bf = BloomFilter::new(100);
    let key1 = [0xAA; 16];
    let key2 = [0xBB; 16];

    bf.insert(&key1);
    bf.insert(&key2);

    assert!(bf.may_contain(&key1));
    assert!(bf.may_contain(&key2));
}

#[test]
fn test_variable_length_keys() {
    let mut bf = BloomFilter::new(100);
    bf.insert(b"short");
    bf.insert(b"a much longer key value that exceeds 16 bytes");

    assert!(bf.may_contain(b"short"));
    assert!(bf.may_contain(b"a much longer key value that exceeds 16 bytes"));
    assert!(!bf.may_contain(b"not inserted"));
}

#[test]
fn test_false_positive_rate() {
    let n = 1000;
    let mut bf = BloomFilter::new(n);

    // Insert n keys
    for i in 0..n {
        let key = format!("key-{i:06}");
        bf.insert(key.as_bytes());
    }

    // Check n keys that were NOT inserted
    let mut false_positives = 0;
    for i in n..2 * n {
        let key = format!("key-{i:06}");
        if bf.may_contain(key.as_bytes()) {
            false_positives += 1;
        }
    }

    // At 10 bits/key, 7 hashes, expect ~1% FP rate. Allow up to 5%.
    let fp_rate = false_positives as f64 / n as f64;
    assert!(
        fp_rate < 0.05,
        "false positive rate {fp_rate:.3} exceeds 5%"
    );
}

#[test]
fn test_serialization_roundtrip() {
    let mut bf = BloomFilter::new(50);
    let key = [0xCC; 16];
    bf.insert(&key);

    let bf2 = BloomFilter::from_bytes(bf.as_bytes(), bf.num_bits(), bf.num_hashes());
    assert!(bf2.may_contain(&key));
}

#[test]
fn filters_have_ten_bits_for_each_key() {
    let small = BloomFilter::new(1);
    assert_eq!(small.num_bits(), 64);
    assert_eq!(small.as_bytes().len(), 8);
    let odd = BloomFilter::new(33);
    assert_eq!(odd.num_bits(), 330);
    assert_eq!(odd.as_bytes().len(), 42);
    assert_eq!(odd.num_hashes(), 7);
    assert_eq!(odd.probe(b"key"), Some(false));
}

#[test]
fn filters_answer_where_the_bits_of_a_key_lie_within() {
    // Without bits or bytes there is no answer, and without hash functions there is one.
    assert_eq!(BloomFilter::from_bytes(&[], 0, 7).probe(b"key"), None);
    assert_eq!(BloomFilter::from_bytes(&[], 64, 7).probe(b"key"), None);
    assert_eq!(BloomFilter::from_bytes(&[], 0, 0).probe(b"key"), Some(true));
    // Half of the bytes are missing: each key is answered for until a bit lies outside.
    let half = BloomFilter::from_bytes(&[0xFF; 4], 64, 2);
    let empty = BloomFilter::from_bytes(&[0; 4], 64, 2);
    let mut seen = [0u32; 3];
    for i in 0..200u32 {
        let key = i.to_le_bytes();
        let digest = blake3::hash(&key);
        let word = |at: usize| {
            let mut w = [0u8; 8];
            w.copy_from_slice(&digest.as_bytes()[at..at + 8]);
            u64::from_le_bytes(w)
        };
        let first = word(0) % 64 < 32;
        let second = word(0).wrapping_add(word(8)) % 64 < 32;
        let wanted = if first && second { Some(true) } else { None };
        assert_eq!(half.probe(&key), wanted);
        assert_eq!(empty.probe(&key), if first { Some(false) } else { None });
        if first {
            assert!(!empty.may_contain(&key));
        }
        seen[first as usize + (first && second) as usize] += 1;
    }
    assert!(seen.iter().all(|n| *n > 0));
}

#[test]
fn inserting_a_key_sets_few_bits_and_only_once() {
    let count = |f: &BloomFilter| -> u32 { f.as_bytes().iter().map(|b| b.count_ones()).sum() };
    let mut filter = BloomFilter::new(20);
    for i in 0..20u8 {
        let before = filter.clone();
        filter.insert(&[i]);
        assert!(count(&filter) <= count(&before) + 7);
        for (old, new) in before.as_bytes().iter().zip(filter.as_bytes()) {
            assert_eq!(old & new, *old);
        }
        let once = filter.clone();
        filter.insert(&[i]);
        assert_eq!(filter.as_bytes(), once.as_bytes());
    }
    assert_eq!(filter.num_bits(), 200);
}

#[test]
fn filter_bits_come_from_the_digest_of_the_key() {
    let mut bf = BloomFilter::new(1);
    bf.insert(b"key");
    let digest = blake3::hash(b"key");
    let word = |at: usize| {
        let mut w = [0u8; 8];
        w.copy_from_slice(&digest.as_bytes()[at..at + 8]);
        u64::from_le_bytes(w)
    };
    let mut bits = [0u8; 8];
    for i in 0..7u64 {
        let pos = (word(0).wrapping_add(i.wrapping_mul(word(8))) % 64) as usize;
        bits[pos / 8] |= 1 << (pos % 8);
    }
    assert_eq!(bf.as_bytes(), &bits);
}

#[test]
fn test_i64_ordering() {
    let vals = [i64::MIN, -100, -1, 0, 1, 100, i64::MAX];
    let encoded: Vec<Vec<u8>> = vals
        .iter()
        .map(|n| encode_comparable_value(&Value::I64(*n)))
        .collect();
    for i in 1..encoded.len() {
        assert!(
            encoded[i - 1] < encoded[i],
            "i64 order: {} should sort before {}",
            vals[i - 1],
            vals[i]
        );
    }
}

#[test]
fn test_f64_ordering() {
    let vals = [f64::NEG_INFINITY, -1.0, 0.0, 1.0, f64::INFINITY];
    let encoded: Vec<Vec<u8>> = vals
        .iter()
        .map(|n| encode_comparable_value(&Value::F64(n.to_bits())))
        .collect();
    for i in 1..encoded.len() {
        assert!(
            encoded[i - 1] < encoded[i],
            "f64 order: {} should sort before {}",
            vals[i - 1],
            vals[i]
        );
    }
}

#[test]
fn test_different_types_dont_collide() {
    let a = encode_comparable_value(&Value::U64(0));
    let b = encode_comparable_value(&Value::I64(0));
    let c = encode_comparable_value(&Value::String("0".into()));
    assert_ne!(a, b);
    assert_ne!(b, c);
    assert_ne!(a, c);
}

#[test]
fn test_field_key_multi_field() {
    let extractor = FieldKeyExtractor::new(vec!["a".into(), "b".into()]);
    let blob1 = IBlob::from_pairs(vec![("a", Value::String("x".into())), ("b", Value::U64(1))]);
    let blob2 = IBlob::from_pairs(vec![("a", Value::String("x".into())), ("b", Value::U64(2))]);
    let blob3 = IBlob::from_pairs(vec![("a", Value::String("y".into())), ("b", Value::U64(0))]);
    let k1 = extractor.extract_key(&blob1);
    let k2 = extractor.extract_key(&blob2);
    let k3 = extractor.extract_key(&blob3);
    assert!(k1 < k2, "same first field, second field determines order");
    assert!(k2 < k3, "different first field dominates");
}

#[test]
fn test_id_key_extractor() {
    let blob = IBlob::from_pairs(vec![("x", Value::Null)]);
    let key = IdKeyExtractor.extract_key(&blob);
    assert_eq!(key, blob.id().as_bytes().to_vec());
}

#[test]
fn test_comparable_encoding_order() {
    // Verify that byte encoding preserves value ordering
    let vals = [
        Value::U64(0),
        Value::U64(1),
        Value::U64(255),
        Value::U64(256),
        Value::U64(u64::MAX),
    ];
    let encoded: Vec<Vec<u8>> = vals.iter().map(encode_comparable_value).collect();
    for i in 1..encoded.len() {
        assert!(
            encoded[i - 1] < encoded[i],
            "encoding should preserve order: {:?} < {:?}",
            vals[i - 1],
            vals[i]
        );
    }

    let strings = [
        Value::String("".into()),
        Value::String("a".into()),
        Value::String("ab".into()),
        Value::String("b".into()),
    ];
    let encoded: Vec<Vec<u8>> = strings.iter().map(encode_comparable_value).collect();
    for i in 1..encoded.len() {
        assert!(
            encoded[i - 1] < encoded[i],
            "string encoding should preserve order: {:?} < {:?}",
            strings[i - 1],
            strings[i]
        );
    }
}

#[test]
fn comparable_encodings_are_exact() {
    assert_eq!(encode_comparable_value(&Value::Null), vec![0]);
    assert_eq!(encode_comparable_value(&Value::Bool(true)), vec![1, 1]);
    assert_eq!(
        encode_comparable_value(&Value::I64(-1)),
        vec![2, 0x7F, 0xFF, 0xFF, 0xFF, 0xFF, 0xFF, 0xFF, 0xFF]
    );
    assert_eq!(
        encode_comparable_value(&Value::U64(258)),
        vec![3, 0, 0, 0, 0, 0, 0, 1, 2]
    );
    assert_eq!(
        encode_comparable_value(&Value::F64(1.0f64.to_bits())),
        vec![4, 0xBF, 0xF0, 0, 0, 0, 0, 0, 0]
    );
    assert_eq!(
        encode_comparable_value(&Value::Bytes(vec![9])),
        vec![6, 9, 0]
    );
    let uuid = encode_comparable_value(&Value::Uuid(DocumentId::from_bytes([3; 16])));
    assert_eq!(uuid[0], 7);
    assert_eq!(&uuid[1..], &[3; 16]);
    let array = Value::Array(vec![Value::U64(1)]);
    let mut content = Vec::new();
    array.encode(&mut content);
    let encoded = encode_comparable_value(&array);
    assert_eq!(encoded[0], 8);
    assert_eq!(&encoded[1..], &blake3::hash(&content).as_bytes()[..16]);
}

#[test]
fn missing_fields_sort_last() {
    let extractor = FieldKeyExtractor::new(vec!["a".into()]);
    let missing = extractor.extract_key(&IBlob::from_pairs(vec![("b", Value::Null)]));
    assert_eq!(missing, vec![0xFF]);
    let uuid = IBlob::from_pairs(vec![("a", Value::Uuid(DocumentId::max()))]);
    assert!(extractor.extract_key(&uuid) < missing);
    let by_id = FieldKeyExtractor::new(vec!["_id".into()]);
    assert_eq!(&by_id.extract_key(&uuid)[1..], uuid.id().as_bytes());
}

fn make_entries(n: usize) -> Vec<IBlob> {
    (0..n)
        .map(|i| {
            IBlob::from_pairs(vec![
                ("id", Value::U64(i as u64)),
                ("name", Value::String(format!("entry-{i}"))),
            ])
        })
        .collect()
}

fn open(path: &str, data: Vec<u8>) -> SSTableReader {
    SSTableReader::open(path.to_string(), data).unwrap()
}

#[test]
fn test_write_and_read() {
    let mut blobs = make_entries(100);
    let extractor = IdKeyExtractor;

    let data = SSTableWriter::new().write(&mut blobs, &extractor).unwrap();
    let reader = open("test.sst", data);

    // Verify all entries can be looked up by _id
    for blob in &blobs {
        let key = extractor.extract_key(blob);
        let found = reader.get(&key).unwrap().expect("entry not found");
        assert_eq!(found.id(), blob.id());
        assert_eq!(found.fields(), blob.fields());
    }

    // Verify a missing key returns None
    let missing_key = IdKeyExtractor.extract_key(&IBlob::from_pairs(vec![("x", Value::Null)]));
    assert!(reader.get(&missing_key).unwrap().is_none());
}

#[test]
fn test_iter_all_entries() {
    let mut blobs = make_entries(50);
    let data = SSTableWriter::new()
        .write(&mut blobs, &IdKeyExtractor)
        .unwrap();
    let reader = open("iter.sst", data);

    let all = reader.iter().unwrap();
    assert_eq!(all.len(), 50);

    // Verify sorted order by key
    for i in 1..all.len() {
        assert!(all[i - 1].0 <= all[i].0);
    }
}

#[test]
fn test_small_block_size() {
    let mut blobs = make_entries(20);

    let data = SSTableWriter::with_block_size(128)
        .write(&mut blobs, &IdKeyExtractor)
        .unwrap();
    let reader = open("small_blocks.sst", data);

    assert!(reader.block_count() > 1, "expected multiple blocks");

    for blob in &blobs {
        let key = IdKeyExtractor.extract_key(blob);
        let found = reader.get(&key).unwrap().expect("entry not found");
        assert_eq!(found.id(), blob.id());
    }
}

#[test]
fn test_single_entry() {
    let mut blobs = make_entries(1);
    let data = SSTableWriter::new()
        .write(&mut blobs, &IdKeyExtractor)
        .unwrap();
    let reader = open("single.sst", data);

    let key = IdKeyExtractor.extract_key(&blobs[0]);
    let found = reader.get(&key).unwrap().unwrap();
    assert_eq!(found.id(), blobs[0].id());
}

#[test]
fn test_min_max_key() {
    let mut blobs = make_entries(50);
    let data = SSTableWriter::new()
        .write(&mut blobs, &IdKeyExtractor)
        .unwrap();
    let reader = open("minmax.sst", data);

    let all = reader.iter().unwrap();
    assert_eq!(reader.min_key(), all.first().unwrap().0.as_slice());
    assert_eq!(reader.max_key(), all.last().unwrap().0.as_slice());
}

#[test]
fn test_min_max_single_entry() {
    let mut blobs = make_entries(1);
    let data = SSTableWriter::new()
        .write(&mut blobs, &IdKeyExtractor)
        .unwrap();
    let reader = open("minmax1.sst", data);

    assert_eq!(reader.min_key(), reader.max_key());
}

#[test]
fn test_field_key_extractor() {
    let mut blobs = vec![
        IBlob::from_pairs(vec![
            ("name", Value::String("Charlie".into())),
            ("age", Value::U64(30)),
        ]),
        IBlob::from_pairs(vec![
            ("name", Value::String("Alice".into())),
            ("age", Value::U64(25)),
        ]),
        IBlob::from_pairs(vec![
            ("name", Value::String("Bob".into())),
            ("age", Value::U64(35)),
        ]),
    ];

    let extractor = FieldKeyExtractor::new(vec!["name".into()]);
    let data = SSTableWriter::new().write(&mut blobs, &extractor).unwrap();
    let reader = open("field_sort.sst", data);

    // Iterate: should be sorted by name
    let all = reader.iter().unwrap();
    let names: Vec<_> = all
        .iter()
        .map(|(_, blob)| blob.get("name").cloned())
        .collect();
    assert_eq!(
        names,
        vec![
            Some(Value::String("Alice".into())),
            Some(Value::String("Bob".into())),
            Some(Value::String("Charlie".into())),
        ]
    );

    // Point lookup by key
    let alice_key = encode_comparable_value(&Value::String("Alice".into()));
    let found = reader.get(&alice_key).unwrap().unwrap();
    assert_eq!(found.get("name"), Some(&Value::String("Alice".into())));
}

fn version_of(id: u8, version: u8) -> IBlob {
    let fields = Fields::from_pairs(vec![("v", Value::U64(version as u64))]);
    let mut blob = IBlob::with_id(DocumentId::from_bytes([id; 16]), fields);
    blob.set_version(DocumentId::from_bytes([version; 16]));
    blob
}

fn versions() -> Vec<IBlob> {
    let mut blobs = Vec::new();
    for id in [3u8, 1, 2] {
        for version in [6u8, 2, 4] {
            blobs.push(version_of(id, version));
        }
    }
    blobs
}

#[test]
fn snapshots_of_a_table_see_the_highest_version_not_above_them() {
    let mut blobs = versions();
    for block_size in [1, 200, DEFAULT_BLOCK_SIZE] {
        let data = SSTableWriter::with_block_size(block_size)
            .write(&mut blobs, &MvccKeyExtractor)
            .unwrap();
        let reader = open("mvcc.sst", data);
        assert_eq!(reader.min_id(), DocumentId::from_bytes([1; 16]));
        assert_eq!(reader.max_id(), DocumentId::from_bytes([3; 16]));
        for id in 1..=3u8 {
            let key = DocumentId::from_bytes([id; 16]);
            for at in 0..=8u8 {
                let snapshot = DocumentId::from_bytes([at; 16]);
                let found = reader.get_by_id_at(&key, &snapshot).unwrap();
                let wanted = [2u8, 4, 6].into_iter().filter(|v| *v <= at).max();
                assert_eq!(
                    found.map(|b| b.version().as_bytes()[0]),
                    wanted,
                    "id {id} at {at}, block size {block_size}"
                );
            }
            let latest = reader.get_by_id(&key).unwrap().unwrap();
            assert_eq!(latest.get("v"), Some(&Value::U64(6)));
        }
        let absent = DocumentId::from_bytes([9; 16]);
        assert!(reader.get_by_id(&absent).unwrap().is_none());
    }
}

#[test]
fn range_scans_are_inclusive_and_cross_blocks() {
    let mut blobs: Vec<IBlob> = (0..40u64)
        .map(|i| IBlob::from_pairs(vec![("x", Value::U64(i / 2))]))
        .collect();
    let extractor = FieldKeyExtractor::new(vec!["x".into()]);
    for block_size in [1, 300, DEFAULT_BLOCK_SIZE] {
        let data = SSTableWriter::with_block_size(block_size)
            .write(&mut blobs, &extractor)
            .unwrap();
        let reader = open("range.sst", data);
        for (low, high) in [(0, 19), (5, 9), (7, 7), (9, 3), (25, 30)] {
            let found = reader
                .range_scan(
                    &encode_comparable_value(&Value::U64(low)),
                    &encode_comparable_value(&Value::U64(high)),
                )
                .unwrap();
            let wanted = blobs
                .iter()
                .filter(|b| match b.get("x") {
                    Some(Value::U64(x)) => low <= *x && *x <= high,
                    _ => false,
                })
                .count();
            assert_eq!(found.len(), wanted, "{low}..{high} at {block_size}");
            for i in 1..found.len() {
                assert!(found[i - 1].0 <= found[i].0);
            }
        }
    }
}

#[test]
fn equal_keys_keep_their_order_and_the_first_is_found() {
    let mut blobs: Vec<IBlob> = (0..5u64)
        .map(|i| IBlob::from_pairs(vec![("k", Value::Bool(true)), ("n", Value::U64(i))]))
        .collect();
    let extractor = FieldKeyExtractor::new(vec!["k".into()]);
    let data = SSTableWriter::with_block_size(1)
        .write(&mut blobs, &extractor)
        .unwrap();
    let reader = open("equal.sst", data);
    assert_eq!(reader.block_count(), 5);
    let order: Vec<Option<Value>> = reader
        .iter()
        .unwrap()
        .iter()
        .map(|(_, b)| b.get("n").cloned())
        .collect();
    let wanted: Vec<Option<Value>> = (0..5u64).map(|i| Some(Value::U64(i))).collect();
    assert_eq!(order, wanted);
    let found = reader.get(&extractor.extract_key(&blobs[0])).unwrap();
    assert_eq!(found.unwrap().get("n"), Some(&Value::U64(0)));
}

#[test]
fn a_table_of_nothing_is_refused() {
    let mut blobs: Vec<IBlob> = Vec::new();
    assert!(matches!(
        SSTableWriter::new().write(&mut blobs, &IdKeyExtractor),
        Err(SSTableError::Empty)
    ));
}

#[test]
fn large_blobs_are_compressed_and_read_back() {
    let mut blobs = vec![IBlob::from_pairs(vec![(
        "zeros",
        Value::Bytes(vec![0; 4_500_000]),
    )])];
    let data = SSTableWriter::new()
        .write(&mut blobs, &IdKeyExtractor)
        .unwrap();
    let reader = open("zeros.sst", data);
    assert!(reader.file_size() < 100_000);
    let found = reader.get_by_id(blobs[0].id()).unwrap().unwrap();
    assert_eq!(found.get("zeros"), Some(&Value::Bytes(vec![0; 4_500_000])));
}

#[test]
fn a_block_whose_lengths_overflow_is_refused() {
    let mut packed = vec![0u8; 4];
    packed.resize(16_843_020, 0xFF);
    assert!(matches!(
        open_error(table_of_packed(&packed)),
        SSTableError::Corrupted(text)
            if text == "LZ4 decompress failed: length out of range"
    ));
}

fn small_table() -> Vec<u8> {
    let mut blobs = make_entries(3);
    SSTableWriter::new()
        .write(&mut blobs, &IdKeyExtractor)
        .unwrap()
}

fn open_error(data: Vec<u8>) -> SSTableError {
    match SSTableReader::open("bad.sst".to_string(), data) {
        Ok(_) => panic!("the table opens"),
        Err(e) => e,
    }
}

#[test]
fn damaged_footers_are_refused() {
    let good = small_table();
    let end = good.len() - FOOTER_SIZE;
    let reader = open("good.sst", good.clone());
    assert_eq!(reader.file_size(), good.len() as u64);
    assert_eq!(reader.path(), "good.sst");
    assert_eq!(reader.data(), good.as_slice());
    assert_eq!(&good[end + 24..end + 28], b"ISST");

    assert!(matches!(
        open_error(good[..FOOTER_SIZE - 1].to_vec()),
        SSTableError::Corrupted(text) if text == "file too small for footer"
    ));

    let mut magic = good.clone();
    magic[end + 24] = b'X';
    assert!(matches!(open_error(magic), SSTableError::InvalidMagic));

    let mut version = good.clone();
    version[end + 28] = 9;
    assert!(matches!(
        open_error(version),
        SSTableError::UnsupportedVersion(9)
    ));

    let mut bloom = good.clone();
    bloom[end + 20] = 0xFF;
    bloom[end + 23] = 0xFF;
    assert!(matches!(
        open_error(bloom),
        SSTableError::Corrupted(text) if text == "bloom filter out of bounds"
    ));

    let mut count = good.clone();
    count[end + 8] = 7;
    assert!(matches!(
        open_error(count),
        SSTableError::Corrupted(text) if text == "index entry truncated"
    ));

    let mut none = good.clone();
    none[end + 8] = 0;
    assert!(matches!(
        open_error(none),
        SSTableError::Corrupted(text) if text == "SSTable has no blocks"
    ));
}

#[test]
fn damaged_blocks_are_refused() {
    let good = small_table();
    let mut block = good.clone();
    block[10] ^= 0xFF;
    assert!(matches!(
        open_error(block),
        SSTableError::CrcMismatch { offset: 0 }
    ));

    // Damage in a later block shows when it is read.
    let mut blobs = make_entries(20);
    let data = SSTableWriter::with_block_size(1)
        .write(&mut blobs, &IdKeyExtractor)
        .unwrap();
    let clean = open("later.sst", data.clone());
    let keys: Vec<Vec<u8>> = clean.iter().unwrap().into_iter().map(|e| e.0).collect();
    let mut bad = data.clone();
    // The last block ends where the filter begins.
    let end = data.len() - FOOTER_SIZE;
    let mut offset = [0u8; 8];
    offset.copy_from_slice(&data[end + 12..end + 20]);
    let filter = u64::from_le_bytes(offset) as usize;
    bad[filter - 1] ^= 0xFF;
    let reader = open("later.sst", bad);
    assert!(matches!(
        reader.iter(),
        Err(SSTableError::CrcMismatch { .. })
    ));
    assert!(reader.get(&keys[0]).unwrap().is_some());
    assert!(matches!(
        reader.get(&keys[19]),
        Err(SSTableError::CrcMismatch { .. })
    ));
    assert!(matches!(
        reader.range_scan(&keys[18], &keys[19]),
        Err(SSTableError::CrcMismatch { .. })
    ));
    assert_eq!(reader.range_scan(&keys[0], &keys[1]).unwrap().len(), 2);
}

/// A table file with one block of the given content.
fn table_around(raw: &[u8]) -> Vec<u8> {
    table_of_packed(&lz4_flex::compress_prepend_size(raw))
}

/// A table file with one block of the given compressed content.
fn table_of_packed(packed: &[u8]) -> Vec<u8> {
    let mut file = Vec::new();
    file.extend_from_slice(&crc32fast::hash(packed).to_le_bytes());
    file.extend_from_slice(packed);
    let size = file.len() as u32;
    let bloom_offset = file.len() as u64;
    file.extend_from_slice(&64u32.to_le_bytes());
    file.extend_from_slice(&7u32.to_le_bytes());
    file.extend_from_slice(&[0xFF; 8]);
    let index_offset = file.len() as u64;
    file.extend_from_slice(&1u16.to_le_bytes());
    file.push(0xEE);
    file.extend_from_slice(&0u64.to_le_bytes());
    file.extend_from_slice(&size.to_le_bytes());
    file.extend_from_slice(&index_offset.to_le_bytes());
    file.extend_from_slice(&1u32.to_le_bytes());
    file.extend_from_slice(&bloom_offset.to_le_bytes());
    file.extend_from_slice(&16u32.to_le_bytes());
    file.extend_from_slice(b"ISST");
    file.extend_from_slice(&2u16.to_le_bytes());
    file
}

#[test]
fn blocks_are_checked_as_they_are_read() {
    let message = |raw: &[u8]| {
        let reader = open("made.sst", table_around(raw));
        match reader.iter() {
            Err(SSTableError::Corrupted(text)) => text,
            other => panic!("unexpected {:?}", other),
        }
    };
    // A count of two, one key of a single byte, and a blob of no bytes.
    let mut raw = Vec::new();
    raw.extend_from_slice(&2u32.to_le_bytes());
    raw.extend_from_slice(&1u16.to_le_bytes());
    raw.push(0xEE);
    assert_eq!(message(&raw), "truncated blob_len in block");
    raw.extend_from_slice(&9u32.to_le_bytes());
    assert_eq!(message(&raw), "truncated blob in block");

    let mut short = Vec::new();
    short.extend_from_slice(&1u32.to_le_bytes());
    assert!(matches!(
        open_error(table_around(&short)),
        SSTableError::Corrupted(text) if text == "block too small"
    ));
    short.extend_from_slice(&5u16.to_le_bytes());
    assert!(matches!(
        open_error(table_around(&short)),
        SSTableError::Corrupted(text) if text == "first key truncated"
    ));

    let mut blob = Vec::new();
    blob.extend_from_slice(&1u32.to_le_bytes());
    blob.extend_from_slice(&1u16.to_le_bytes());
    blob.push(0xEE);
    blob.extend_from_slice(&2u32.to_le_bytes());
    blob.extend_from_slice(&[1, 2]);
    let reader = open("blob.sst", table_around(&blob));
    assert!(matches!(reader.iter(), Err(SSTableError::Blob(_))));

    // Bytes that do not decompress into the length that they promise.
    let mut file = table_around(&blob);
    let end = file.len() - FOOTER_SIZE;
    let mut offset = [0u8; 8];
    offset.copy_from_slice(&file[end + 12..end + 20]);
    let block_end = u64::from_le_bytes(offset) as usize;
    file[4] = 0;
    let crc = crc32fast::hash(&file[4..block_end]).to_le_bytes();
    file[..4].copy_from_slice(&crc);
    assert!(matches!(
        open_error(file),
        SSTableError::Corrupted(text) if text.starts_with("LZ4 decompress failed: ")
    ));
}

/// A version of a document with one field.
fn dated(id: u8, version: u8, x: u64) -> IBlob {
    let fields = Fields::from_pairs(vec![("x", Value::U64(x))]);
    let mut blob = IBlob::with_id(DocumentId::from_bytes([id; 16]), fields);
    blob.set_version(DocumentId::from_bytes([version; 16]));
    blob
}

#[test]
fn a_snapshot_does_not_see_later_versions_in_any_key_format() {
    let id = DocumentId::from_bytes([1; 16]);
    let at = |version: u8| DocumentId::from_bytes([version; 16]);
    let by_id = SSTableWriter::new()
        .write(&mut [dated(1, 9, 0)], &IdKeyExtractor)
        .unwrap();
    let reader = open("by_id.sst", by_id);
    assert!(reader.get_by_id_at(&id, &at(5)).unwrap().is_none());
    assert!(reader.get_by_id_at(&id, &at(8)).unwrap().is_none());
    assert!(reader.get_by_id_at(&id, &at(9)).unwrap().is_some());
    assert!(reader.get_by_id(&id).unwrap().is_some());
    assert!(reader.get_by_id(&at(2)).unwrap().is_none());
}

#[test]
fn lookups_give_the_latest_version_in_any_key_format() {
    let id = DocumentId::from_bytes([2; 16]);
    // Blocks of one entry and blocks of many.
    for size in [0, 1, 200, 4096] {
        let mut blobs = vec![
            dated(1, 7, 0),
            dated(2, 4, 4),
            dated(2, 8, 8),
            dated(2, 6, 6),
            dated(3, 1, 0),
        ];
        let by_id = SSTableWriter::with_block_size(size)
            .write(&mut blobs, &IdKeyExtractor)
            .unwrap();
        let by_version = SSTableWriter::with_block_size(size)
            .write(&mut blobs, &MvccKeyExtractor)
            .unwrap();
        for data in [by_id, by_version] {
            let reader = open("versions.sst", data);
            let seen = |snapshot: u8| {
                reader
                    .get_by_id_at(&id, &DocumentId::from_bytes([snapshot; 16]))
                    .unwrap()
                    .map(|blob| blob.get("x").cloned().unwrap())
            };
            assert_eq!(seen(3), None);
            assert_eq!(seen(4), Some(Value::U64(4)));
            assert_eq!(seen(5), Some(Value::U64(4)));
            assert_eq!(seen(7), Some(Value::U64(6)));
            assert_eq!(seen(255), Some(Value::U64(8)));
            let latest = reader.get_by_id(&id).unwrap().unwrap();
            assert_eq!(latest.get("x"), Some(&Value::U64(8)));
        }
    }
}

#[test]
fn a_table_has_one_block_for_each_group() {
    let mut blobs: Vec<IBlob> = (0..12).map(|i| dated(i, 1, i as u64)).collect();
    let each = SSTableWriter::with_block_size(0)
        .write(&mut blobs, &IdKeyExtractor)
        .unwrap();
    assert_eq!(open("each.sst", each).block_count(), 12);
    let sizes: Vec<usize> = blobs.iter_mut().map(|b| 6 + 16 + b.encode().len()).collect();
    assert!(sizes.iter().all(|n| *n == sizes[0]));
    // Four entries fit, and one byte less leaves room for three.
    let room = 4 + 4 * sizes[0];
    for (size, blocks) in [(room, 3), (room - 1, 4), (1 << 20, 1)] {
        let data = SSTableWriter::with_block_size(size)
            .write(&mut blobs, &IdKeyExtractor)
            .unwrap();
        assert_eq!(open("groups.sst", data).block_count(), blocks);
    }
}

#[test]
fn large_blocks_are_packed() {
    // Bytes without repetitions are stored as literals.
    let mut state = 0x9E37_79B9_7F4A_7C15u64;
    let mut data = Vec::with_capacity(17_000_000);
    while data.len() < 17_000_000 {
        state ^= state << 13;
        state ^= state >> 7;
        state ^= state << 17;
        data.extend_from_slice(&state.to_le_bytes());
    }
    let packed = pack(&data).unwrap();
    assert!(packed.len() > data.len());
    assert!(unpack(&packed).unwrap() == data);
    // A long row of bytes 0xFF becomes a short one.
    let row = vec![0xFFu8; 17_000_000];
    let packed = pack(&row).unwrap();
    assert!(packed.len() < 80_000);
    assert!(unpack(&packed).unwrap() == row);
}

#[test]
fn the_two_zeros_have_one_encoding() {
    let f = |x: f64| encode_comparable_value(&Value::F64(x.to_bits()));
    assert_eq!(f(0.0), f(-0.0));
    assert_eq!(f(0.0), [4, 0x80, 0, 0, 0, 0, 0, 0, 0]);
    assert!(f(-f64::MIN_POSITIVE) < f(-0.0));
    assert!(f(-0.0) < f(f64::MIN_POSITIVE));
}

#[test]
fn identifiers_sort_as_their_bytes_do() {
    let key = |b: u8| encode_comparable_value(&Value::Uuid(DocumentId::from_bytes([b; 16])));
    for b in 0..255u8 {
        assert!(key(b) < key(b + 1));
    }
}

#[test]
fn writing_a_table_computes_each_hash_once() {
    let mut blobs = make_entries(5);
    let writer = SSTableWriter::new();
    let first = writer.write(&mut blobs, &IdKeyExtractor).unwrap();
    let second = writer.write(&mut blobs, &IdKeyExtractor).unwrap();
    for blob in &blobs {
        assert_eq!(blob.hash_computations(), 1);
    }
    assert_eq!(open("a.sst", first).iter().unwrap().len(), 5);
    assert_eq!(open("b.sst", second).iter().unwrap().len(), 5);
}

#[test]
fn literals_may_be_any_number_of_equal_bytes() {
    let count = 17_000_000usize;
    let mut packed = (count as u32).to_le_bytes().to_vec();
    packed.push(0xF0);
    let rest = count - 15;
    packed.resize(packed.len() + rest / 255, 0xFF);
    packed.push((rest % 255) as u8);
    packed.resize(packed.len() + count, 0xFF);
    let data = unpack(&packed).unwrap();
    assert_eq!(data.len(), count);
    assert!(data.iter().all(|byte| *byte == 0xFF));
    // Three literals, one of them repeated five times, and a literal.
    let packed = [9, 0, 0, 0, 0x31, 1, 2, 3, 1, 0, 0x10, 4];
    assert_eq!(unpack(&packed).unwrap(), [1, 2, 3, 3, 3, 3, 3, 3, 4]);
}
