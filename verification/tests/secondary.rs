use ingodb::document_id::DocumentId;
use ingodb::fields::Fields;
use ingodb::iblob::IBlob;
use ingodb::query::Filter;
use ingodb::rebuild::should_full_rebuild;
use ingodb::secondary::{is_drop_due, SecondaryIndex, DROP_COMPACTION_CYCLES, DROP_HOURS};
use ingodb::sstable::error::SSTableError;
use ingodb::sstable::keys::IdKeyExtractor;
use ingodb::sstable::keys::MvccKeyExtractor;
use ingodb::sstable::reader::SSTableReader;
use ingodb::sstable::writer::SSTableWriter;
use ingodb::value::Value;
use std::time::{Duration, Instant};

fn make_primary_sst(blobs: &mut [IBlob]) -> SSTableReader {
    let path = format!("{}.sst", blobs[0].id().to_text());
    let data = SSTableWriter::new().write(blobs, &IdKeyExtractor).unwrap();
    SSTableReader::open(path, data).unwrap()
}

#[test]
fn test_build_secondary_index() {
    let mut blobs = vec![
        IBlob::from_pairs(vec![
            ("name", Value::String("Charlie".into())),
            ("age", Value::U64(30)),
        ]),
        IBlob::from_pairs(vec![
            ("name", Value::String("Alice".into())),
            ("age", Value::U64(25)),
        ]),
        IBlob::from_pairs(vec![
            ("name", Value::String("Bob".into())),
            ("age", Value::U64(35)),
        ]),
    ];
    // Stamp versions (normally done by engine)
    for blob in &mut blobs {
        blob.set_version(DocumentId::new());
    }

    let primary = make_primary_sst(&mut blobs);

    let index =
        SecondaryIndex::build(&["name".into()], &[&primary], "idx_name.sst".into(), 4096).unwrap();

    // Iterate: should be sorted by name
    let sorted = index.iter_sorted().unwrap();
    let names: Vec<_> = sorted
        .iter()
        .filter_map(|(_, blob)| blob.get("name").cloned())
        .collect();
    assert_eq!(
        names,
        vec![
            Value::String("Alice".into()),
            Value::String("Bob".into()),
            Value::String("Charlie".into()),
        ]
    );
}

#[test]
fn test_index_skips_tombstones() {
    let mut live = IBlob::from_pairs(vec![("name", Value::String("Alice".into()))]);
    live.set_version(DocumentId::new());

    let mut tomb = IBlob::tombstone(DocumentId::new());
    tomb.set_version(DocumentId::new());

    let mut blobs = vec![live, tomb];
    let primary = make_primary_sst(&mut blobs);

    let index =
        SecondaryIndex::build(&["name".into()], &[&primary], "idx_name.sst".into(), 4096).unwrap();

    let sorted = index.iter_sorted().unwrap();
    assert_eq!(sorted.len(), 1, "tombstone should be excluded from index");
}

#[test]
fn test_index_matches_sort() {
    let mut blobs = vec![IBlob::from_pairs(vec![("name", Value::String("A".into()))])];
    blobs[0].set_version(DocumentId::new());
    let primary = make_primary_sst(&mut blobs);

    let index =
        SecondaryIndex::build(&["name".into()], &[&primary], "idx.sst".into(), 4096).unwrap();

    assert!(index.matches_sort(&["name".into()]));
    assert!(!index.matches_sort(&["age".into()]));
    assert!(!index.matches_sort(&["name".into(), "age".into()]));
}

#[test]
fn test_index_open_existing() {
    let mut blobs = vec![IBlob::from_pairs(vec![("x", Value::U64(1))])];
    blobs[0].set_version(DocumentId::new());
    let primary = make_primary_sst(&mut blobs);

    let built = SecondaryIndex::build(&["x".into()], &[&primary], "idx.sst".into(), 4096).unwrap();

    // Reopen
    let data = built.reader.data().to_vec();
    let index = SecondaryIndex::open(vec!["x".into()], None, "idx.sst".into(), data).unwrap();
    assert_eq!(index.iter_sorted().unwrap().len(), 1);
}

#[test]
fn test_should_full_rebuild_threshold() {
    // N=1000, ln(1000) ~ 6.9, 0.5 * 1000 * 6.9 ~ 3453
    assert!(!should_full_rebuild(3000, 1000)); // below threshold
    assert!(should_full_rebuild(4000, 1000)); // above threshold

    // N=0: always rebuild
    assert!(should_full_rebuild(1, 0));

    // N=100, 0.5 * 100 * ln(100) ~ 230
    assert!(!should_full_rebuild(200, 100));
    assert!(should_full_rebuild(250, 100));
}

#[test]
fn the_rebuild_threshold_is_exact() {
    for docs in [1u64, 2, 3, 7, 100, 1000, 54321, 1_000_000, 1 << 40, u64::MAX] {
        let n = docs as f64;
        let limit = (0.5 * n * n.ln()).floor();
        if limit < 1e15 {
            assert!(!should_full_rebuild(limit as u64, docs), "{docs}");
            assert!(should_full_rebuild(limit as u64 + 1, docs), "{docs}");
        }
    }
    assert!(!should_full_rebuild(0, 1));
    assert!(should_full_rebuild(1, 1));
    assert!(should_full_rebuild(u64::MAX, 1 << 58));
    assert!(!should_full_rebuild(u64::MAX, u64::MAX));
    assert!(should_full_rebuild(0, 0));
}

#[test]
fn test_merge_buffer_compaction() {
    let mut blobs = vec![
        IBlob::from_pairs(vec![("x", Value::U64(1))]),
        IBlob::from_pairs(vec![("x", Value::U64(3))]),
    ];
    for b in &mut blobs {
        b.set_version(DocumentId::new());
    }
    let primary = make_primary_sst(&mut blobs);

    let mut index =
        SecondaryIndex::build(&["x".into()], &[&primary], "idx.sst".into(), 4096).unwrap();
    assert_eq!(index.entry_count(), 2);

    // Add buffer entry
    let mut new_blob = IBlob::from_pairs(vec![("x", Value::U64(2))]);
    new_blob.set_version(DocumentId::new());
    index.notify_put(&new_blob);
    assert_eq!(index.entry_count(), 3);

    // A large primary_doc_count forces the merge path
    index.compact(&[&primary], 10000, 4096).unwrap();

    // Buffer should be flushed
    assert_eq!(index.buffer.len(), 0);
    // After merge, all entries should be in the SSTable
    assert!(index.entry_count() >= 3);
}

#[test]
fn test_full_rebuild_compaction() {
    let mut blobs = vec![IBlob::from_pairs(vec![("x", Value::U64(1))])];
    blobs[0].set_version(DocumentId::new());
    let primary = make_primary_sst(&mut blobs);

    let mut index =
        SecondaryIndex::build(&["x".into()], &[&primary], "idx.sst".into(), 4096).unwrap();

    // Add many buffer entries to bloat the index (simulating many updates)
    for i in 0..20u64 {
        let mut b = IBlob::from_pairs(vec![("x", Value::U64(i))]);
        b.set_version(DocumentId::new());
        index.notify_put(&b);
    }
    assert_eq!(index.entry_count(), 21); // 1 on-disk + 20 buffer

    // Full rebuild: 21 > 0.5 * 1 * ln(1) = 0
    index.compact(&[&primary], 1, 4096).unwrap();

    // After rebuild from primary, only 1 entry (the single primary doc)
    assert_eq!(index.entry_count(), 1);
    assert_eq!(index.buffer.len(), 0);
}

fn numbered(n: u64) -> Vec<IBlob> {
    (0..n)
        .map(|i| {
            let mut b = IBlob::from_pairs(vec![("x", Value::U64(i))]);
            b.set_version(DocumentId::new());
            b
        })
        .collect()
}

fn below(limit: u64) -> Filter {
    Filter::Lt {
        field: "x".into(),
        value: Value::U64(limit),
    }
}

#[test]
fn test_compaction_extends_to_full_range() {
    // If a partial index covers at least 50% of primary docs, full rebuild extends to full range
    let mut blobs = numbered(10);
    let primary = make_primary_sst(&mut blobs);

    // Build partial index with 6 out of 10 entries (60% > 50%)
    let filter = below(6);
    let partial_blobs: Vec<IBlob> = blobs
        .iter()
        .filter(|b| filter.matches(&|f: &str| b.get_field(f)))
        .cloned()
        .collect();

    let mut index = SecondaryIndex::build_partial(
        &["x".into()],
        Some(filter),
        &partial_blobs,
        "idx.sst".into(),
        4096,
    )
    .unwrap();
    assert!(index.range.is_some(), "starts as partial");
    assert_eq!(index.entry_count(), 6);

    // Add buffer entries to trigger full rebuild
    for i in 0..20u64 {
        let mut b = IBlob::from_pairs(vec![("x", Value::U64(i + 100))]);
        b.set_version(DocumentId::new());
        index.notify_put(&b);
    }

    // Compact: 26 entries > 0.5 * 10 * ln(10), so full rebuild
    // Coverage: 26/10 = 260%, so extend to full range
    index.compact(&[&primary], 10, 4096).unwrap();

    assert!(index.range.is_none(), "should extend to full range");
    assert_eq!(index.entry_count(), 10, "full rebuild from 10 primary docs");
}

#[test]
fn test_compaction_keeps_partial_range() {
    // If partial index covers <50%, keep the partial range
    let mut blobs = numbered(100);
    let primary = make_primary_sst(&mut blobs);

    // Build partial index with only 3 out of 100 entries (3%)
    let filter = below(3);
    let partial_blobs: Vec<IBlob> = blobs
        .iter()
        .filter(|b| filter.matches(&|f: &str| b.get_field(f)))
        .cloned()
        .collect();

    let mut index = SecondaryIndex::build_partial(
        &["x".into()],
        Some(filter.clone()),
        &partial_blobs,
        "idx.sst".into(),
        4096,
    )
    .unwrap();

    // Add buffer entries
    for i in 0..50u64 {
        let mut b = IBlob::from_pairs(vec![("x", Value::U64(i + 1000))]);
        b.set_version(DocumentId::new());
        index.notify_put(&b);
    }

    // 53 entries < 0.5 * 100 * ln(100), so merge, not rebuild
    index.compact(&[&primary], 100, 4096).unwrap();

    // Should still be partial (merge, not rebuild)
    assert!(index.range.is_some(), "should stay partial (merge path)");
}

#[test]
fn test_should_drop_unused() {
    let mut blobs = vec![IBlob::from_pairs(vec![("x", Value::U64(1))])];
    blobs[0].set_version(DocumentId::new());
    let primary = make_primary_sst(&mut blobs);

    let mut index =
        SecondaryIndex::build(&["x".into()], &[&primary], "idx.sst".into(), 4096).unwrap();

    // Fresh index should not be dropped
    assert!(!index.should_drop());

    // After many compaction cycles but recently used: don't drop
    for _ in 0..DROP_COMPACTION_CYCLES + 1 {
        index.mark_compaction();
    }
    assert!(
        !index.should_drop(),
        "recently used — don't drop despite many compactions"
    );
}

#[test]
fn an_index_is_dropped_when_both_limits_are_reached() {
    let hours = DROP_HOURS as u128 * 3600 * 1_000_000_000;
    assert!(is_drop_due(DROP_COMPACTION_CYCLES, hours));
    assert!(!is_drop_due(DROP_COMPACTION_CYCLES - 1, hours));
    assert!(!is_drop_due(DROP_COMPACTION_CYCLES, hours - 1));
    let mut blobs = numbered(1);
    let primary = make_primary_sst(&mut blobs);
    let mut index =
        SecondaryIndex::build(&["x".into()], &[&primary], "idx.sst".into(), 4096).unwrap();
    index.mark_compaction();
    index.mark_compaction();
    assert_eq!(index.compactions_since_use, 2);
    index.mark_used();
    assert_eq!(index.compactions_since_use, 0);
}

fn version_of(id: u8, version: u8, x: u64) -> IBlob {
    let fields = Fields::from_pairs(vec![("x", Value::U64(x)), ("y", Value::Null)]);
    let mut blob = IBlob::with_id(DocumentId::from_bytes([id; 16]), fields);
    blob.set_version(DocumentId::from_bytes([version; 16]));
    blob
}

fn mvcc_sst(blobs: &mut [IBlob]) -> SSTableReader {
    let data = SSTableWriter::with_block_size(1)
        .write(blobs, &MvccKeyExtractor)
        .unwrap();
    SSTableReader::open("mvcc.sst".into(), data).unwrap()
}

fn listed(index: &SecondaryIndex) -> Vec<(u8, Option<Value>)> {
    index
        .iter_sorted()
        .unwrap()
        .into_iter()
        .map(|(id, blob)| (id.as_bytes()[0], blob.get("x").cloned()))
        .collect()
}

#[test]
fn the_newest_version_of_each_document_is_indexed() {
    let mut tomb = IBlob::tombstone(DocumentId::from_bytes([3; 16]));
    tomb.set_version(DocumentId::from_bytes([9; 16]));
    let old = mvcc_sst(&mut [
        version_of(1, 5, 50),
        version_of(2, 5, 70),
        version_of(3, 5, 10),
        version_of(1, 2, 20),
    ]);
    let new = mvcc_sst(&mut [version_of(2, 8, 30), tomb]);
    for tables in [[&old, &new], [&new, &old]] {
        let index =
            SecondaryIndex::build(&["x".into()], &tables, "idx.sst".into(), 4096).unwrap();
        assert_eq!(
            listed(&index),
            vec![(2, Some(Value::U64(30))), (1, Some(Value::U64(50)))]
        );
        let (_, first) = &index.iter_sorted().unwrap()[0];
        assert!(first.is_projection());
        assert!(first.get("y").is_none());
        assert_eq!(index.path, "idx.sst");
    }
}

#[test]
fn an_index_without_documents_is_refused() {
    let mut tomb = IBlob::tombstone(DocumentId::from_bytes([3; 16]));
    tomb.set_version(DocumentId::from_bytes([9; 16]));
    let primary = mvcc_sst(&mut [tomb]);
    assert!(matches!(
        SecondaryIndex::build(&["x".into()], &[&primary], "idx.sst".into(), 4096),
        Err(SSTableError::Empty)
    ));
    assert!(matches!(
        SecondaryIndex::build_partial(&["x".into()], None, &[], "idx.sst".into(), 4096),
        Err(SSTableError::Empty)
    ));
    assert!(matches!(
        SecondaryIndex::open(vec!["x".into()], None, "idx.sst".into(), vec![1, 2, 3]),
        Err(SSTableError::Corrupted(_))
    ));
}

#[test]
fn puts_and_deletes_are_listed_before_and_after_a_merge() {
    let primary = mvcc_sst(&mut [version_of(1, 1, 10), version_of(2, 1, 30)]);
    let mut index =
        SecondaryIndex::build(&["x".into()], &[&primary], "idx.sst".into(), 4096).unwrap();
    index.notify_put(&version_of(3, 2, 20));
    index.notify_put(&version_of(4, 2, 5));
    index.notify_put(&version_of(5, 2, 5));
    index.notify_delete(&DocumentId::from_bytes([1; 16]));
    let wanted = vec![
        (4, Some(Value::U64(5))),
        (5, Some(Value::U64(5))),
        (1, Some(Value::U64(10))),
        (3, Some(Value::U64(20))),
        (2, Some(Value::U64(30))),
        (1, None),
    ];
    // Two documents with one key have an entry each.
    assert_eq!(index.buffer.len(), 4);
    assert_eq!(listed(&index), wanted);
    index.compact_with(&[&primary], 1000, 1, false).unwrap();
    assert_eq!(index.buffer.len(), 0);
    assert_eq!(index.compactions_since_use, 1);
    assert_eq!(listed(&index), wanted);
    let last = index.iter_sorted().unwrap().pop().unwrap();
    assert!(last.1.is_deleted());
    // Nothing is buffered: a merge changes nothing.
    let before = index.reader.data().to_vec();
    index.compact_with(&[&primary], 1000, 1, false).unwrap();
    assert_eq!(index.reader.data(), before.as_slice());
}

#[test]
fn scans_are_inclusive_and_see_the_buffer() {
    let primary = mvcc_sst(&mut [
        version_of(1, 1, 10),
        version_of(2, 1, 30),
        version_of(3, 1, 50),
    ]);
    let mut index =
        SecondaryIndex::build(&["x".into()], &[&primary], "idx.sst".into(), 1).unwrap();
    index.notify_put(&version_of(4, 1, 40));
    index.notify_put(&version_of(5, 1, 60));
    index.notify_delete(&DocumentId::from_bytes([6; 16]));
    let scan = |low: Option<u64>, high: Option<u64>| {
        let low = low.map(Value::U64);
        let high = high.map(Value::U64);
        index
            .range_scan(low.as_ref(), high.as_ref())
            .unwrap()
            .into_iter()
            .map(|(id, _)| id.as_bytes()[0])
            .collect::<Vec<u8>>()
    };
    assert_eq!(scan(Some(30), Some(50)), vec![2, 4, 3]);
    assert_eq!(scan(None, Some(30)), vec![1, 2]);
    assert_eq!(scan(Some(31), None), vec![4, 3, 5, 6]);
    assert_eq!(scan(None, None), vec![1, 2, 4, 3, 5, 6]);
    assert!(scan(Some(41), Some(49)).is_empty());
}

#[test]
fn queries_are_served_by_fields_and_range() {
    let mut blobs = numbered(4);
    let primary = make_primary_sst(&mut blobs);
    let full = SecondaryIndex::build(&["x".into()], &[&primary], "idx.sst".into(), 4096).unwrap();
    assert!(full.matches_query(&["x".into()], None));
    assert!(full.matches_query(&["x".into()], Some(&below(3))));
    assert!(!full.matches_query(&["y".into()], None));
    let partial = SecondaryIndex::build_partial(
        &["x".into()],
        Some(below(3)),
        &blobs,
        "idx.sst".into(),
        4096,
    )
    .unwrap();
    assert!(!partial.matches_query(&["x".into()], None));
    assert!(partial.matches_query(&["x".into()], Some(&below(3))));
    assert!(!partial.matches_query(&["x".into()], Some(&below(4))));
}

#[test]
fn a_rebuild_below_half_keeps_the_range() {
    let mut blobs = numbered(10);
    let primary = make_primary_sst(&mut blobs);
    let mut index = SecondaryIndex::build_partial(
        &["x".into()],
        Some(below(3)),
        &blobs[..2],
        "idx.sst".into(),
        4096,
    )
    .unwrap();
    // Two of ten entries: the range stays and is filled from the primary table.
    index.compact_with(&[&primary], 10, 4096, true).unwrap();
    assert!(index.range.is_some());
    assert_eq!(index.entry_count(), 3);
    // Three of six are half: the range is extended.
    index.compact_with(&[&primary], 6, 4096, true).unwrap();
    assert!(index.range.is_none());
    assert_eq!(index.entry_count(), 10);
    // A rebuild that finds no document leaves the index alone.
    let mut tomb = IBlob::tombstone(DocumentId::new());
    tomb.set_version(DocumentId::new());
    let empty = make_primary_sst(&mut [tomb]);
    index.compact_with(&[&empty], 0, 4096, true).unwrap();
    assert_eq!(index.entry_count(), 10);
}

#[test]
fn a_rebuild_that_pays_covers_half_of_the_documents() {
    for docs in 1..200u64 {
        for entries in 0..200u64 {
            if should_full_rebuild(entries, docs) {
                assert!(2 * entries >= docs, "{entries} of {docs}");
            }
        }
    }
}

#[test]
fn each_document_that_is_put_has_an_entry() {
    let primary = mvcc_sst(&mut [version_of(1, 1, 10)]);
    let mut index =
        SecondaryIndex::build(&["x".into()], &[&primary], "idx.sst".into(), 4096).unwrap();
    let before = index.entry_count();
    index.notify_put(&version_of(2, 1, 7));
    index.notify_put(&version_of(3, 1, 7));
    assert_eq!(index.entry_count(), before + 2);
    assert_eq!(
        listed(&index),
        vec![
            (2, Some(Value::U64(7))),
            (3, Some(Value::U64(7))),
            (1, Some(Value::U64(10))),
        ]
    );
    // A later version with the same value replaces the entry of its document.
    index.notify_put(&version_of(2, 2, 7));
    assert_eq!(index.entry_count(), before + 2);
    // Each deletion has an entry.
    index.notify_delete(&DocumentId::from_bytes([2; 16]));
    index.notify_delete(&DocumentId::from_bytes([3; 16]));
    assert_eq!(index.entry_count(), before + 4);
    let tombs: Vec<u8> = index
        .iter_sorted()
        .unwrap()
        .into_iter()
        .filter(|(_, blob)| blob.is_deleted())
        .map(|(id, _)| id.as_bytes()[0])
        .collect();
    assert_eq!(tombs, vec![2, 3]);
    // What is merged is listed as before, also after opening the file again.
    let wanted = listed(&index);
    index.compact_with(&[&primary], 1000, 1, false).unwrap();
    assert_eq!(listed(&index), wanted);
    let data = index.reader.data().to_vec();
    let again = SecondaryIndex::open(vec!["x".into()], None, "idx.sst".into(), data).unwrap();
    assert_eq!(listed(&again), wanted);
}

#[test]
fn documents_without_the_indexed_fields_are_not_buffered() {
    let primary = mvcc_sst(&mut [version_of(1, 1, 10)]);
    let fields = ["x".to_string(), "y".to_string()];
    let mut index =
        SecondaryIndex::build(&fields, &[&primary], "idx.sst".into(), 4096).unwrap();
    index.notify_put(&IBlob::with_id(DocumentId::from_bytes([2; 16]), Fields::new()));
    let one = Fields::from_pairs(vec![("x", Value::U64(1))]);
    index.notify_put(&IBlob::with_id(DocumentId::from_bytes([3; 16]), one));
    assert_eq!(index.buffer.len(), 0);
    index.notify_put(&version_of(4, 1, 20));
    assert_eq!(index.buffer.len(), 1);
    assert_eq!(index.entry_count(), 2);
}

#[test]
fn a_scan_gives_the_listed_entries_between_the_bounds() {
    let primary = mvcc_sst(&mut [
        version_of(1, 1, 10),
        version_of(2, 1, 30),
        version_of(3, 1, 20),
    ]);
    let mut index =
        SecondaryIndex::build(&["x".into()], &[&primary], "idx.sst".into(), 1).unwrap();
    for (id, x) in [(4, 20), (5, 10), (6, 25), (7, 30), (8, 30)] {
        index.notify_put(&version_of(id, 2, x));
    }
    index.notify_delete(&DocumentId::from_bytes([1; 16]));
    let all = listed(&index);
    assert_eq!(all.len(), 9);
    for low in [None, Some(5u64), Some(10), Some(20), Some(30), Some(31)] {
        for high in [None, Some(5u64), Some(10), Some(25), Some(30)] {
            let start = low.map(Value::U64);
            let end = high.map(Value::U64);
            let found: Vec<_> = index
                .range_scan(start.as_ref(), end.as_ref())
                .unwrap()
                .into_iter()
                .map(|(id, blob)| (id.as_bytes()[0], blob.get("x").cloned()))
                .collect();
            let wanted: Vec<_> = all
                .iter()
                .filter(|(_, x)| match x {
                    Some(Value::U64(x)) => {
                        low.map_or(true, |l| l <= *x) && high.map_or(true, |h| *x <= h)
                    }
                    // A missing value comes after all others.
                    _ => high.is_none(),
                })
                .cloned()
                .collect();
            assert_eq!(found, wanted);
        }
    }
}

#[test]
fn an_index_that_was_not_used_for_long_is_dropped() {
    let mut blobs = numbered(1);
    let primary = make_primary_sst(&mut blobs);
    let mut index =
        SecondaryIndex::build(&["x".into()], &[&primary], "idx.sst".into(), 4096).unwrap();
    let limit = Duration::from_secs(DROP_HOURS as u64 * 3600);
    index.mark_used_at(Instant::now() - limit);
    assert_eq!(index.compactions_since_use, 0);
    assert!(!index.should_drop());
    for _ in 0..DROP_COMPACTION_CYCLES {
        index.mark_compaction();
    }
    assert!(index.should_drop());
    let recent = Instant::now() - limit / 2;
    index.mark_used_at(recent);
    for _ in 0..DROP_COMPACTION_CYCLES {
        index.mark_compaction();
    }
    assert_eq!(index.last_used, recent);
    assert!(!index.should_drop());
    index.mark_used_at(Instant::now() - limit);
    index.mark_used();
    assert!(index.last_used.elapsed() < limit / 2);
}

#[test]
fn a_table_that_compaction_writes_is_read_at_the_path_of_the_index() {
    let mut blobs = numbered(2);
    let primary = make_primary_sst(&mut blobs);
    let mut index =
        SecondaryIndex::build(&["x".into()], &[&primary], "idx.sst".into(), 4096).unwrap();
    index.path = "moved.sst".into();
    // Without buffered entries a merge leaves the table alone.
    index.compact_with(&[&primary], 10_000, 4096, false).unwrap();
    assert_eq!(index.reader.path(), "idx.sst");
    index.notify_put(&numbered(1)[0]);
    let buffer = index.buffer.clone();
    assert_eq!(buffer.len(), 1);
    index.compact_with(&[&primary], 10_000, 4096, false).unwrap();
    assert_eq!(index.reader.path(), "moved.sst");
    assert_eq!(index.buffer.len(), 0);
    assert_eq!(index.entry_count(), 3);
    index.path = "again.sst".into();
    index.compact_with(&[&primary], 2, 4096, true).unwrap();
    assert_eq!(index.reader.path(), "again.sst");
    assert_eq!(index.entry_count(), 2);
    // A rebuild from nothing writes nothing.
    index.path = "last.sst".into();
    index.compact_with(&[], 0, 4096, true).unwrap();
    assert_eq!(index.reader.path(), "again.sst");
}
