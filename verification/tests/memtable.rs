use ingodb::document_id::DocumentId;
use ingodb::fields::Fields;
use ingodb::iblob::IBlob;
use ingodb::memtable::MemTable;
use ingodb::sstable::keys::MvccKeyExtractor;
use ingodb::sstable::reader::SSTableReader;
use ingodb::sstable::writer::SSTableWriter;
use ingodb::value::Value;

fn make_blob(n: u64) -> IBlob {
    let mut blob = IBlob::from_pairs(vec![
        ("n", Value::U64(n)),
        ("data", Value::String(format!("item-{n}"))),
    ]);
    blob.set_version(DocumentId::new());
    blob
}

fn with_x(id: DocumentId, x: u64) -> IBlob {
    IBlob::with_id(id, Fields::from_pairs(vec![("x", Value::U64(x))]))
}

#[test]
fn test_insert_and_get() {
    let mut mt = MemTable::new(1024 * 1024);
    let blob = make_blob(1);
    let id = *blob.id();

    mt.insert(blob.clone());
    let retrieved = mt.get_latest(&id).unwrap();
    assert_eq!(retrieved.id(), &id);
}

#[test]
fn test_multi_version() {
    let mut mt = MemTable::new(1024 * 1024);
    let id = DocumentId::new();

    let mut blob1 = with_x(id, 1);
    blob1.set_version(DocumentId::new());
    let v1 = *blob1.version();

    let mut blob2 = with_x(id, 2);
    blob2.set_version(DocumentId::new());
    let v2 = *blob2.version();

    mt.insert(blob1);
    mt.insert(blob2);
    assert_eq!(mt.len(), 2, "both versions coexist");

    // Latest version
    let latest = mt.get_latest(&id).unwrap();
    assert_eq!(latest.get("x"), Some(&Value::U64(2)));

    // Snapshot at v1: should see v1
    let old = mt.get(&id, &v1).unwrap();
    assert_eq!(old.get("x"), Some(&Value::U64(1)));

    // Snapshot at v2: should see v2
    let current = mt.get(&id, &v2).unwrap();
    assert_eq!(current.get("x"), Some(&Value::U64(2)));
}

#[test]
fn test_drain_all_versions() {
    let mut mt = MemTable::new(1024 * 1024);
    let id = DocumentId::new();

    let mut v1 = with_x(id, 1);
    v1.set_version(DocumentId::new());
    let mut v2 = with_x(id, 2);
    v2.set_version(DocumentId::new());

    mt.insert(v1);
    mt.insert(v2);

    let drained = mt.drain();
    assert_eq!(drained.len(), 2, "drain returns all versions");
    assert!(mt.is_empty());
}

#[test]
fn test_drain_sorted() {
    let mut mt = MemTable::new(1024 * 1024);
    for i in 0..10 {
        mt.insert(make_blob(i));
    }

    let drained = mt.drain();
    assert_eq!(drained.len(), 10);
    assert!(mt.is_empty());
    assert_eq!(mt.size_bytes(), 0);
}

#[test]
fn test_flush_threshold() {
    let mut mt = MemTable::new(1);
    let should = mt.insert(make_blob(1));
    assert!(should);
    assert!(mt.should_flush());
}

#[test]
fn test_contains() {
    let mut mt = MemTable::new(1024 * 1024);
    let blob = make_blob(42);
    let id = *blob.id();

    assert!(!mt.contains(&id));
    mt.insert(blob);
    assert!(mt.contains(&id));
}

#[test]
fn test_tombstone_visible_at_snapshot() {
    let mut mt = MemTable::new(1024 * 1024);
    let id = DocumentId::new();

    let mut blob = with_x(id, 1);
    blob.set_version(DocumentId::new());
    let v1 = *blob.version();
    mt.insert(blob);

    let mut tombstone = IBlob::tombstone(id);
    tombstone.set_version(DocumentId::new());
    mt.insert(tombstone);

    // Latest: tombstone
    let latest = mt.get_latest(&id).unwrap();
    assert!(latest.is_deleted());

    // Snapshot at v1: live document
    let old = mt.get(&id, &v1).unwrap();
    assert!(!old.is_deleted());
    assert_eq!(old.get("x"), Some(&Value::U64(1)));
}

fn versioned(id: u8, version: u8, x: u64) -> IBlob {
    let mut blob = with_x(DocumentId::from_bytes([id; 16]), x);
    blob.set_version(DocumentId::from_bytes([version; 16]));
    blob
}

#[test]
fn a_version_that_is_put_again_is_replaced() {
    let mut mt = MemTable::new(1024 * 1024);
    mt.insert(versioned(1, 1, 10));
    let size = mt.size_bytes();
    mt.insert(versioned(1, 1, 20));
    assert_eq!(mt.len(), 1);
    assert_eq!(mt.size_bytes(), size);
    let latest = mt.get_latest(&DocumentId::from_bytes([1; 16])).unwrap();
    assert_eq!(latest.get("x"), Some(&Value::U64(20)));
}

#[test]
fn snapshots_do_not_see_later_versions() {
    let mut mt = MemTable::new(1024 * 1024);
    for (id, version) in [(2, 3), (1, 5), (2, 7), (1, 2)] {
        mt.insert(versioned(id, version, version as u64));
    }
    let seen = |mt: &MemTable, id: u8, at: u8| {
        mt.get(
            &DocumentId::from_bytes([id; 16]),
            &DocumentId::from_bytes([at; 16]),
        )
        .map(|b| b.get("x").cloned().unwrap())
    };
    assert_eq!(seen(&mt, 1, 1), None);
    assert_eq!(seen(&mt, 1, 4), Some(Value::U64(2)));
    assert_eq!(seen(&mt, 1, 9), Some(Value::U64(5)));
    assert_eq!(seen(&mt, 2, 6), Some(Value::U64(3)));
    assert_eq!(seen(&mt, 3, 9), None);
}

#[test]
fn iteration_and_draining_follow_identity_then_version() {
    let mut mt = MemTable::with_default_size();
    for (id, version) in [(2, 3), (1, 5), (2, 1), (1, 2)] {
        mt.insert(versioned(id, version, version as u64));
    }
    assert!(!mt.should_flush());
    let mut iter = mt.iter();
    let mut listed = Vec::new();
    while let Some((id, blob)) = iter.next() {
        assert_eq!(id, *blob.id());
        listed.push((id.as_bytes()[0], blob.version().as_bytes()[0]));
    }
    assert_eq!(listed, vec![(1, 2), (1, 5), (2, 1), (2, 3)]);
    let size = mt.size_bytes();
    let mut encoded = 0;
    let mut drained = Vec::new();
    for mut blob in mt.drain() {
        encoded += blob.encode().len();
        drained.push((blob.id().as_bytes()[0], blob.version().as_bytes()[0]));
    }
    assert_eq!(drained, listed);
    assert_eq!(size, encoded);
    assert!(mt.iter().next().is_none());
}

#[test]
fn flushing_to_a_table_changes_no_read() {
    let mut mt = MemTable::new(1024 * 1024);
    for (id, version) in [(2, 3), (1, 5), (2, 7), (1, 2), (4, 4), (2, 5)] {
        mt.insert(versioned(id, version, version as u64));
    }
    let reads = |get: &dyn Fn(&DocumentId, &DocumentId) -> Option<IBlob>| {
        let mut seen = Vec::new();
        for id in 1..=5u8 {
            for at in 1..=8u8 {
                let blob = get(
                    &DocumentId::from_bytes([id; 16]),
                    &DocumentId::from_bytes([at; 16]),
                );
                seen.push(blob.map(|b| *b.version()));
            }
        }
        seen
    };
    let before = reads(&|id, at| mt.get(id, at));
    let mut blobs = mt.drain();
    let data = SSTableWriter::with_block_size(200)
        .write(&mut blobs, &MvccKeyExtractor)
        .unwrap();
    let table = SSTableReader::open("flushed.sst".into(), data).unwrap();
    let after = reads(&|id, at| table.get_by_id_at(id, at).unwrap());
    assert_eq!(before, after);
}
