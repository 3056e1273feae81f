use ingodb::document_id::DocumentId;
use ingodb::hashing::crc32c_of;
use ingodb::iblob::IBlob;
use ingodb::value::Value;
use ingodb::wal::Wal;

fn make_blob(name: &str) -> IBlob {
    IBlob::from_pairs(vec![
        ("name", Value::String(name.into())),
        ("value", Value::U64(42)),
    ])
}

#[test]
fn test_append_and_recover() {
    let mut blob1 = make_blob("first");
    let mut blob2 = make_blob("second");

    let mut wal = Wal::open("test.wal".into(), 0);
    wal.append(&mut blob1);
    wal.append(&mut blob2);
    let data = wal.take_pending();

    let recovered = Wal::recover(&data);
    assert_eq!(recovered.len(), 2);
    assert_eq!(recovered[0].id(), blob1.id());
    assert_eq!(recovered[0].hash(), blob1.hash());
    assert_eq!(recovered[1].id(), blob2.id());
    assert_eq!(recovered[1].hash(), blob2.hash());
}

#[test]
fn test_recover_empty() {
    let recovered = Wal::recover(&[]);
    assert!(recovered.is_empty());
}

#[test]
fn test_recover_truncated() {
    let mut blob1 = make_blob("good");

    let mut wal = Wal::open("trunc.wal".into(), 0);
    wal.append(&mut blob1);
    let mut data = wal.take_pending();

    // Append garbage to simulate partial write
    data.extend_from_slice(&[0xFF; 20]);

    let recovered = Wal::recover(&data);
    assert_eq!(recovered.len(), 1);
    assert_eq!(recovered[0].hash(), blob1.hash());
}

#[test]
fn test_recover_corrupted_crc() {
    let mut blob1 = make_blob("good");
    let mut blob2 = make_blob("bad");

    let mut wal = Wal::open("corrupt.wal".into(), 0);
    wal.append(&mut blob1);
    wal.append(&mut blob2);
    let mut data = wal.take_pending();

    // Corrupt the CRC of the second record
    let first_blob_bytes = blob1.encode();
    let second_record_start = 8 + first_blob_bytes.len();
    // CRC is at offset +4 within the record
    data[second_record_start + 4] ^= 0xFF;

    let recovered = Wal::recover(&data);
    assert_eq!(recovered.len(), 1); // only first survives
    assert_eq!(recovered[0].hash(), blob1.hash());
}

#[test]
fn test_tombstone_recovery() {
    let id = DocumentId::new();
    let mut tombstone = IBlob::tombstone(id);
    tombstone.set_version(DocumentId::new());

    let mut wal = Wal::open("tomb.wal".into(), 0);
    wal.append(&mut tombstone);
    let data = wal.take_pending();

    let recovered = Wal::recover(&data);
    assert_eq!(recovered.len(), 1);
    assert!(recovered[0].is_deleted());
    assert_eq!(recovered[0].id(), &id);
}

#[test]
fn records_hold_length_checksum_and_blob() {
    let mut blob = make_blob("framed");
    let mut wal = Wal::open("framed.wal".into(), 100);
    assert_eq!(wal.append(&mut blob), 100);
    let bytes = blob.encode();
    assert_eq!(wal.size(), 108 + bytes.len() as u64);
    assert_eq!(wal.path(), "framed.wal");
    let data = wal.take_pending();
    assert_eq!(&data[..4], &(bytes.len() as u32).to_le_bytes());
    assert_eq!(&data[4..8], &crc32c_of(&bytes).to_le_bytes());
    assert_eq!(&data[8..], bytes.as_slice());
    assert!(wal.take_pending().is_empty());
}

#[test]
fn a_batch_is_its_blobs_one_after_another() {
    let mut blobs = vec![make_blob("a"), make_blob("b"), make_blob("c")];
    let mut batch = Wal::open("batch.wal".into(), 0);
    batch.append_batch(&mut blobs);
    let mut single = Wal::open("single.wal".into(), 0);
    let mut offsets = Vec::new();
    for blob in blobs.iter_mut() {
        offsets.push(single.append(blob));
    }
    assert_eq!(batch.size(), single.size());
    let data = batch.take_pending();
    assert_eq!(data, single.take_pending());
    assert_eq!(data.len() as u64, batch.size());
    // A log that was cut inside a record recovers the records before it.
    for (i, offset) in offsets.iter().enumerate() {
        let end = if i + 1 < offsets.len() {
            offsets[i + 1] as usize
        } else {
            data.len()
        };
        for cut in *offset as usize..end {
            assert_eq!(Wal::recover(&data[..cut]).len(), i);
        }
    }
    assert_eq!(Wal::recover(&data).len(), 3);
}

#[test]
fn records_are_checked_with_the_castagnoli_polynomial() {
    assert_eq!(crc32c_of(b""), 0);
    assert_eq!(crc32c_of(b"123456789"), 0xE306_9283);
    assert_eq!(crc32c_of(&[0; 32]), 0x8A91_36AA);
    assert_eq!(crc32c_of(&[0xFF; 32]), 0x62A8_AB43);
    assert_ne!(crc32c_of(b"123456789"), crc32fast::hash(b"123456789"));
    // A record with another checksum is not recovered.
    let mut blob = make_blob("checked");
    let bytes = blob.encode();
    let record = |crc: u32| {
        let mut data = (bytes.len() as u32).to_le_bytes().to_vec();
        data.extend_from_slice(&crc.to_le_bytes());
        data.extend_from_slice(&bytes);
        data
    };
    assert_eq!(Wal::recover(&record(crc32c_of(&bytes))).len(), 1);
    assert!(Wal::recover(&record(crc32fast::hash(&bytes))).is_empty());
}

#[test]
fn appending_computes_each_hash_once() {
    let mut wal = Wal::open("test.wal".into(), 0);
    let mut blob = make_blob("a");
    wal.append(&mut blob);
    assert_eq!(blob.hash_computations(), 1);
    wal.append(&mut blob);
    assert_eq!(blob.hash_computations(), 1);
    let mut blobs = vec![blob, make_blob("b"), make_blob("c")];
    wal.append_batch(&mut blobs);
    wal.append_batch(&mut blobs);
    for blob in &blobs {
        assert_eq!(blob.hash_computations(), 1);
    }
    assert_eq!(Wal::recover(&wal.take_pending()).len(), 8);
}
