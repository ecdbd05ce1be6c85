use cpac::crc::crc32c;
use cpac::wal::{WalReader, WalWriter};

#[test]
fn wal_roundtrip() {
    let mut writer = WalWriter::create(Vec::new()).unwrap();
    writer.append("file1.dat", b"compressed_data_1").unwrap();
    writer.append("file2.dat", b"compressed_data_2").unwrap();
    assert_eq!(writer.entries_written(), 2);
    let buf = writer.into_inner();

    let mut reader = WalReader::open(buf).unwrap();
    let entries = reader.recover_all();
    assert_eq!(entries.len(), 2);
    assert_eq!(entries[0].seq, 0);
    assert_eq!(entries[0].key, "file1.dat");
    assert_eq!(entries[0].payload, b"compressed_data_1");
    assert_eq!(entries[1].seq, 1);
    assert_eq!(entries[1].key, "file2.dat");
}

#[test]
fn wal_recovery_truncated() {
    let mut writer = WalWriter::create(Vec::new()).unwrap();
    writer.append("good", b"ok").unwrap();
    writer.append("also_good", b"ok2").unwrap();
    let data = writer.into_inner();
    let truncated = data[..data.len() - 5].to_vec();
    let mut reader = WalReader::open(truncated).unwrap();
    let entries = reader.recover_all();
    assert_eq!(entries.len(), 1);
    assert_eq!(entries[0].key, "good");
}

#[test]
fn wal_bad_magic() {
    let bad = b"XXbaddata".to_vec();
    let result = WalReader::open(bad);
    assert!(result.is_err());
}

#[test]
fn crc32c_basic() {
    let crc = crc32c(b"123456789");
    assert_eq!(crc, 0xE306_9283);
}

#[test]
fn wal_empty_journal() {
    let writer = WalWriter::create(Vec::new()).unwrap();
    let buf = writer.into_inner();
    let mut reader = WalReader::open(buf).unwrap();
    assert!(reader.created_timestamp() > 0);
    let entries = reader.recover_all();
    assert!(entries.is_empty());
}

#[test]
fn wal_fixed_timestamps_exact_bytes() {
    let mut writer = WalWriter::create_at(Vec::new(), 7);
    let seq = writer.append_at("k", b"p", 9);
    assert_eq!(seq, 0);
    let bytes = writer.into_inner();
    assert_eq!(&bytes[..13], &[0x57, 0x4C, 1, 0, 0, 7, 0, 0, 0, 0, 0, 0, 0]);
    assert_eq!(bytes[13], 0xE1);
    assert_eq!(bytes.len(), 13 + 27 + 1 + 1);
    let crc = crc32c(b"kp");
    assert_eq!(&bytes[bytes.len() - 4..], &crc.to_le_bytes());
    let mut reader = WalReader::open(bytes).unwrap();
    assert_eq!(reader.created_timestamp(), 7);
    let e = reader.next_entry().unwrap().unwrap();
    assert_eq!((e.seq, e.timestamp, e.key.as_str(), e.payload.as_slice()), (0, 9, "k", &b"p"[..]));
    assert!(reader.next_entry().is_none());
}

#[test]
fn wal_corrupt_crc_stops_recovery() {
    let mut writer = WalWriter::create_at(Vec::new(), 1);
    writer.append_at("a", b"one", 2);
    writer.append_at("b", b"two", 3);
    let mut bytes = writer.into_inner();
    let n = bytes.len();
    bytes[n - 6] ^= 0xFF; // flip a payload byte of the second entry
    let mut reader = WalReader::open(bytes).unwrap();
    let entries = reader.recover_all();
    assert_eq!(entries.len(), 1);
    assert_eq!(entries[0].key, "a");
    assert!(matches!(reader.next_entry(), Some(Err(_))));
}

#[test]
fn wal_bad_entry_magic_and_utf8() {
    let mut bytes = WalWriter::create_at(Vec::new(), 1).into_inner();
    bytes.push(0x00);
    let mut reader = WalReader::open(bytes).unwrap();
    assert!(matches!(reader.next_entry(), Some(Err(_))));
    assert!(WalReader::open(vec![0x57, 0x4C, 2, 0, 0, 0, 0, 0, 0, 0, 0, 0, 0]).is_err());
}

#[test]
fn wal_corrupt_tail_keeps_entries() {
    let mut writer = WalWriter::create(Vec::new()).unwrap();
    for i in 0..3u8 {
        writer.append("k", &[i; 4]).unwrap();
    }
    assert_eq!(writer.entries_written(), 3);
    let data = writer.into_inner();
    for tail in [vec![0x00u8, 1, 2], vec![0xE1u8, 0, 0], vec![]] {
        let mut d = data.clone();
        d.extend_from_slice(&tail);
        let entries = WalReader::open(d).unwrap().recover_all();
        assert_eq!(entries.len(), 3);
        for (i, e) in entries.iter().enumerate() {
            assert_eq!(e.seq, i as u64);
            assert_eq!(e.payload, vec![i as u8; 4]);
        }
    }
}
