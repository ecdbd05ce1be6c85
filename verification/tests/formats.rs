use cpac::cpbl::{read_cpbl_frame, write_cpbl_frame};
use cpac::archive::{
    is_solid, list_archive, parse_entries, regular_payloads, solid_blob, solid_concat, split_solid, write_archive,
    write_archive_solid, ArchiveEntry,
};
use cpac::bandwidth::{
    initial_level, is_bandwidth_frame, level_from_i32, read_bandwidth_frame, step_level, write_bandwidth_frame,
    CompressionLevel,
};
use cpac::dag::{deserialize_dag_descriptor, serialize_dag_descriptor};
use cpac::dict::{CpacDictionary, DictionaryMetadata};

#[test]
fn descriptor_roundtrip() {
    let meta_chain = vec![(1u8, vec![0x10, 0x20]), (4u8, vec![])];
    let encoded = serialize_dag_descriptor(&meta_chain);
    let (ids, metas, consumed) = deserialize_dag_descriptor(&encoded).unwrap();
    assert_eq!(ids, vec![1, 4]);
    assert_eq!(metas, vec![vec![0x10, 0x20], vec![]]);
    assert_eq!(consumed, encoded.len());
}

#[test]
fn descriptor_exact_bytes_and_errors() {
    let enc = serialize_dag_descriptor(&[(7u8, vec![0xAA])]);
    assert_eq!(enc, vec![1, 7, 1, 0, 0xAA]);
    assert!(deserialize_dag_descriptor(&[]).is_err());
    assert!(deserialize_dag_descriptor(&[2, 1]).is_err());
    assert!(deserialize_dag_descriptor(&[1, 1, 5, 0, 1]).is_err());
    let (_, _, used) = deserialize_dag_descriptor(&[0, 9, 9]).unwrap();
    assert_eq!(used, 1);
}

#[test]
fn dictionary_serialization_roundtrip() {
    let dict = CpacDictionary {
        metadata: DictionaryMetadata { dict_id: 12345, size: 100, samples: 5, corpus_size: 5000, created_at: 1234567890 },
        data: vec![42u8; 100],
    };
    let bytes = dict.to_bytes();
    let dict2 = CpacDictionary::from_bytes(&bytes).unwrap();
    assert_eq!(dict.metadata.dict_id, dict2.metadata.dict_id);
    assert_eq!(dict.metadata.size, dict2.metadata.size);
    assert_eq!(dict.data, dict2.data);
}

#[test]
fn train_empty_samples_error() {
    let result = CpacDictionary::train(&[], 1024);
    assert!(result.is_err());
}

#[test]
fn invalid_magic() {
    let bytes = b"XXXX".to_vec();
    let result = CpacDictionary::from_bytes(&bytes);
    assert!(result.is_err());
}

#[test]
fn dictionary_header_layout_and_size_check() {
    let dict = CpacDictionary {
        metadata: DictionaryMetadata { dict_id: 1, size: 2, samples: 3, corpus_size: 4, created_at: 5 },
        data: vec![9, 9],
    };
    let b = dict.to_bytes();
    assert_eq!(&b[..5], b"CPDI\x01");
    assert_eq!(b.len(), 39);
    let mut bad = b.clone();
    bad.push(0);
    assert!(CpacDictionary::from_bytes(&bad).is_err());
    let mut badv = b.clone();
    badv[4] = 2;
    assert!(CpacDictionary::from_bytes(&badv).is_err());
}

#[test]
fn bad_magic() {
    assert!(list_archive(b"NOPE1234").is_err());
}

fn entry(path: &str, orig: u64, comp: u64) -> ArchiveEntry {
    ArchiveEntry { path: path.to_string(), original_size: orig, compressed_size: comp, flags: 0, timestamp: 77 }
}

#[test]
fn regular_archive_roundtrip() {
    let entries = vec![(entry("hello.txt", 12, 3), vec![1u8, 2, 3]), (entry("sub/data.bin", 256, 2), vec![4u8, 5])];
    let ar = write_archive(&entries);
    assert!(!is_solid(&ar));
    let listed = list_archive(&ar).unwrap();
    assert_eq!(listed.len(), 2);
    assert_eq!(listed[1].path, "sub/data.bin");
    assert_eq!(listed[0].original_size, 12);
    let parsed = parse_entries(&ar).unwrap();
    assert_eq!(&ar[parsed[0].1..parsed[0].1 + 3], &[1, 2, 3]);
    let payloads = regular_payloads(&ar).unwrap();
    assert_eq!(payloads[1].1, vec![4u8, 5]);
    assert_eq!(payloads[0].0.timestamp, 77);
}

#[test]
fn empty_regular_archive() {
    let ar = write_archive(&[]);
    assert_eq!(ar.len(), 10);
    assert_eq!(list_archive(&ar).unwrap().len(), 0);
}

#[test]
fn truncated_archive_rejected() {
    let entries = vec![(entry("a", 1, 4), vec![1u8, 2, 3, 4])];
    let ar = write_archive(&entries);
    assert!(list_archive(&ar[..ar.len() - 1]).is_err());
    let mut bad_version = ar.clone();
    bad_version[4] = 2;
    assert!(parse_entries(&bad_version).is_err());
}

#[test]
fn solid_archive_roundtrip() {
    let files = vec![
        ("hello.txt".to_string(), b"Hello, CPAR!".to_vec(), 5u64),
        ("sub/data.bin".to_string(), vec![0u8; 256], 6u64),
    ];
    let concat = solid_concat(&files);
    assert_eq!(concat.len(), 12 + 256);
    let blob = vec![0xEEu8; 7];
    let ar = write_archive_solid(&files, &blob);
    assert_eq!(ar[5] & 1, 1);
    assert!(is_solid(&ar));
    let entries = list_archive(&ar).unwrap();
    assert_eq!(entries.len(), 2);
    assert_eq!(entries[1].compressed_size, 12);
    let (index, got_blob) = solid_blob(&ar).unwrap();
    assert_eq!(got_blob, blob);
    let split = split_solid(&index, &concat).unwrap();
    assert_eq!(split[0].1, b"Hello, CPAR!".to_vec());
    assert_eq!(split[1].1, vec![0u8; 256]);
    assert!(split_solid(&index, &concat[..100]).is_err());
}

#[test]
fn solid_empty_archive_layout() {
    let ar = write_archive_solid(&[], &[]);
    assert_eq!(ar[5] & 1, 1);
    assert_eq!(list_archive(&ar).unwrap().len(), 0);
}

#[test]
fn not_bandwidth_frame() {
    assert!(!is_bandwidth_frame(b"XX"));
    assert!(!is_bandwidth_frame(b"CS"));
}

#[test]
fn bandwidth_frame_roundtrip() {
    let blocks = vec![vec![1u8, 2, 3], vec![], vec![9u8; 10]];
    let f = write_bandwidth_frame(13, 4096, &blocks);
    assert!(is_bandwidth_frame(&f));
    assert_eq!(f.len(), 19 + 4 * 3 + 13);
    let (orig, got) = read_bandwidth_frame(&f).unwrap();
    assert_eq!(orig, 13);
    assert_eq!(got, blocks);
    assert!(read_bandwidth_frame(&f[..f.len() - 1]).is_err());
}

#[test]
fn level_presets() {
    assert_eq!(level_from_i32(1), CompressionLevel::UltraFast);
    assert_eq!(level_from_i32(3), CompressionLevel::Fast);
    assert_eq!(level_from_i32(9), CompressionLevel::Default);
    assert_eq!(level_from_i32(10), CompressionLevel::High);
    assert_eq!(level_from_i32(19), CompressionLevel::Best);
    assert_eq!(level_from_i32(-1), CompressionLevel::Best);
}

#[test]
fn is_cpbl_detection() {
    assert!(cpac::cpbl::is_cpbl(b"CPBLsomething"));
    assert!(!cpac::cpbl::is_cpbl(b"CPsomething"));
    assert!(!cpac::cpbl::is_cpbl(b"XX"));
}

#[test]
fn cpbl_bad_magic() {
    assert!(cpac::cpbl::read_cpbl_frame(b"XXBLjunkdata1234567890").is_err());
}

#[test]
fn cpbl_frame_versions_roundtrip() {
    let blocks = vec![vec![1u8, 2], vec![3u8]];
    let v1 = write_cpbl_frame(3, &[0, 0], &[], &[], &blocks);
    assert_eq!(v1[4], 1);
    assert_eq!(v1.len(), 17 + 8 + 3);
    let f1 = read_cpbl_frame(&v1).unwrap();
    assert_eq!(f1.blocks, blocks);
    assert_eq!(f1.block_flags, vec![0, 0]);
    assert_eq!(f1.original_size, 3);
    let v2 = write_cpbl_frame(3, &[1, 0], &[9, 9, 9], &[], &blocks);
    assert_eq!(v2[4], 2);
    let f2 = read_cpbl_frame(&v2).unwrap();
    assert_eq!(f2.block_flags, vec![1, 0]);
    assert_eq!(f2.shared_metadata, vec![9, 9, 9]);
    assert!(f2.dictionary.is_empty());
    let v3 = write_cpbl_frame(3, &[0, 1], &[], &[7, 7], &blocks);
    assert_eq!(v3[4], 3);
    let f3 = read_cpbl_frame(&v3).unwrap();
    assert_eq!(f3.dictionary, vec![7, 7]);
    assert_eq!(f3.blocks, blocks);
    assert!(read_cpbl_frame(&v3[..v3.len() - 1]).is_err());
}

#[test]
fn cpbl_empty_frame() {
    let f = cpac::cpbl::write_cpbl_frame(0, &[], &[], &[], &[]);
    let r = cpac::cpbl::read_cpbl_frame(&f).unwrap();
    assert!(r.blocks.is_empty());
}

#[test]
fn controller_level_stays_in_bounds() {
    assert_eq!(initial_level(1, 19), 10);
    assert_eq!(initial_level(-5, 2), -1);
    let mut level = initial_level(1, 19);
    for delta in [3, 3, 3, 3, -3, 2, -3, -3, -3, -3, -3, -3, 1] {
        level = step_level(level, delta, 1, 19);
        assert!((1..=19).contains(&level));
    }
    assert_eq!(level, 2);
    assert_eq!(step_level(18, 3, 1, 19), 19);
    assert_eq!(step_level(2, -3, 1, 19), 1);
    assert_eq!(step_level(7, 2, 1, 19), 9);
}
