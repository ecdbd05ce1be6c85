use cpac::dedup::{
    assemble_dedup, build_dedup_frame, cdc_split, dedup_chunks, fingerprint, is_dedup_frame,
    parse_dedup_frame, DedupConfig, DedupIndex,
};

#[test]
fn cdc_split_basic() {
    let data = vec![0u8; 256 * 1024];
    let cfg = DedupConfig { min_chunk: 1024, avg_chunk: 4096, max_chunk: 16384 };
    let chunks = cdc_split(&data, &cfg);
    assert!(!chunks.is_empty());
    let total: usize = chunks.iter().map(|&(_, len)| len).sum();
    assert_eq!(total, data.len());
    for window in chunks.windows(2) {
        assert_eq!(window[0].0 + window[0].1, window[1].0);
    }
}

#[test]
fn cdc_split_empty() {
    assert!(cdc_split(&[], &DedupConfig::default()).is_empty());
}

#[test]
fn fingerprint_deterministic() {
    let data = b"hello world";
    assert_eq!(fingerprint(data), fingerprint(data));
}

#[test]
fn dedup_index_basic() {
    let mut idx = DedupIndex::default();
    let (id1, new1) = idx.insert(b"chunk_a");
    assert!(new1);
    let (id2, new2) = idx.insert(b"chunk_b");
    assert!(new2);
    assert_ne!(id1, id2);
    let (id3, new3) = idx.insert(b"chunk_a");
    assert!(!new3);
    assert_eq!(id1, id3);
    assert_eq!(idx.unique_count(), 2);
}

#[test]
fn not_dedup_frame() {
    assert!(!is_dedup_frame(b"XX"));
    assert!(!is_dedup_frame(b"CS"));
}

#[test]
fn fingerprint_is_blake3() {
    // BLAKE3 of the empty input.
    let fp = fingerprint(b"");
    assert_eq!(fp[0], 0xaf);
    assert_eq!(fp[1], 0x13);
    assert_eq!(fp[31], 0x62);
}

#[test]
fn dedup_frame_roundtrip_with_duplicates() {
    let block: Vec<u8> = (0u8..=255).cycle().take(4096).collect();
    let data: Vec<u8> = block.repeat(16);
    let cfg = DedupConfig { min_chunk: 2048, avg_chunk: 4096, max_chunk: 8192 };
    let (index, ids) = dedup_chunks(&data, &cfg);
    assert!(index.unique_count() <= ids.len());
    let unique: Vec<Vec<u8>> = (0..index.unique_count() as u32)
        .map(|i| index.get(i).unwrap().to_vec())
        .collect();
    let frame = build_dedup_frame(&unique, &ids, data.len());
    assert!(is_dedup_frame(&frame));
    let parsed = parse_dedup_frame(&frame).unwrap();
    assert_eq!(parsed.chunk_ids, ids);
    assert_eq!(parsed.original_size, data.len() as u64);
    let restored = assemble_dedup(&parsed.chunks, &parsed.chunk_ids, parsed.original_size).unwrap();
    assert_eq!(restored, data);
}

#[test]
fn dedup_frame_roundtrip_no_duplicates() {
    let data: Vec<u8> = (0u8..=255).cycle().take(32768).collect();
    let cfg = DedupConfig { min_chunk: 1024, avg_chunk: 4096, max_chunk: 8192 };
    let (index, ids) = dedup_chunks(&data, &cfg);
    let unique: Vec<Vec<u8>> = (0..index.unique_count() as u32)
        .map(|i| index.get(i).unwrap().to_vec())
        .collect();
    let frame = build_dedup_frame(&unique, &ids, data.len());
    let parsed = parse_dedup_frame(&frame).unwrap();
    let restored = assemble_dedup(&parsed.chunks, &parsed.chunk_ids, parsed.original_size).unwrap();
    assert_eq!(restored, data);
}

#[test]
fn dedup_frame_errors() {
    assert!(parse_dedup_frame(b"XX").is_err());
    let frame = build_dedup_frame(&[b"abc".to_vec()], &[0, 0], 6);
    assert_eq!(frame.len(), 21 + 4 + 3 + 8);
    let mut bad_version = frame.clone();
    bad_version[2] = 2;
    assert!(parse_dedup_frame(&bad_version).is_err());
    assert!(parse_dedup_frame(&frame[..frame.len() - 1]).is_err());
    assert!(assemble_dedup(&[b"abc".to_vec()], &[0, 1], 6).is_err());
    assert!(assemble_dedup(&[b"abc".to_vec()], &[0, 0], 5).is_err());
    assert_eq!(assemble_dedup(&[b"abc".to_vec()], &[0, 0], 6).unwrap(), b"abcabc");
}

#[test]
fn cdc_chunks_respect_max() {
    let data: Vec<u8> = (0..100_000u32).map(|i| (i.wrapping_mul(2654435761) >> 13) as u8).collect();
    let cfg = DedupConfig { min_chunk: 64, avg_chunk: 256, max_chunk: 1000 };
    let chunks = cdc_split(&data, &cfg);
    assert_eq!(chunks[0].0, 0);
    assert!(chunks.iter().all(|&(_, l)| l >= 1 && l <= 1000));
    let last = chunks.last().unwrap();
    assert_eq!(last.0 + last.1, data.len());
}
