use cpac::cpbl::{
    block_size_for, check_cpbl_size, dict_training_blocks, split_blocks, EntropyBand, BLOCK_SIZE_LARGE, BLOCK_SIZE_MEDIUM,
    BLOCK_SIZE_SMALL, DEFAULT_BLOCK_SIZE,
};
use cpac::accel::Backend;
use cpac::error::CpacError;

#[test]
fn block_size_low_entropy_large_file() {
    assert_eq!(block_size_for(EntropyBand::Low, 256 << 20), BLOCK_SIZE_LARGE);
}

#[test]
fn block_size_medium_entropy_large_file() {
    assert_eq!(block_size_for(EntropyBand::Medium, 256 << 20), BLOCK_SIZE_MEDIUM);
}

#[test]
fn block_size_high_entropy() {
    assert_eq!(block_size_for(EntropyBand::High, 256 << 20), BLOCK_SIZE_SMALL);
}

#[test]
fn block_size_small_file_clamp() {
    assert_eq!(block_size_for(EntropyBand::Low, 8 << 20), BLOCK_SIZE_SMALL);
    assert_eq!(block_size_for(EntropyBand::Low, 40 << 20), 20 << 20);
    assert_eq!(block_size_for(EntropyBand::Medium, 0), BLOCK_SIZE_SMALL);
}

#[test]
fn blocks_split_and_rejoin() {
    let data: Vec<u8> = (0..10u8).collect();
    let blocks = split_blocks(&data, 4);
    assert_eq!(blocks, vec![vec![0, 1, 2, 3], vec![4, 5, 6, 7], vec![8, 9]]);
    assert_eq!(split_blocks(&data, 5).len(), 2);
    assert!(split_blocks(&[], 4).is_empty());
    let big = vec![7u8; DEFAULT_BLOCK_SIZE + 1];
    let parts = split_blocks(&big, 0);
    assert_eq!(parts.len(), 2);
    assert_eq!(parts[1].len(), 1);
    assert_eq!(parts.concat(), big);
}

#[test]
fn shared_dictionary_decision() {
    assert_eq!(dict_training_blocks(None, 3, false), Some(3));
    assert_eq!(dict_training_blocks(Some(Backend::Zstd), 20, false), Some(8));
    assert_eq!(dict_training_blocks(Some(Backend::Zstd), 2, false), None);
    assert_eq!(dict_training_blocks(Some(Backend::Brotli), 20, false), None);
    assert_eq!(dict_training_blocks(None, 20, true), None);
}

#[test]
fn cpbl_size_mismatch() {
    assert!(check_cpbl_size(10, 10).is_ok());
    assert_eq!(
        check_cpbl_size(9, 10),
        Err(CpacError::DecompressFailed("CPBL size mismatch: expected 10, got 9".to_string()))
    );
}
