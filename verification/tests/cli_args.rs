use cpac::accel::Backend;
use cpac::bandwidth::CompressionLevel;
use cpac::cli_args::{parse_backend, parse_level};

#[test]
fn level_words() {
    assert_eq!(parse_level("UF"), CompressionLevel::UltraFast);
    assert_eq!(parse_level("1"), CompressionLevel::Fast);
    assert_eq!(parse_level("High"), CompressionLevel::High);
    assert_eq!(parse_level("max"), CompressionLevel::Best);
    assert_eq!(parse_level("whatever"), CompressionLevel::Default);
    assert_eq!(parse_level(""), CompressionLevel::Default);
}

#[test]
fn backend_words() {
    assert_eq!(parse_backend("RAW").unwrap(), Backend::Raw);
    assert_eq!(parse_backend("gz").unwrap(), Backend::Gzip);
    assert_eq!(parse_backend("Zlib-NG").unwrap(), Backend::ZlibNg);
    assert_eq!(parse_backend("zlibng").unwrap(), Backend::ZlibNg);
    assert_eq!(parse_backend("OpenZL").unwrap(), Backend::OpenZl);
}

#[test]
fn backend_unknown_word() {
    assert_eq!(
        parse_backend("Zip").unwrap_err(),
        "unknown backend: zip (available: raw, zstd, brotli, gzip, lzma, xz, lz4, snappy, lzham, lizard, zlib-ng, openzl)"
            .to_string()
    );
    // "zlib_ng" is a benchmark label spelling, not a command-line one
    assert!(parse_backend("zlib_ng").is_err());
}
