use cpac::trials::build_trial_configs;
use cpac::accel::Backend;
use cpac::bandwidth::CompressionLevel;
use cpac::bench::{
    bench_iterations, bench_mode_label, matched_baselines, parse_compression_level, standalone_raw_level, BenchProfile,
    StandaloneCodec,
};
use cpac::decimal::{chars_of, decimal_string, parse_i32};

#[test]
fn standalone_codec_from_label() {
    let codec = StandaloneCodec::from_label("zstd-6").unwrap();
    assert_eq!(codec.backend, Backend::Zstd);
    assert_eq!(codec.cpac_level, CompressionLevel::Default);
    assert_eq!(codec.label(), "zstd-6");

    let codec = StandaloneCodec::from_label("snappy").unwrap();
    assert_eq!(codec.backend, Backend::Snappy);
    assert_eq!(codec.label(), "snappy");

    let codec = StandaloneCodec::from_label("zlib-ng-6").unwrap();
    assert_eq!(codec.backend, Backend::ZlibNg);
    assert_eq!(codec.label(), "zlib-ng-6");

    assert!(StandaloneCodec::from_label("bogus-99").is_none());
}

#[test]
fn from_label_edge_cases() {
    let codec = StandaloneCodec::from_label("ZSTD-19").unwrap();
    assert_eq!(codec.cpac_level, CompressionLevel::Best);
    // A level that no preset maps to falls back to the whole label as a name.
    assert!(StandaloneCodec::from_label("zstd-7").is_none());
    let codec = StandaloneCodec::from_label("zlib-ng").unwrap();
    assert_eq!(codec.backend, Backend::ZlibNg);
    assert_eq!(codec.cpac_level, CompressionLevel::Default);
    let codec = StandaloneCodec::from_label("gz").unwrap();
    assert_eq!(codec.backend, Backend::Gzip);
    let codec = StandaloneCodec::from_label("lizard-+10").unwrap();
    assert_eq!(codec.cpac_level, CompressionLevel::UltraFast);
    assert!(StandaloneCodec::from_label("").is_none());
}

#[test]
fn standalone_labels() {
    let gzip = StandaloneCodec { backend: Backend::Gzip, cpac_level: CompressionLevel::Best };
    assert_eq!(gzip.label(), "gzip-9");
    let lzma = StandaloneCodec { backend: Backend::Lzma, cpac_level: CompressionLevel::Default };
    assert_eq!(lzma.label(), "lzma-6");
    let raw = StandaloneCodec { backend: Backend::Raw, cpac_level: CompressionLevel::Fast };
    assert_eq!(raw.label(), "raw");
    let brotli = StandaloneCodec { backend: Backend::Brotli, cpac_level: CompressionLevel::Best };
    assert_eq!(brotli.label(), "brotli-11");
    assert_eq!(brotli.backend_name(), "brotli");
}

#[test]
fn raw_level_table() {
    assert_eq!(standalone_raw_level(Backend::Raw, CompressionLevel::Best), None);
    assert_eq!(standalone_raw_level(Backend::Zstd, CompressionLevel::High), Some(12));
    assert_eq!(standalone_raw_level(Backend::Lizard, CompressionLevel::Default), Some(26));
    assert_eq!(standalone_raw_level(Backend::Snappy, CompressionLevel::Best), Some(0));
    assert_eq!(standalone_raw_level(Backend::Lz4, CompressionLevel::Default), Some(4));
}

#[test]
fn baselines_cover_every_codec() {
    let b = matched_baselines(CompressionLevel::Fast);
    assert_eq!(b.len(), 11);
    assert!(b.iter().all(|c| c.cpac_level == CompressionLevel::Fast));
    assert!(b.iter().all(|c| c.backend != Backend::Raw));
    assert_eq!(b[0].backend, Backend::Zstd);
    assert_eq!(b[10].backend, Backend::OpenZl);
}

#[test]
fn compression_level_words() {
    assert_eq!(parse_compression_level("UF"), Some(CompressionLevel::UltraFast));
    assert_eq!(parse_compression_level("fast"), Some(CompressionLevel::Fast));
    assert_eq!(parse_compression_level("2"), Some(CompressionLevel::Default));
    assert_eq!(parse_compression_level("High"), Some(CompressionLevel::High));
    assert_eq!(parse_compression_level("max"), Some(CompressionLevel::Best));
    assert_eq!(parse_compression_level("5"), None);
}

#[test]
fn decimal_text() {
    assert_eq!(decimal_string(0), "0");
    assert_eq!(decimal_string(-42), "-42");
    assert_eq!(decimal_string(i64::MIN), "-9223372036854775808");
    assert_eq!(decimal_string(1234567890), "1234567890");
    assert_eq!(parse_i32(&chars_of("-2147483648")), Some(i32::MIN));
    assert_eq!(parse_i32(&chars_of("2147483648")), None);
    assert_eq!(parse_i32(&chars_of("+17")), Some(17));
    assert_eq!(parse_i32(&chars_of("-")), None);
    assert_eq!(parse_i32(&chars_of("1x")), None);
}

#[test]
fn label_reads_back_as_codec() {
    let backends = [
        Backend::Zstd,
        Backend::Brotli,
        Backend::Gzip,
        Backend::Lzma,
        Backend::Xz,
        Backend::Lz4,
        Backend::Snappy,
        Backend::Lzham,
        Backend::Lizard,
        Backend::ZlibNg,
        Backend::OpenZl,
    ];
    let levels = [
        CompressionLevel::UltraFast,
        CompressionLevel::Fast,
        CompressionLevel::Default,
        CompressionLevel::High,
        CompressionLevel::Best,
    ];
    for b in backends {
        for l in levels {
            let c = StandaloneCodec { backend: b, cpac_level: l };
            let back = StandaloneCodec::from_label(&c.label()).unwrap();
            if b == Backend::Snappy {
                assert_eq!(back, StandaloneCodec { backend: b, cpac_level: CompressionLevel::Default });
            } else {
                assert_eq!(back, c);
            }
        }
    }
}

#[test]
fn iterations_pick_profile() {
    assert_eq!(BenchProfile::for_iterations(1), BenchProfile::Quick);
    assert_eq!(BenchProfile::for_iterations(0), BenchProfile::Balanced);
    assert_eq!(BenchProfile::for_iterations(5), BenchProfile::Balanced);
    assert_eq!(BenchProfile::for_iterations(6), BenchProfile::Full);
    assert_eq!(bench_iterations(None, BenchProfile::Full), 10);
    assert_eq!(bench_iterations(Some(7), BenchProfile::Quick), 7);
    assert_eq!(bench_mode_label(true, false, false), "Quick");
    assert_eq!(bench_mode_label(false, true, false), "Full");
    assert_eq!(bench_mode_label(false, false, true), "Custom");
    assert_eq!(bench_mode_label(false, false, false), "Balanced");
}

#[test]
fn profiler_trial_table() {
    let quick = build_trial_configs(true);
    let full = build_trial_configs(false);
    assert_eq!(quick.len(), 7);
    assert_eq!(full.len(), 14);
    assert_eq!(quick[0].label, "cpac-default");
    assert_eq!(quick[0].settings.backend, None);
    assert_eq!(quick[5].label, "brotli-6");
    assert_eq!(quick[5].settings.backend, Some(Backend::Brotli));
    assert_eq!(full[10].label, "force-track1");
    assert_eq!(full[10].settings.force_track, Some(1));
    assert_eq!(full[10].settings.enable_msn, Some(true));
    assert_eq!(full[13].label, "preset-archive");
    assert_eq!(full[13].settings.level, Some(CompressionLevel::Best));
}
