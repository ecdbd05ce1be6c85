//! The command line's words for compression levels and backends.

use vstd::prelude::*;
use vstd::string::StringExecFns;
use crate::accel::Backend;
use crate::bandwidth::CompressionLevel;
use crate::bench::{backend_name_spec, backend_of_name, level_of_word, parse_compression_level};
use crate::decimal::{all_ascii, lower_seq, lowercase_of, to_lowercase};

verus! {

/// The level a `--level` word asks for, ignoring ASCII case; any word that
/// names no level asks for the default.
pub fn parse_level(s: &str) -> (r: CompressionLevel)
    ensures
        r == (match level_of_word(lower_seq(s@)) {
            Some(l) => l,
            None => CompressionLevel::Default,
        }),
{
    match parse_compression_level(s) {
        Some(l) => l,
        None => CompressionLevel::Default,
    }
}

/// The backend a lowercase `--backend` word names.
pub open spec fn backend_of_cli_word(s: Seq<char>) -> Option<Backend> {
    if s == "raw"@ {
        Some(Backend::Raw)
    } else if s == "zstd"@ {
        Some(Backend::Zstd)
    } else if s == "brotli"@ {
        Some(Backend::Brotli)
    } else if s == "gzip"@ || s == "gz"@ {
        Some(Backend::Gzip)
    } else if s == "lzma"@ {
        Some(Backend::Lzma)
    } else if s == "xz"@ {
        Some(Backend::Xz)
    } else if s == "lz4"@ {
        Some(Backend::Lz4)
    } else if s == "snappy"@ {
        Some(Backend::Snappy)
    } else if s == "lzham"@ {
        Some(Backend::Lzham)
    } else if s == "lizard"@ {
        Some(Backend::Lizard)
    } else if s == "zlib-ng"@ || s == "zlibng"@ {
        Some(Backend::ZlibNg)
    } else if s == "openzl"@ {
        Some(Backend::OpenZl)
    } else {
        None
    }
}

/// Parses a `--backend` word, ignoring case; otherwise the error names the
/// lowercased word and the choices.
pub fn parse_backend(s: &str) -> (r: Result<Backend, String>)
    ensures
        all_ascii(s@) ==> lowercase_of(s@) == lower_seq(s@),
        match backend_of_cli_word(lowercase_of(s@)) {
            Some(b) => r == Ok::<Backend, String>(b),
            None => r matches Err(msg) && msg@ == "unknown backend: "@ + lowercase_of(s@)
                + " (available: raw, zstd, brotli, gzip, lzma, xz, lz4, snappy, lzham, lizard, zlib-ng, openzl)"@,
        },
{
    let l = to_lowercase(s);
    if l == "raw".to_owned() {
        Ok(Backend::Raw)
    } else if l == "zstd".to_owned() {
        Ok(Backend::Zstd)
    } else if l == "brotli".to_owned() {
        Ok(Backend::Brotli)
    } else if l == "gzip".to_owned() || l == "gz".to_owned() {
        Ok(Backend::Gzip)
    } else if l == "lzma".to_owned() {
        Ok(Backend::Lzma)
    } else if l == "xz".to_owned() {
        Ok(Backend::Xz)
    } else if l == "lz4".to_owned() {
        Ok(Backend::Lz4)
    } else if l == "snappy".to_owned() {
        Ok(Backend::Snappy)
    } else if l == "lzham".to_owned() {
        Ok(Backend::Lzham)
    } else if l == "lizard".to_owned() {
        Ok(Backend::Lizard)
    } else if l == "zlib-ng".to_owned() || l == "zlibng".to_owned() {
        Ok(Backend::ZlibNg)
    } else if l == "openzl".to_owned() {
        Ok(Backend::OpenZl)
    } else {
        let mut m = "unknown backend: ".to_owned();
        m.append(l.as_str());
        m.append(" (available: raw, zstd, brotli, gzip, lzma, xz, lz4, snappy, lzham, lizard, zlib-ng, openzl)");
        Err(m)
    }
}

proof fn lemma_reveal_backend_words()
    ensures
        "raw"@ == seq!['r', 'a', 'w'],
        "zstd"@ == seq!['z', 's', 't', 'd'],
        "zstandard"@ == seq!['z', 's', 't', 'a', 'n', 'd', 'a', 'r', 'd'],
        "brotli"@ == seq!['b', 'r', 'o', 't', 'l', 'i'],
        "gzip"@ == seq!['g', 'z', 'i', 'p'],
        "gz"@ == seq!['g', 'z'],
        "lzma"@ == seq!['l', 'z', 'm', 'a'],
        "xz"@ == seq!['x', 'z'],
        "lz4"@ == seq!['l', 'z', '4'],
        "snappy"@ == seq!['s', 'n', 'a', 'p', 'p', 'y'],
        "lzham"@ == seq!['l', 'z', 'h', 'a', 'm'],
        "lizard"@ == seq!['l', 'i', 'z', 'a', 'r', 'd'],
        "zlib-ng"@ == seq!['z', 'l', 'i', 'b', '-', 'n', 'g'],
        "zlibng"@ == seq!['z', 'l', 'i', 'b', 'n', 'g'],
        "zlib_ng"@ == seq!['z', 'l', 'i', 'b', '_', 'n', 'g'],
        "openzl"@ == seq!['o', 'p', 'e', 'n', 'z', 'l'],
{
    reveal_strlit("raw");
    reveal_strlit("zstd");
    reveal_strlit("zstandard");
    reveal_strlit("brotli");
    reveal_strlit("gzip");
    reveal_strlit("gz");
    reveal_strlit("lzma");
    reveal_strlit("xz");
    reveal_strlit("lz4");
    reveal_strlit("snappy");
    reveal_strlit("lzham");
    reveal_strlit("lizard");
    reveal_strlit("zlib-ng");
    reveal_strlit("zlibng");
    reveal_strlit("zlib_ng");
    reveal_strlit("openzl");
}

/// The command line names every backend by the name the benchmark labels
/// give it: each backend's name parses back to that backend.
pub proof fn lemma_backend_names_parse(b: Backend)
    ensures
        backend_of_cli_word(backend_name_spec(b)) == Some(b),
{
    lemma_reveal_backend_words();
}

/// A backend word of the command line means what it means in a benchmark
/// label: every word other than `raw` that names a backend here names the
/// same backend there, and a word names a backend only as that backend's own
/// name or as one of the two short aliases (`gz`, `zlibng`), so no word is
/// read as another backend.
pub proof fn lemma_backend_words_agree(w: Seq<char>)
    ensures
        backend_of_cli_word(w) matches Some(b) ==> (b != Backend::Raw ==> backend_of_name(w) == Some(b)),
        backend_of_cli_word(w) matches Some(b) ==> (w == backend_name_spec(b)
            || (w == "gz"@ && b == Backend::Gzip) || (w == "zlibng"@ && b == Backend::ZlibNg)),
{
    lemma_reveal_backend_words();
}

} // verus!
