//! Benchmark profiles, regression kinds, the corpus scanner's size rule, and
//! the standalone baseline codecs with the table that maps each backend and
//! compression level to the backend's own level.

use vstd::prelude::*;
use vstd::string::StringExecFns;
use crate::accel::Backend;
use crate::bandwidth::CompressionLevel;
use crate::decimal::{
    all_digits, ascii_lowercase, decimal_digits, decimal_of, is_digit, lemma_decimal_digits_read_back,
    lemma_lower_fixed, lemma_parse_decimal, lower_seq, parse_i32, parse_i32_spec, push_decimal, range_is,
    sub_chars,
};

verus! {

/// Benchmark profile controlling the iteration count.
#[derive(Clone, Copy, Debug, PartialEq, Eq)]
pub enum BenchProfile {
    /// One iteration.
    Quick,
    /// Three iterations.
    Balanced,
    /// Ten iterations.
    Full,
}

impl BenchProfile {
    /// Iterations per file: 1, 3 or 10.
    pub fn iterations(self) -> (r: usize)
        ensures
            r == match self {
                BenchProfile::Quick => 1usize,
                BenchProfile::Balanced => 3usize,
                BenchProfile::Full => 10usize,
            },
    {
        match self {
            BenchProfile::Quick => 1,
            BenchProfile::Balanced => 3,
            BenchProfile::Full => 10,
        }
    }

    /// The profile a run of `n` iterations belongs to: one is quick, up to
    /// five balanced, more full.
    pub fn for_iterations(n: usize) -> (r: BenchProfile)
        ensures
            r == (if n == 1 {
                BenchProfile::Quick
            } else if n <= 5 {
                BenchProfile::Balanced
            } else {
                BenchProfile::Full
            }),
    {
        if n == 1 {
            BenchProfile::Quick
        } else if n <= 5 {
            BenchProfile::Balanced
        } else {
            BenchProfile::Full
        }
    }
}

/// The iterations a benchmark runs: the count asked for, else the profile's.
pub fn bench_iterations(requested: Option<usize>, profile: BenchProfile) -> (r: usize)
    ensures
        r == match requested {
            Some(n) => n,
            None => match profile {
                BenchProfile::Quick => 1usize,
                BenchProfile::Balanced => 3usize,
                BenchProfile::Full => 10usize,
            },
        },
{
    match requested {
        Some(n) => n,
        None => profile.iterations(),
    }
}

/// The mode a benchmark run reports: quick, full, custom (an iteration count
/// was given) or balanced.
pub fn bench_mode_label(quick: bool, full: bool, iterations_given: bool) -> (r: &'static str)
    ensures
        r@ == (if quick {
            "Quick"@
        } else if full {
            "Full"@
        } else if iterations_given {
            "Custom"@
        } else {
            "Balanced"@
        }),
{
    if quick {
        "Quick"
    } else if full {
        "Full"
    } else if iterations_given {
        "Custom"
    } else {
        "Balanced"
    }
}

/// Kind of regression.
#[derive(Clone, Debug, PartialEq, Eq)]
pub enum RegressionKind {
    Ratio,
    CompressSpeed,
    DecompressSpeed,
}

/// Discovers the files of a directory for benchmarking.
pub struct CorpusManager;

impl CorpusManager {
    /// The byte limit for a limit in MiB (none when the product overflows).
    pub fn max_bytes(max_size_mb: Option<u64>) -> (r: Option<u64>)
        ensures
            r == match max_size_mb {
                None => None,
                Some(mb) => if mb * 1048576 <= u64::MAX { Some((mb * 1048576) as u64) } else { None },
            },
    {
        match max_size_mb {
            None => None,
            Some(mb) => mb.checked_mul(1048576),
        }
    }

    /// Whether a file of `size` bytes is admitted under the byte limit.
    pub fn admits(size: u64, max_bytes: Option<u64>) -> (r: bool)
        ensures
            r == match max_bytes {
                None => true,
                Some(max) => size <= max,
            },
    {
        match max_bytes {
            None => true,
            Some(max) => size <= max,
        }
    }
}

/// The backend's own level for a compression level, as the benchmark reports
/// it; `None` for `Raw`, which is no standalone codec.
pub open spec fn raw_level_spec(backend: Backend, level: CompressionLevel) -> Option<i32> {
    let five = |uf: i32, f: i32, d: i32, h: i32, b: i32|
        match level {
            CompressionLevel::UltraFast => uf,
            CompressionLevel::Fast => f,
            CompressionLevel::Default => d,
            CompressionLevel::High => h,
            CompressionLevel::Best => b,
        };
    match backend {
        Backend::Raw => None,
        Backend::Zstd => Some(five(1, 3, 6, 12, 19)),
        Backend::Brotli => Some(five(1, 4, 6, 9, 11)),
        Backend::Gzip => Some(five(1, 3, 6, 8, 9)),
        Backend::Lzma => Some(five(0, 2, 6, 8, 9)),
        Backend::Xz => Some(five(0, 2, 6, 8, 9)),
        Backend::Lz4 => Some(five(1, 3, 4, 9, 12)),
        Backend::Snappy => Some(0),
        Backend::Lzham => Some(five(0, 1, 2, 3, 4)),
        Backend::Lizard => Some(five(10, 13, 26, 32, 49)),
        Backend::ZlibNg => Some(five(1, 3, 6, 8, 9)),
        Backend::OpenZl => Some(five(1, 3, 6, 12, 19)),
    }
}

fn pick(level: CompressionLevel, uf: i32, f: i32, d: i32, h: i32, b: i32) -> (r: i32)
    ensures
        r == match level {
            CompressionLevel::UltraFast => uf,
            CompressionLevel::Fast => f,
            CompressionLevel::Default => d,
            CompressionLevel::High => h,
            CompressionLevel::Best => b,
        },
{
    match level {
        CompressionLevel::UltraFast => uf,
        CompressionLevel::Fast => f,
        CompressionLevel::Default => d,
        CompressionLevel::High => h,
        CompressionLevel::Best => b,
    }
}

/// Maps a backend and compression level to the backend's own level.
pub fn standalone_raw_level(backend: Backend, level: CompressionLevel) -> (r: Option<i32>)
    ensures
        r == raw_level_spec(backend, level),
{
    match backend {
        Backend::Raw => None,
        Backend::Zstd => Some(pick(level, 1, 3, 6, 12, 19)),
        Backend::Brotli => Some(pick(level, 1, 4, 6, 9, 11)),
        Backend::Gzip => Some(pick(level, 1, 3, 6, 8, 9)),
        Backend::Lzma => Some(pick(level, 0, 2, 6, 8, 9)),
        Backend::Xz => Some(pick(level, 0, 2, 6, 8, 9)),
        Backend::Lz4 => Some(pick(level, 1, 3, 4, 9, 12)),
        Backend::Snappy => Some(0),
        Backend::Lzham => Some(pick(level, 0, 1, 2, 3, 4)),
        Backend::Lizard => Some(pick(level, 10, 13, 26, 32, 49)),
        Backend::ZlibNg => Some(pick(level, 1, 3, 6, 8, 9)),
        Backend::OpenZl => Some(pick(level, 1, 3, 6, 12, 19)),
    }
}

/// A standalone codec at a compression level, for baseline comparison.
#[derive(Clone, Copy, Debug, PartialEq, Eq)]
pub struct StandaloneCodec {
    /// Which backend to use.
    pub backend: Backend,
    /// The compression level (mapped to the backend's own level).
    pub cpac_level: CompressionLevel,
}

/// The short, lowercase name of a backend.
pub open spec fn backend_name_spec(b: Backend) -> Seq<char> {
    match b {
        Backend::Zstd => "zstd"@,
        Backend::Brotli => "brotli"@,
        Backend::Gzip => "gzip"@,
        Backend::Lzma => "lzma"@,
        Backend::Xz => "xz"@,
        Backend::Lz4 => "lz4"@,
        Backend::Snappy => "snappy"@,
        Backend::Lzham => "lzham"@,
        Backend::Lizard => "lizard"@,
        Backend::ZlibNg => "zlib-ng"@,
        Backend::OpenZl => "openzl"@,
        Backend::Raw => "raw"@,
    }
}

/// A codec's label: `snappy` for snappy, else the backend's name, `-` and
/// its own level (`zstd-6`), or the bare name when it has no level.
pub open spec fn label_spec(c: StandaloneCodec) -> Seq<char> {
    match raw_level_spec(c.backend, c.cpac_level) {
        Some(l) => if c.backend == Backend::Snappy {
            "snappy"@
        } else {
            backend_name_spec(c.backend) + "-"@ + decimal_of(l as int)
        },
        None => backend_name_spec(c.backend),
    }
}

/// The backend a (lowercase) name stands for, aliases included.
pub open spec fn backend_of_name(s: Seq<char>) -> Option<Backend> {
    if s == "zstd"@ || s == "zstandard"@ {
        Some(Backend::Zstd)
    } else if s == "brotli"@ {
        Some(Backend::Brotli)
    } else if s == "gzip"@ || s == "gz"@ {
        Some(Backend::Gzip)
    } else if s == "lzma"@ {
        Some(Backend::Lzma)
    } else if s == "xz"@ {
        Some(Backend::Xz)
    } else if s == "lz4"@ {
        Some(Backend::Lz4)
    } else if s == "snappy"@ {
        Some(Backend::Snappy)
    } else if s == "lzham"@ {
        Some(Backend::Lzham)
    } else if s == "lizard"@ {
        Some(Backend::Lizard)
    } else if s == "zlib-ng"@ || s == "zlibng"@ || s == "zlib_ng"@ {
        Some(Backend::ZlibNg)
    } else if s == "openzl"@ {
        Some(Backend::OpenZl)
    } else {
        None
    }
}

/// The first compression level, from ultra-fast to best, at which `b` runs
/// at its own level `raw`.
pub open spec fn level_for_raw(b: Backend, raw: i32) -> Option<CompressionLevel> {
    if raw_level_spec(b, CompressionLevel::UltraFast) == Some(raw) {
        Some(CompressionLevel::UltraFast)
    } else if raw_level_spec(b, CompressionLevel::Fast) == Some(raw) {
        Some(CompressionLevel::Fast)
    } else if raw_level_spec(b, CompressionLevel::Default) == Some(raw) {
        Some(CompressionLevel::Default)
    } else if raw_level_spec(b, CompressionLevel::High) == Some(raw) {
        Some(CompressionLevel::High)
    } else if raw_level_spec(b, CompressionLevel::Best) == Some(raw) {
        Some(CompressionLevel::Best)
    } else {
        None
    }
}

/// The index of the last `-` in `s`.
pub open spec fn last_dash(s: Seq<char>) -> Option<int>
    decreases s.len(),
{
    if s.len() == 0 {
        None
    } else if s.last() == '-' {
        Some(s.len() - 1)
    } else {
        last_dash(s.drop_last())
    }
}

/// The codec a label names. The label is read in ASCII lowercase. When it
/// splits at its last `-` into a name and an `i32`: an unknown name gives
/// `None`, and a level of the table that gives that number gives the codec.
/// Otherwise the whole label is a backend name at the default level.
pub open spec fn from_label_spec(s: Seq<char>) -> Option<StandaloneCodec> {
    let low = lower_seq(s);
    let split: Option<Option<StandaloneCodec>> = match last_dash(low) {
        Some(k) => match parse_i32_spec(low.subrange(k + 1, low.len() as int)) {
            Some(raw) => match backend_of_name(low.subrange(0, k)) {
                None => Some(None),
                Some(b) => match level_for_raw(b, raw) {
                    Some(l) => Some(Some(StandaloneCodec { backend: b, cpac_level: l })),
                    None => None,
                },
            },
            None => None,
        },
        None => None,
    };
    match split {
        Some(r) => r,
        None => match backend_of_name(low) {
            Some(b) => Some(StandaloneCodec { backend: b, cpac_level: CompressionLevel::Default }),
            None => None,
        },
    }
}

proof fn lemma_last_dash_bound(s: Seq<char>)
    ensures
        last_dash(s) matches Some(k) ==> 0 <= k < s.len(),
    decreases s.len(),
{
    if s.len() > 0 && s.last() != '-' {
        lemma_last_dash_bound(s.drop_last());
    }
}

fn find_last_dash(v: &Vec<char>) -> (r: Option<usize>)
    ensures
        r matches Some(k) ==> last_dash(v@) == Some(k as int) && k < v@.len(),
        r is None ==> last_dash(v@) is None,
{
    proof { lemma_last_dash_bound(v@); }
    let mut i: usize = v.len();
    assert(v@.subrange(0, i as int) =~= v@);
    while i > 0
        invariant
            i <= v@.len(),
            last_dash(v@) == last_dash(v@.subrange(0, i as int)),
        decreases i,
    {
        let ghost pre = v@.subrange(0, i as int);
        assert(pre.drop_last() =~= v@.subrange(0, i - 1));
        if v[i - 1] == '-' {
            return Some(i - 1);
        }
        i = i - 1;
    }
    assert(v@.subrange(0, 0) =~= Seq::<char>::empty());
    None
}

fn backend_named(v: &Vec<char>, lo: usize, hi: usize) -> (r: Option<Backend>)
    requires
        lo <= hi <= v@.len(),
    ensures
        r == backend_of_name(v@.subrange(lo as int, hi as int)),
{
    if range_is(v, lo, hi, "zstd") || range_is(v, lo, hi, "zstandard") {
        Some(Backend::Zstd)
    } else if range_is(v, lo, hi, "brotli") {
        Some(Backend::Brotli)
    } else if range_is(v, lo, hi, "gzip") || range_is(v, lo, hi, "gz") {
        Some(Backend::Gzip)
    } else if range_is(v, lo, hi, "lzma") {
        Some(Backend::Lzma)
    } else if range_is(v, lo, hi, "xz") {
        Some(Backend::Xz)
    } else if range_is(v, lo, hi, "lz4") {
        Some(Backend::Lz4)
    } else if range_is(v, lo, hi, "snappy") {
        Some(Backend::Snappy)
    } else if range_is(v, lo, hi, "lzham") {
        Some(Backend::Lzham)
    } else if range_is(v, lo, hi, "lizard") {
        Some(Backend::Lizard)
    } else if range_is(v, lo, hi, "zlib-ng") || range_is(v, lo, hi, "zlibng") || range_is(
        v,
        lo,
        hi,
        "zlib_ng",
    ) {
        Some(Backend::ZlibNg)
    } else if range_is(v, lo, hi, "openzl") {
        Some(Backend::OpenZl)
    } else {
        None
    }
}

fn level_matching(b: Backend, raw: i32) -> (r: Option<CompressionLevel>)
    ensures
        r == level_for_raw(b, raw),
{
    if standalone_raw_level(b, CompressionLevel::UltraFast) == Some(raw) {
        Some(CompressionLevel::UltraFast)
    } else if standalone_raw_level(b, CompressionLevel::Fast) == Some(raw) {
        Some(CompressionLevel::Fast)
    } else if standalone_raw_level(b, CompressionLevel::Default) == Some(raw) {
        Some(CompressionLevel::Default)
    } else if standalone_raw_level(b, CompressionLevel::High) == Some(raw) {
        Some(CompressionLevel::High)
    } else if standalone_raw_level(b, CompressionLevel::Best) == Some(raw) {
        Some(CompressionLevel::Best)
    } else {
        None
    }
}

impl StandaloneCodec {
    /// Short name for the backend (lowercase, CLI-friendly).
    pub fn backend_name(&self) -> (r: &'static str)
        ensures
            r@ == backend_name_spec(self.backend),
    {
        match self.backend {
            Backend::Zstd => "zstd",
            Backend::Brotli => "brotli",
            Backend::Gzip => "gzip",
            Backend::Lzma => "lzma",
            Backend::Xz => "xz",
            Backend::Lz4 => "lz4",
            Backend::Snappy => "snappy",
            Backend::Lzham => "lzham",
            Backend::Lizard => "lizard",
            Backend::ZlibNg => "zlib-ng",
            Backend::OpenZl => "openzl",
            Backend::Raw => "raw",
        }
    }

    /// Human-readable label, e.g. `zstd-6`, `snappy`, `brotli-11`.
    pub fn label(&self) -> (r: String)
        ensures
            r@ == label_spec(*self),
    {
        match standalone_raw_level(self.backend, self.cpac_level) {
            Some(l) => {
                if self.backend == Backend::Snappy {
                    "snappy".to_owned()
                } else {
                    let mut s = self.backend_name().to_owned();
                    s.append("-");
                    push_decimal(&mut s, l as i64);
                    s
                }
            },
            None => self.backend_name().to_owned(),
        }
    }

    /// Parses a codec from its label (`zstd-6`, `snappy`, `zlib-ng-6`).
    pub fn from_label(s: &str) -> (r: Option<StandaloneCodec>)
        ensures
            r == from_label_spec(s@),
    {
        let low = ascii_lowercase(s);
        let n = low.len();
        match find_last_dash(&low) {
            Some(k) => {
                let level_chars = sub_chars(&low, k + 1, n);
                match parse_i32(&level_chars) {
                    Some(raw) => {
                        match backend_named(&low, 0, k) {
                            None => {
                                return None;
                            },
                            Some(b) => {
                                match level_matching(b, raw) {
                                    Some(l) => {
                                        return Some(StandaloneCodec { backend: b, cpac_level: l });
                                    },
                                    None => {},
                                }
                            },
                        }
                    },
                    None => {},
                }
            },
            None => {},
        }
        assert(low@.subrange(0, n as int) =~= low@);
        match backend_named(&low, 0, n) {
            Some(b) => Some(StandaloneCodec { backend: b, cpac_level: CompressionLevel::Default }),
            None => None,
        }
    }
}

/// The backends of the baseline comparison, in report order: every backend
/// but `Raw`.
pub open spec fn baseline_backends() -> Seq<Backend> {
    seq![
        Backend::Zstd,
        Backend::Brotli,
        Backend::Gzip,
        Backend::Lzma,
        Backend::Xz,
        Backend::Lz4,
        Backend::Snappy,
        Backend::Lzham,
        Backend::Lizard,
        Backend::ZlibNg,
        Backend::OpenZl,
    ]
}

/// One standalone codec per baseline backend, all at `level`.
pub fn matched_baselines(level: CompressionLevel) -> (r: Vec<StandaloneCodec>)
    ensures
        r@.len() == baseline_backends().len(),
        forall|i: int| 0 <= i < r@.len() ==> #[trigger] r@[i] == (StandaloneCodec {
            backend: baseline_backends()[i],
            cpac_level: level,
        }),
        forall|i: int| 0 <= i < r@.len() ==> (#[trigger] raw_level_spec(r@[i].backend, level)) is Some,
{
    let backends = [
        Backend::Zstd,
        Backend::Brotli,
        Backend::Gzip,
        Backend::Lzma,
        Backend::Xz,
        Backend::Lz4,
        Backend::Snappy,
        Backend::Lzham,
        Backend::Lizard,
        Backend::ZlibNg,
        Backend::OpenZl,
    ];
    assert(backends@ =~= baseline_backends());
    let mut out: Vec<StandaloneCodec> = Vec::new();
    let mut i: usize = 0;
    while i < 11
        invariant
            i <= 11,
            backends@ == baseline_backends(),
            out@.len() == i,
            forall|j: int| 0 <= j < i ==> #[trigger] out@[j] == (StandaloneCodec {
                backend: baseline_backends()[j],
                cpac_level: level,
            }),
        decreases 11 - i,
    {
        let b = backends[i];
        if standalone_raw_level(b, level).is_some() {
            out.push(StandaloneCodec { backend: b, cpac_level: level });
        }
        i = i + 1;
    }
    out
}

/// The compression level a (lowercase) word names.
pub open spec fn level_of_word(s: Seq<char>) -> Option<CompressionLevel> {
    if s == "ultrafast"@ || s == "uf"@ || s == "0"@ {
        Some(CompressionLevel::UltraFast)
    } else if s == "fast"@ || s == "f"@ || s == "1"@ {
        Some(CompressionLevel::Fast)
    } else if s == "default"@ || s == "d"@ || s == "2"@ {
        Some(CompressionLevel::Default)
    } else if s == "high"@ || s == "h"@ || s == "3"@ {
        Some(CompressionLevel::High)
    } else if s == "best"@ || s == "b"@ || s == "max"@ || s == "4"@ {
        Some(CompressionLevel::Best)
    } else {
        None
    }
}

/// Parses a compression level, ignoring ASCII case: `ultrafast`/`uf`/`0`,
/// `fast`/`f`/`1`, `default`/`d`/`2`, `high`/`h`/`3`, `best`/`b`/`max`/`4`.
pub fn parse_compression_level(s: &str) -> (r: Option<CompressionLevel>)
    ensures
        r == level_of_word(lower_seq(s@)),
{
    let low = ascii_lowercase(s);
    let n = low.len();
    assert(low@.subrange(0, n as int) =~= low@);
    if range_is(&low, 0, n, "ultrafast") || range_is(&low, 0, n, "uf") || range_is(&low, 0, n, "0") {
        Some(CompressionLevel::UltraFast)
    } else if range_is(&low, 0, n, "fast") || range_is(&low, 0, n, "f") || range_is(&low, 0, n, "1") {
        Some(CompressionLevel::Fast)
    } else if range_is(&low, 0, n, "default") || range_is(&low, 0, n, "d") || range_is(&low, 0, n, "2") {
        Some(CompressionLevel::Default)
    } else if range_is(&low, 0, n, "high") || range_is(&low, 0, n, "h") || range_is(&low, 0, n, "3") {
        Some(CompressionLevel::High)
    } else if range_is(&low, 0, n, "best") || range_is(&low, 0, n, "b") || range_is(&low, 0, n, "max")
        || range_is(&low, 0, n, "4") {
        Some(CompressionLevel::Best)
    } else {
        None
    }
}


proof fn lemma_last_dash_no_dash_suffix(a: Seq<char>, t: Seq<char>)
    requires
        forall|i: int| 0 <= i < t.len() ==> #[trigger] t[i] != '-',
    ensures
        last_dash(a + t) == last_dash(a),
    decreases t.len(),
{
    if t.len() == 0 {
        assert(a + t =~= a);
    } else {
        assert((a + t).drop_last() =~= a + t.drop_last());
        assert((a + t).last() == t.last());
        lemma_last_dash_no_dash_suffix(a, t.drop_last());
    }
}

proof fn lemma_names_lowercase()
    ensures
        forall|b: Backend, i: int| 0 <= i < backend_name_spec(b).len() ==> !('A' <= #[trigger] backend_name_spec(b)[i] <= 'Z'
            || backend_name_spec(b)[i] == '-' && b != Backend::ZlibNg),
{
    reveal_strlit("zstd");
    reveal_strlit("brotli");
    reveal_strlit("gzip");
    reveal_strlit("lzma");
    reveal_strlit("xz");
    reveal_strlit("lz4");
    reveal_strlit("snappy");
    reveal_strlit("lzham");
    reveal_strlit("lizard");
    reveal_strlit("zlib-ng");
    reveal_strlit("openzl");
    reveal_strlit("raw");
}

proof fn lemma_names_parse(b: Backend)
    requires
        b != Backend::Raw,
    ensures
        backend_of_name(backend_name_spec(b)) == Some(b),
{
    reveal_strlit("zstd");
    reveal_strlit("zstandard");
    reveal_strlit("brotli");
    reveal_strlit("gzip");
    reveal_strlit("gz");
    reveal_strlit("lzma");
    reveal_strlit("xz");
    reveal_strlit("lz4");
    reveal_strlit("snappy");
    reveal_strlit("lzham");
    reveal_strlit("lizard");
    reveal_strlit("zlib-ng");
    reveal_strlit("zlibng");
    reveal_strlit("zlib_ng");
    reveal_strlit("openzl");
    let n = backend_name_spec(b);
    match b {
        Backend::Zstd => {},
        Backend::Brotli => {
            assert(n[0] != 'z');
        },
        Backend::Gzip => {
            assert(n[0] != 'z' && n[0] != 'b');
        },
        Backend::Lzma => {
            assert(n[0] != 'z' && n[0] != 'b' && n[0] != 'g');
        },
        Backend::Xz => {
            assert(n[0] != 'z' && n[0] != 'b' && n[0] != 'g' && n[0] != 'l');
        },
        Backend::Lz4 => {
            assert(n[0] != 'z' && n[0] != 'b' && n[0] != 'g' && n[0] != 'x');
            assert(n[2] != "lzma"@[2]);
        },
        Backend::Snappy => {
            assert(n[0] == 's');
        },
        Backend::Lzham => {
            assert(n[0] == 'l' && n.len() == 5);
            assert(n[2] != "lzma"@[2] || n.len() != 4);
        },
        Backend::Lizard => {
            assert(n[0] == 'l' && n[1] == 'i');
        },
        Backend::ZlibNg => {
            assert(n[0] == 'z' && n[1] == 'l');
        },
        Backend::OpenZl => {
            assert(n[0] == 'o');
        },
        Backend::Raw => {},
    }
}

/// Reading a codec's label gives the codec back; snappy, whose label has no
/// level, comes back at the default level.
pub proof fn lemma_label_roundtrip(c: StandaloneCodec)
    requires
        c.backend != Backend::Raw,
    ensures
        from_label_spec(label_spec(c)) == Some(
            if c.backend == Backend::Snappy {
                StandaloneCodec { backend: Backend::Snappy, cpac_level: CompressionLevel::Default }
            } else {
                c
            },
        ),
{
    let b = c.backend;
    let raw = raw_level_spec(b, c.cpac_level).unwrap();
    lemma_names_lowercase();
    lemma_names_parse(b);
    reveal_strlit("-");
    reveal_strlit("snappy");
    let name = backend_name_spec(b);
    if b == Backend::Snappy {
        assert(label_spec(c) == name);
        lemma_lower_fixed(name);
        lemma_last_dash_no_dash_suffix(Seq::<char>::empty(), name);
        assert(Seq::<char>::empty() + name =~= name);
    } else {
        let digits = decimal_digits(raw as nat);
        assert(0 <= raw <= 49);
        assert(decimal_of(raw as int) == digits);
        lemma_decimal_digits_read_back(raw as nat);
        lemma_parse_decimal(raw as nat);
        let head = name + "-"@;
        let label = head + digits;
        assert(label_spec(c) == label);
        assert forall|i: int| 0 <= i < digits.len() implies #[trigger] digits[i] != '-' by {
            assert(is_digit(digits[i]));
        }
        lemma_last_dash_no_dash_suffix(head, digits);
        assert(head.drop_last() =~= name);
        assert(last_dash(head) == Some(name.len() as int));
        assert forall|i: int| 0 <= i < label.len() implies !('A' <= #[trigger] label[i] <= 'Z') by {
            if i < name.len() {
                assert(label[i] == name[i]);
            } else if i > name.len() {
                assert(label[i] == digits[i - name.len() - 1]);
                assert(is_digit(digits[i - name.len() - 1]));
            }
        }
        lemma_lower_fixed(label);
        let k = name.len() as int;
        assert(label.subrange(k + 1, label.len() as int) =~= digits);
        assert(label.subrange(0, k) =~= name);
    }
}

} // verus!
