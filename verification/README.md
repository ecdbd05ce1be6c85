# cpac

The verified core of CPAC, a lossless compression engine: its wire formats,
parsers, chunking, conditioning, journal, analysis and policy logic, each with
a contract proved by Verus.

## Layout

- `src/` — the library, every function of it verified.
  - Byte and frame helpers: `bytes`, `framing`, `crc`, `decimal`, `strset`, `text`.
  - Frames and formats: `cpbl` (block-parallel frames), `bandwidth` (`BA`
    frames), `dedup` (content-defined chunking and `CPDD` frames), `dag`
    (transform descriptors and profiles), `dict` (`CPDI` dictionaries),
    `archive` (`CPAR` archives, regular and solid), `wal` (the journal),
    `conditioning` (byte-class partitions), `cas` (constraint inference and
    `CAS` frames).
  - Domains: `domains` (detection, CSV parsing), `decompose` (YAML, log, CSV
    and XML text to string columns and back), `csv_text` (CSV written from
    columns reads back as them), `json` and `json_columns` (the JSON handler:
    serde_json parses, fields are grouped by key), `xml`.
  - Crypto: `crypto` and its submodules (AEAD, KDF, X25519, Ed25519, ML-KEM,
    ML-DSA, HQC, the hybrid `CPHE` and `CPHS` frames, the command line's key
    and password-encrypted files).
  - Policy: `accel`, `host`, `bench`, `trials`, `pool`, `config`, `corpus`,
    `cli_args`.
- `tests/` — tests of the library's public functions.
- `app/` — what the library leaves out: file and environment access, host
  probing, YAML and TOML configuration files, the global buffer pool, the crypto
  commands' file handling, and the estimates that compute with floating
  point.

Calls into outside crates (zstd, BLAKE3, xxHash, the RustCrypto and dalek
crates, ML-KEM, ML-DSA, HQC, serde_json) sit behind small trusted wrappers whose doc
comments say what each assumes of the crate.

Maps keyed by strings or byte arrays (the dedup index, the profile cache,
the sets of distinct values) are vectors with a uniqueness or ordering
invariant: vstd's map and set specifications state nothing for such keys
unless their hashing and equality are assumed to follow the model.
