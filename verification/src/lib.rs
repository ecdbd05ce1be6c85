//! CPAC: verified core of the Constraint-Projected Adaptive Compression engine.
//!
//! The library holds the wire formats, frame parsers, content-defined chunking,
//! entropy conditioning, journal format and the small pieces of policy logic of
//! the compression engine, each with a contract proved by Verus.

pub mod bytes;
pub mod error;
pub mod conditioning;
pub mod crc;
pub mod wal;
pub mod dedup;
pub mod framing;
pub mod pool;
pub mod crypto;
pub mod dag;
pub mod dict;
pub mod archive;
pub mod cas;
pub mod text;
pub mod domains;
pub mod xml;
pub mod bandwidth;
pub mod host;
pub mod bench;
pub mod corpus;
pub mod config;
pub mod cpbl;
pub mod accel;
pub mod decimal;
pub mod strset;
pub mod decompose;
pub mod csv_text;
pub mod json_columns;
pub mod cli_args;
pub mod trials;
pub mod json;
