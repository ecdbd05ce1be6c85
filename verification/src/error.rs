//! Errors of the library.

use vstd::prelude::*;

verus! {

/// Error reported by the library's operations.
#[derive(Debug, Clone, PartialEq, Eq)]
pub enum CpacError {
    /// A frame or archive is malformed or truncated.
    InvalidFrame(String),
    /// A transform's input or metadata is inconsistent.
    Transform(String),
    /// An encryption or signature operation failed.
    Encryption(String),
    /// Compression failed.
    CompressFailed(String),
    /// Decompression failed or produced the wrong size.
    DecompressFailed(String),
    /// The requested backend is not available.
    UnsupportedBackend(String),
    /// An I/O operation failed.
    IoError(String),
    /// Any other failure.
    Other(String),
}

} // verus!
