//! Benchmark corpus descriptions.

use vstd::prelude::*;

verus! {

/// Download URL variants (single or multiple).
#[derive(Debug, Clone)]
pub enum DownloadUrl {
    /// No download source.
    NoUrl,
    Single(String),
    Multiple(Vec<String>),
}

/// Download format type.
#[derive(Debug, Clone, Copy, PartialEq, Eq)]
pub enum DownloadKind {
    HttpFile,
    HttpTargz,
    HttpZip,
    HttpFileMulti,
}

/// A benchmark corpus.
#[derive(Debug, Clone)]
pub struct CorpusConfig {
    pub id: String,
    pub name: String,
    pub description: String,
    pub download_url: DownloadUrl,
    pub download_kind: DownloadKind,
    pub target_subdir: String,
    pub license: String,
    pub citation: String,
}

impl Default for DownloadUrl {
    fn default() -> (r: DownloadUrl)
        ensures
            r is NoUrl,
    {
        DownloadUrl::NoUrl
    }
}

impl Default for DownloadKind {
    fn default() -> (r: DownloadKind)
        ensures
            r == DownloadKind::HttpFile,
    {
        DownloadKind::HttpFile
    }
}

} // verus!
