//! Command-line configuration: the settings a `cpac.toml` file may hold.

use vstd::prelude::*;

verus! {

/// Top-level configuration.
#[derive(Clone, Debug)]
pub struct CpacConfig {
    pub backend: Option<String>,
    pub block_size: Option<usize>,
    pub preset: Option<String>,
    pub encrypt: Option<EncryptConfig>,
    pub archive: Option<ArchiveConfig>,
    pub resources: Option<ResourcesConfig>,
}

/// Resource knobs of the `[resources]` section.
#[derive(Clone, Debug)]
pub struct ResourcesConfig {
    pub cpu_percent: Option<u8>,
    pub memory_percent: Option<u8>,
    pub budget_ms: Option<u64>,
    pub priority: Option<String>,
    pub io_bandwidth_mbps: Option<u32>,
    pub batch_concurrency: Option<usize>,
}

/// The `[encrypt]` section.
#[derive(Clone, Debug)]
pub struct EncryptConfig {
    pub algorithm: Option<String>,
}

/// The `[archive]` section.
#[derive(Clone, Debug)]
pub struct ArchiveConfig {
    pub compression: Option<String>,
}

impl Default for CpacConfig {
    /// No setting given.
    fn default() -> (r: CpacConfig)
        ensures
            r.backend is None,
            r.block_size is None,
            r.preset is None,
            r.encrypt is None,
            r.archive is None,
            r.resources is None,
    {
        CpacConfig { backend: None, block_size: None, preset: None, encrypt: None, archive: None, resources: None }
    }
}

impl Default for ResourcesConfig {
    /// No knob given.
    fn default() -> (r: ResourcesConfig)
        ensures
            r.cpu_percent is None,
            r.memory_percent is None,
            r.budget_ms is None,
            r.priority is None,
            r.io_bandwidth_mbps is None,
            r.batch_concurrency is None,
    {
        ResourcesConfig {
            cpu_percent: None,
            memory_percent: None,
            budget_ms: None,
            priority: None,
            io_bandwidth_mbps: None,
            batch_concurrency: None,
        }
    }
}

impl Default for EncryptConfig {
    /// No algorithm given.
    fn default() -> (r: EncryptConfig)
        ensures
            r.algorithm is None,
    {
        EncryptConfig { algorithm: None }
    }
}

impl Default for ArchiveConfig {
    /// No compression given.
    fn default() -> (r: ArchiveConfig)
        ensures
            r.compression is None,
    {
        ArchiveConfig { compression: None }
    }
}

} // verus!
