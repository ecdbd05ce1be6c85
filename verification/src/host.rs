//! Host description, SIMD capability tiers, and the resource limits chosen
//! from the host's cores and memory.

use vstd::prelude::*;
use crate::accel::AccelBackend;

verus! {

/// SIMD capability tier for dispatch decisions, ordered from least to most capable.
#[derive(Clone, Copy, Debug, PartialEq, Eq, PartialOrd, Ord)]
pub enum SimdTier {
    /// No SIMD (scalar only).
    Scalar,
    /// ARM NEON (128-bit).
    Neon,
    /// x86 SSE2 (128-bit).
    Sse2,
    /// x86 SSE4.1 (128-bit, blend/extract).
    Sse41,
    /// x86 AVX2 (256-bit).
    Avx2,
    /// x86 AVX-512 (512-bit).
    Avx512,
    /// ARM SVE2 (scalable, 128-2048 bit).
    Sve2,
}

/// Whether `name` is among the CPU feature names.
pub open spec fn has_feature_spec(features: Seq<String>, name: Seq<char>) -> bool {
    exists|i: int| 0 <= i < features.len() && (#[trigger] features[i])@ == name
}

/// The best SIMD tier the CPU features allow.
pub open spec fn simd_tier_spec(features: Seq<String>) -> SimdTier {
    if has_feature_spec(features, "avx512f"@) && has_feature_spec(features, "avx512bw"@) {
        SimdTier::Avx512
    } else if has_feature_spec(features, "avx2"@) {
        SimdTier::Avx2
    } else if has_feature_spec(features, "sse4.1"@) {
        SimdTier::Sse41
    } else if has_feature_spec(features, "sse2"@) {
        SimdTier::Sse2
    } else if has_feature_spec(features, "neon"@) {
        SimdTier::Neon
    } else {
        SimdTier::Scalar
    }
}

fn has_feature(features: &[String], name: &str) -> (r: bool)
    ensures
        r == has_feature_spec(features@, name@),
{
    let target = name.to_owned();
    let mut i: usize = 0;
    while i < features.len()
        invariant
            i <= features.len(),
            target@ == name@,
            forall|k: int| 0 <= k < i ==> (#[trigger] features@[k])@ != name@,
        decreases features.len() - i,
    {
        if features[i] == target {
            return true;
        }
        i = i + 1;
    }
    false
}

/// Chooses the SIMD tier from the detected CPU feature names.
pub fn determine_simd_tier(features: &[String]) -> (r: SimdTier)
    ensures
        r == simd_tier_spec(features@),
{
    if has_feature(features, "avx512f") && has_feature(features, "avx512bw") {
        SimdTier::Avx512
    } else if has_feature(features, "avx2") {
        SimdTier::Avx2
    } else if has_feature(features, "sse4.1") {
        SimdTier::Sse41
    } else if has_feature(features, "sse2") {
        SimdTier::Sse2
    } else if has_feature(features, "neon") {
        SimdTier::Neon
    } else {
        SimdTier::Scalar
    }
}


impl SimdTier {
    /// Display name of the tier.
    pub fn label(self) -> (r: &'static str)
        ensures
            r@ == match self {
                SimdTier::Scalar => "Scalar"@,
                SimdTier::Neon => "NEON"@,
                SimdTier::Sse2 => "SSE2"@,
                SimdTier::Sse41 => "SSE4.1"@,
                SimdTier::Avx2 => "AVX2"@,
                SimdTier::Avx512 => "AVX-512"@,
                SimdTier::Sve2 => "SVE2"@,
            },
    {
        match self {
            SimdTier::Scalar => "Scalar",
            SimdTier::Neon => "NEON",
            SimdTier::Sse2 => "SSE2",
            SimdTier::Sse41 => "SSE4.1",
            SimdTier::Avx2 => "AVX2",
            SimdTier::Avx512 => "AVX-512",
            SimdTier::Sve2 => "SVE2",
        }
    }
}

/// Detected host system information.
#[derive(Clone, Debug)]
pub struct HostInfo {
    /// CPU vendor string.
    pub cpu_vendor: String,
    /// CPU brand/model string.
    pub cpu_brand: String,
    /// Number of physical CPU cores.
    pub physical_cores: usize,
    /// Number of logical CPU cores.
    pub logical_cores: usize,
    /// Total system RAM in megabytes.
    pub total_ram_mb: u64,
    /// Operating system name.
    pub os_name: String,
    /// Operating system version.
    pub os_version: String,
    /// CPU architecture.
    pub arch: String,
    /// Detected SIMD feature flags.
    pub cpu_features: Vec<String>,
    /// Best SIMD tier available.
    pub simd_tier: SimdTier,
    /// Hardware accelerators detected on this host.
    pub available_accelerators: Vec<AccelBackend>,
}

/// Worker threads for CPU-bound work: the physical cores, at least one.
pub open spec fn auto_threads(physical_cores: usize) -> usize {
    if physical_cores < 1 { 1 } else { physical_cores }
}

/// Memory budget in MB: a quarter of RAM, clamped to 256 MB .. 8 GB.
pub open spec fn auto_memory_mb(total_ram_mb: u64) -> usize {
    let quarter = (total_ram_mb / 4) as usize;
    if quarter < 256 {
        256
    } else if quarter > 8192 {
        8192
    } else {
        quarter
    }
}

/// The automatic resource limits of a host: `(threads, memory in MB)`.
pub fn auto_resource_limits(physical_cores: usize, total_ram_mb: u64) -> (r: (usize, usize))
    ensures
        r == (auto_threads(physical_cores), auto_memory_mb(total_ram_mb)),
{
    let threads = if physical_cores < 1 { 1 } else { physical_cores };
    let quarter = (total_ram_mb / 4) as usize;
    let memory = if quarter < 256 {
        256
    } else if quarter > 8192 {
        8192
    } else {
        quarter
    };
    (threads, memory)
}

} // verus!
