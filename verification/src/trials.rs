//! The trial configurations the profiler compresses a file with: each a
//! label and the settings it changes from the default configuration.

use vstd::prelude::*;
use crate::accel::Backend;
use crate::bandwidth::CompressionLevel;

verus! {

/// Settings a trial changes from the default configuration; `None` leaves
/// the default in place.
#[derive(Clone, Copy, Debug, PartialEq, Eq)]
pub struct TrialSettings {
    /// Entropy backend.
    pub backend: Option<Backend>,
    /// Compression level.
    pub level: Option<CompressionLevel>,
    /// Structured-field extraction (MSN).
    pub enable_msn: Option<bool>,
    /// Smart transforms.
    pub enable_smart_transforms: Option<bool>,
    /// Forced track: 1 or 2.
    pub force_track: Option<u8>,
}

/// One trial: its label and settings.
#[derive(Clone, Debug)]
pub struct TrialConfig {
    pub label: String,
    pub settings: TrialSettings,
}

/// Settings that change nothing.
pub open spec fn no_change() -> TrialSettings {
    TrialSettings { backend: None, level: None, enable_msn: None, enable_smart_transforms: None, force_track: None }
}

/// Trial `i` of the full table: the default pipeline, with MSN, with smart
/// transforms, with both; zstd, brotli and gzip; then zstd high and best,
/// brotli best, forced tracks 1 and 2, and the maximum and archive presets.
pub open spec fn trial_spec(i: int) -> (Seq<char>, TrialSettings) {
    let d = no_change();
    if i == 0 {
        ("cpac-default"@, d)
    } else if i == 1 {
        ("cpac-msn"@, TrialSettings { enable_msn: Some(true), ..d })
    } else if i == 2 {
        ("cpac-smart"@, TrialSettings { enable_smart_transforms: Some(true), ..d })
    } else if i == 3 {
        ("cpac-smart+msn"@, TrialSettings { enable_smart_transforms: Some(true), enable_msn: Some(true), ..d })
    } else if i == 4 {
        ("zstd-3"@, TrialSettings { backend: Some(Backend::Zstd), ..d })
    } else if i == 5 {
        ("brotli-6"@, TrialSettings { backend: Some(Backend::Brotli), ..d })
    } else if i == 6 {
        ("gzip-6"@, TrialSettings { backend: Some(Backend::Gzip), ..d })
    } else if i == 7 {
        ("zstd-high"@, TrialSettings { backend: Some(Backend::Zstd), level: Some(CompressionLevel::High), ..d })
    } else if i == 8 {
        ("zstd-best"@, TrialSettings { backend: Some(Backend::Zstd), level: Some(CompressionLevel::Best), ..d })
    } else if i == 9 {
        ("brotli-best"@, TrialSettings { backend: Some(Backend::Brotli), level: Some(CompressionLevel::Best), ..d })
    } else if i == 10 {
        ("force-track1"@, TrialSettings { enable_msn: Some(true), force_track: Some(1), ..d })
    } else if i == 11 {
        ("force-track2"@, TrialSettings { force_track: Some(2), ..d })
    } else if i == 12 {
        ("preset-maximum"@, TrialSettings {
            enable_smart_transforms: Some(true),
            enable_msn: Some(true),
            level: Some(CompressionLevel::High),
            ..d
        })
    } else {
        ("preset-archive"@, TrialSettings {
            enable_smart_transforms: Some(true),
            enable_msn: Some(true),
            level: Some(CompressionLevel::Best),
            ..d
        })
    }
}

fn trial(label: &str, settings: TrialSettings) -> (r: TrialConfig)
    ensures
        r.label@ == label@,
        r.settings == settings,
{
    TrialConfig { label: label.to_string(), settings }
}

/// The trials the profiler runs: the first seven of the table when `quick`,
/// all fourteen otherwise.
pub fn build_trial_configs(quick: bool) -> (r: Vec<TrialConfig>)
    ensures
        r@.len() == (if quick { 7int } else { 14int }),
        forall|i: int| 0 <= i < r@.len() ==> ((#[trigger] r@[i]).label@, r@[i].settings) == trial_spec(i),
{
    let d = TrialSettings { backend: None, level: None, enable_msn: None, enable_smart_transforms: None, force_track: None };
    let mut t: Vec<TrialConfig> = Vec::new();
    t.push(trial("cpac-default", d));
    t.push(trial("cpac-msn", TrialSettings { enable_msn: Some(true), ..d }));
    t.push(trial("cpac-smart", TrialSettings { enable_smart_transforms: Some(true), ..d }));
    t.push(trial("cpac-smart+msn", TrialSettings { enable_smart_transforms: Some(true), enable_msn: Some(true), ..d }));
    t.push(trial("zstd-3", TrialSettings { backend: Some(Backend::Zstd), ..d }));
    t.push(trial("brotli-6", TrialSettings { backend: Some(Backend::Brotli), ..d }));
    t.push(trial("gzip-6", TrialSettings { backend: Some(Backend::Gzip), ..d }));
    if !quick {
        t.push(trial("zstd-high", TrialSettings { backend: Some(Backend::Zstd), level: Some(CompressionLevel::High), ..d }));
        t.push(trial("zstd-best", TrialSettings { backend: Some(Backend::Zstd), level: Some(CompressionLevel::Best), ..d }));
        t.push(trial("brotli-best", TrialSettings { backend: Some(Backend::Brotli), level: Some(CompressionLevel::Best), ..d }));
        t.push(trial("force-track1", TrialSettings { enable_msn: Some(true), force_track: Some(1), ..d }));
        t.push(trial("force-track2", TrialSettings { force_track: Some(2), ..d }));
        t.push(trial("preset-maximum", TrialSettings {
            enable_smart_transforms: Some(true),
            enable_msn: Some(true),
            level: Some(CompressionLevel::High),
            ..d
        }));
        t.push(trial("preset-archive", TrialSettings {
            enable_smart_transforms: Some(true),
            enable_msn: Some(true),
            level: Some(CompressionLevel::Best),
            ..d
        }));
    }
    t
}

} // verus!
