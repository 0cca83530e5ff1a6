//! The options of the server and their defaults.

use crate::binary64::Binary64;
use vstd::prelude::*;

verus! {

/// The bits of `0.1`.
pub const TENTH_BITS: u64 = 0x3FB9_9999_9999_999A;

/// The bits of `1.0`.
pub const ONE_BITS: u64 = 0x3FF0_0000_0000_0000;

/// LSP initialization options passed from the Zed extension.
/// All fields are optional with sensible defaults.
#[derive(Debug, Clone)]
pub struct Config {
    /// Directories to search for profile files, relative to workspace root.
    pub profile_paths: Vec<String>,
    /// Glob pattern for profile files.
    pub profile_glob: String,
    /// Filtering thresholds.
    pub threshold: ThresholdConfig,
    /// Display options.
    pub display: DisplayConfig,
    /// Path mapping configuration.
    pub path_mapping: PathMappingConfig,
    /// Diagnostics options.
    pub diagnostics: DiagnosticsConfig,
    /// Profile file poll interval in seconds.
    pub watch_interval_secs: u64,
}

/// When a hint is shown.
#[derive(Debug, Clone, Copy, PartialEq, Eq, Structural)]
pub struct ThresholdConfig {
    /// Minimum percentage of total cost to display a hint (0.0 - 100.0).
    pub min_percent: Binary64,
    /// Minimum flat value to display a hint (unit-dependent, e.g. nanoseconds or bytes).
    /// If None, only percentage threshold applies.
    pub min_flat: Option<i64>,
}

/// How the severity of a line is shown: by coloured circles, or by blocks of shade.
#[derive(Debug, Clone, Copy, PartialEq, Eq, Structural)]
pub enum HintStyle {
    Emoji,
    Ascii,
}

/// What is shown.
#[derive(Debug, Clone, Copy, PartialEq, Eq, Structural)]
pub struct DisplayConfig {
    /// Show flat cost in inlay hints.
    pub show_flat: bool,
    /// Show cumulative cost in inlay hints.
    pub show_cumulative: bool,
    /// Maximum number of code lenses per file.
    pub max_code_lenses: usize,
    /// Maximum number of hotspot functions tracked globally.
    pub max_hotspots: usize,
    /// How inlay hints show the severity of a line.
    pub hint_style: HintStyle,
}

/// How paths in a profile become paths in the workspace.
#[derive(Debug, Clone)]
pub struct PathMappingConfig {
    /// Prefix to strip from profile file paths.
    pub trim_prefix: String,
    /// Source root to prepend after trimming.
    pub source_root: String,
}

/// How severe the diagnostics are.
#[derive(Debug, Clone, Copy, PartialEq, Eq, Structural)]
pub enum DiagnosticsSeverity {
    Warning,
    Info,
    Off,
}

/// Which lines get diagnostics.
#[derive(Debug, Clone, Copy, PartialEq, Eq, Structural)]
pub struct DiagnosticsConfig {
    pub severity: DiagnosticsSeverity,
    /// Minimum percentage of total cost to publish a diagnostic.
    pub min_percent: Binary64,
}

impl Default for ThresholdConfig {
    fn default() -> (r: ThresholdConfig)
        ensures
            r.min_percent.bits == TENTH_BITS,
            r.min_flat is None,
    {
        ThresholdConfig { min_percent: Binary64::from_bits(TENTH_BITS), min_flat: None }
    }
}

impl Default for DisplayConfig {
    fn default() -> (r: DisplayConfig)
        ensures
            r.show_flat,
            r.show_cumulative,
            r.max_code_lenses == 10,
            r.max_hotspots == 50,
            r.hint_style == HintStyle::Emoji,
    {
        DisplayConfig {
            show_flat: true,
            show_cumulative: true,
            max_code_lenses: 10,
            max_hotspots: 50,
            hint_style: HintStyle::Emoji,
        }
    }
}

impl Default for PathMappingConfig {
    fn default() -> (r: PathMappingConfig)
        ensures
            r.trim_prefix@.len() == 0,
            r.source_root@.len() == 0,
    {
        PathMappingConfig { trim_prefix: String::new(), source_root: String::new() }
    }
}

impl Default for DiagnosticsConfig {
    fn default() -> (r: DiagnosticsConfig)
        ensures
            r.severity == DiagnosticsSeverity::Off,
            r.min_percent.bits == ONE_BITS,
    {
        DiagnosticsConfig {
            severity: DiagnosticsSeverity::Off,
            min_percent: Binary64::from_bits(ONE_BITS),
        }
    }
}

/// All options have their defaults.
pub open spec fn is_default(c: Config) -> bool {
    &&& c.profile_paths.deep_view() == seq!["."@, "./profiles"@, "./pprof"@]
    &&& c.profile_glob@ == "*.{pprof,prof}"@
    &&& c.threshold.min_percent.bits == TENTH_BITS
    &&& c.threshold.min_flat is None
    &&& c.display == (DisplayConfig {
        show_flat: true,
        show_cumulative: true,
        max_code_lenses: 10,
        max_hotspots: 50,
        hint_style: HintStyle::Emoji,
    })
    &&& c.path_mapping.trim_prefix@.len() == 0
    &&& c.path_mapping.source_root@.len() == 0
    &&& c.diagnostics.severity == DiagnosticsSeverity::Off
    &&& c.diagnostics.min_percent.bits == ONE_BITS
    &&& c.watch_interval_secs == 5
}

impl Default for Config {
    fn default() -> (r: Config)
        ensures
            is_default(r),
    {
        let mut profile_paths: Vec<String> = Vec::new();
        profile_paths.push(".".to_string());
        profile_paths.push("./profiles".to_string());
        profile_paths.push("./pprof".to_string());
        assert(profile_paths.deep_view() =~= seq!["."@, "./profiles"@, "./pprof"@]);
        Config {
            profile_paths,
            profile_glob: "*.{pprof,prof}".to_string(),
            threshold: ThresholdConfig::default(),
            display: DisplayConfig::default(),
            path_mapping: PathMappingConfig::default(),
            diagnostics: DiagnosticsConfig::default(),
            watch_interval_secs: 5,
        }
    }
}

/// What holds where the client sets nothing.
pub proof fn lemma_defaults(c: Config)
    requires
        is_default(c),
    ensures
        c.profile_paths@.len() == 3,
        c.profile_paths@[0]@ == "."@,
        c.profile_paths@[1]@ == "./profiles"@,
        c.profile_paths@[2]@ == "./pprof"@,
        c.profile_glob@ == "*.{pprof,prof}"@,
        c.threshold.min_percent.bits == 0x3FB9_9999_9999_999A,
        c.threshold.min_flat is None,
        c.display.show_flat,
        c.display.show_cumulative,
        c.display.max_code_lenses == 10,
        c.display.max_hotspots == 50,
        c.display.hint_style == HintStyle::Emoji,
        c.path_mapping.trim_prefix@.len() == 0,
        c.path_mapping.source_root@.len() == 0,
        c.diagnostics.severity == DiagnosticsSeverity::Off,
        c.diagnostics.min_percent.bits == 0x3FF0_0000_0000_0000,
        c.watch_interval_secs == 5,
{
    let paths = c.profile_paths.deep_view();
    assert(paths.len() == 3);
    assert(paths[0] == c.profile_paths@[0]@);
    assert(paths[1] == c.profile_paths@[1]@);
    assert(paths[2] == c.profile_paths@[2]@);
}

} // verus!
