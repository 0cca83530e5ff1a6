use go_profile_lsp::config::Config;
use go_profile_lsp::config::DiagnosticsSeverity;
use go_profile_lsp::config::HintStyle;

#[test]
fn test_default_config() {
    let config = Config::default();
    assert_eq!(config.profile_paths, vec![".", "./profiles", "./pprof"]);
    assert_eq!(config.profile_glob, "*.{pprof,prof}");
    assert!((f64::from_bits(config.threshold.min_percent.bits) - 0.1).abs() < f64::EPSILON);
    assert!(config.threshold.min_flat.is_none());
    assert!(config.display.show_flat);
    assert!(config.display.show_cumulative);
    assert_eq!(config.display.max_code_lenses, 10);
    assert_eq!(config.display.max_hotspots, 50);
    assert_eq!(config.watch_interval_secs, 5);
}

#[test]
fn default_thresholds_are_the_nearest_numbers() {
    let config = Config::default();
    assert_eq!(config.threshold.min_percent.bits, 0.1f64.to_bits());
    assert_eq!(config.diagnostics.min_percent.bits, 1.0f64.to_bits());
}

#[test]
fn diagnostics_are_off_by_default() {
    let config = Config::default();
    assert_eq!(config.diagnostics.severity, DiagnosticsSeverity::Off);
    assert_eq!(config.path_mapping.trim_prefix, "");
    assert_eq!(config.path_mapping.source_root, "");
}

#[test]
fn hints_have_emoji_by_default() {
    assert_eq!(Config::default().display.hint_style, HintStyle::Emoji);
}
