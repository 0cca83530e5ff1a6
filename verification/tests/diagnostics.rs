use go_profile_lsp::analysis::ProfileData;
use go_profile_lsp::analysis::ProfileType;
use go_profile_lsp::binary64::Binary64;
use go_profile_lsp::config::Config;
use go_profile_lsp::config::DiagnosticsConfig;
use go_profile_lsp::config::DiagnosticsSeverity;
use go_profile_lsp::config::DisplayConfig;
use go_profile_lsp::costs::FileCosts;
use go_profile_lsp::costs::LineCost;
use go_profile_lsp::diagnostics::files_with_diagnostics;
use go_profile_lsp::diagnostics::generate_diagnostics;
use go_profile_lsp::format::ValueUnit;
use go_profile_lsp::lsp::DiagnosticSeverity;
use std::collections::BTreeMap;

fn cost(flat: i64, cumulative: i64) -> LineCost {
    LineCost { flat, cumulative }
}

fn number(x: f64) -> Binary64 {
    Binary64::from_bits(x.to_bits())
}

fn make_test_data() -> ProfileData {
    let mut file_costs = BTreeMap::new();
    file_costs.insert(10, cost(50_000_000, 100_000_000));
    file_costs.insert(20, cost(0, 5_000_000));
    file_costs.insert(30, cost(200_000_000, 500_000_000));

    let mut line_costs = FileCosts::new();
    line_costs.insert("handler.go".to_string(), file_costs);

    let mut low_costs = BTreeMap::new();
    low_costs.insert(5, cost(0, 1_000_000));
    line_costs.insert("utils.go".to_string(), low_costs);

    ProfileData {
        line_costs,
        hotspots: vec![],
        profile_type: ProfileType::Cpu,
        sample_type_label: "cpu".to_string(),
        value_unit: ValueUnit::Nanoseconds,
        total_value: 1_000_000_000,
        duration: None,
    }
}

fn make_test_config() -> Config {
    Config {
        diagnostics: DiagnosticsConfig {
            severity: DiagnosticsSeverity::Warning,
            min_percent: number(1.0),
        },
        display: DisplayConfig {
            show_flat: true,
            show_cumulative: true,
            ..Default::default()
        },
        ..Default::default()
    }
}

#[test]
fn test_generate_diagnostics_filters_by_threshold() {
    let data = make_test_data();
    let config = make_test_config();

    let diags = generate_diagnostics(&data, &config, "handler.go");
    assert_eq!(diags.len(), 2);

    assert_eq!(diags[0].range.start.line, 9);
    assert_eq!(diags[1].range.start.line, 29);
}

#[test]
fn test_diagnostics_are_hint_severity() {
    let data = make_test_data();
    let config = make_test_config();

    let diags = generate_diagnostics(&data, &config, "handler.go");
    for d in &diags {
        assert_eq!(d.severity, Some(DiagnosticSeverity::Warning));
        assert_eq!(d.source.as_deref(), Some("go-profile"));
    }
}

#[test]
fn test_diagnostics_message_format() {
    let data = make_test_data();
    let config = make_test_config();

    let diags = generate_diagnostics(&data, &config, "handler.go");
    let big = &diags[1];
    assert!(big.message.contains("[profile]"), "msg: {}", big.message);
    assert!(big.message.contains("cum: 500ms"), "msg: {}", big.message);
    assert!(big.message.contains("flat: 200ms"), "msg: {}", big.message);
}

#[test]
fn test_diagnostics_hides_zero_flat() {
    let data = make_test_data();
    let mut config = make_test_config();
    config.diagnostics.min_percent = number(5.0);

    let diags = generate_diagnostics(&data, &config, "handler.go");
    let line10 = &diags[0];
    assert!(line10.message.contains("flat:"), "msg: {}", line10.message);
}

#[test]
fn test_diagnostics_no_file() {
    let data = make_test_data();
    let config = make_test_config();

    let diags = generate_diagnostics(&data, &config, "nonexistent.go");
    assert!(diags.is_empty());
}

#[test]
fn test_diagnostics_empty_when_below_threshold() {
    let data = make_test_data();
    let mut config = make_test_config();
    config.diagnostics.min_percent = number(99.0);

    let diags = generate_diagnostics(&data, &config, "handler.go");
    assert!(diags.is_empty());
}

#[test]
fn test_files_with_diagnostics() {
    let data = make_test_data();
    let config = make_test_config();

    let files = files_with_diagnostics(&data, &config);
    assert!(files.contains(&"handler.go".to_string()));
    assert!(!files.contains(&"utils.go".to_string()));
}

#[test]
fn test_files_with_diagnostics_lower_threshold() {
    let data = make_test_data();
    let mut config = make_test_config();
    config.diagnostics.min_percent = number(0.05);

    let files = files_with_diagnostics(&data, &config);
    assert!(files.contains(&"handler.go".to_string()));
    assert!(files.contains(&"utils.go".to_string()));
}

#[test]
fn test_diagnostics_zero_total() {
    let mut data = make_test_data();
    data.total_value = 0;
    let config = make_test_config();

    let diags = generate_diagnostics(&data, &config, "handler.go");
    assert!(diags.is_empty());
}

#[test]
fn messages_show_what_is_configured() {
    let data = make_test_data();
    let mut config = make_test_config();
    config.diagnostics.min_percent = number(0.1);
    let message = |config: &Config, i: usize| {
        generate_diagnostics(&data, config, "handler.go")[i].message.clone()
    };
    assert_eq!(message(&config, 0), "[profile] flat: 50ms (5.0%) | cum: 100ms (10.0%)");
    assert_eq!(message(&config, 1), "[profile] cum: 5ms (0.5%)");
    config.display.show_cumulative = false;
    assert_eq!(message(&config, 0), "[profile] flat: 50ms (5.0%)");
    assert_eq!(message(&config, 1), "[profile] ");
    config.display.show_cumulative = true;
    config.display.show_flat = false;
    assert_eq!(message(&config, 2), "[profile] cum: 500ms (50.0%)");
}

#[test]
fn severities_follow_the_configuration() {
    let data = make_test_data();
    let mut config = make_test_config();
    config.diagnostics.severity = DiagnosticsSeverity::Info;
    let diags = generate_diagnostics(&data, &config, "handler.go");
    assert_eq!(diags[0].severity, Some(DiagnosticSeverity::Information));
    config.diagnostics.severity = DiagnosticsSeverity::Off;
    assert!(generate_diagnostics(&data, &config, "handler.go").is_empty());
}

#[test]
fn files_are_listed_where_they_have_diagnostics() {
    let data = make_test_data();
    for percent in [0.01, 0.1, 0.2, 20.0, 60.0] {
        let mut config = make_test_config();
        config.diagnostics.min_percent = number(percent);
        let files = files_with_diagnostics(&data, &config);
        for file in ["handler.go", "utils.go", "absent.go"] {
            assert_eq!(
                files.contains(&file.to_string()),
                !generate_diagnostics(&data, &config, file).is_empty(),
            );
        }
    }
}
