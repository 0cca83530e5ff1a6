use go_profile_lsp::analysis::ProfileData;
use go_profile_lsp::analysis::ProfileType;
use go_profile_lsp::binary64::Binary64;
use go_profile_lsp::config::Config;
use go_profile_lsp::config::DisplayConfig;
use go_profile_lsp::config::HintStyle;
use go_profile_lsp::config::ThresholdConfig;
use go_profile_lsp::costs::FileCosts;
use go_profile_lsp::costs::LineCost;
use go_profile_lsp::format::ValueUnit;
use go_profile_lsp::hints::format_hint_label;
use go_profile_lsp::hints::format_hint_tooltip;
use go_profile_lsp::hints::generate_inlay_hints;
use go_profile_lsp::hints::passes_threshold;
use go_profile_lsp::hints::severity_indicator;
use go_profile_lsp::lsp::Position;
use go_profile_lsp::lsp::Range;
use std::collections::BTreeMap;

fn cost(flat: i64, cumulative: i64) -> LineCost {
    LineCost { flat, cumulative }
}

fn make_test_data() -> ProfileData {
    let mut file_costs = BTreeMap::new();
    file_costs.insert(10, cost(50_000_000, 340_000_000));
    file_costs.insert(15, cost(15_000_000, 200_000_000));
    file_costs.insert(20, cost(100_000, 500_000));

    let mut line_costs = FileCosts::new();
    line_costs.insert("main.go".to_string(), file_costs);

    ProfileData {
        line_costs,
        hotspots: vec![],
        profile_type: ProfileType::Cpu,
        sample_type_label: "cpu".to_string(),
        value_unit: ValueUnit::Nanoseconds,
        total_value: 1_000_000_000,
        duration: None,
    }
}

fn number(x: f64) -> Binary64 {
    Binary64::from_bits(x.to_bits())
}

fn make_test_config() -> Config {
    Config {
        threshold: ThresholdConfig {
            min_percent: number(0.1),
            min_flat: None,
        },
        display: DisplayConfig {
            show_flat: true,
            show_cumulative: true,
            max_code_lenses: 10,
            max_hotspots: 50,
            ..Default::default()
        },
        ..Default::default()
    }
}

fn lines(start: u32, end: u32) -> Range {
    Range {
        start: Position {
            line: start,
            character: 0,
        },
        end: Position {
            line: end,
            character: 0,
        },
    }
}

#[test]
fn test_generate_hints_basic() {
    let data = make_test_data();
    let config = make_test_config();
    let range = lines(0, 30);

    let hints = generate_inlay_hints(&data, &config, "main.go", &range);
    // Lines 10 and 15 pass; line 20 has 0.05%, below 0.1%.
    assert_eq!(hints.len(), 2);

    assert_eq!(hints[0].position.line, 9);
    assert_eq!(hints[0].position.character, u32::MAX);

    let label = &hints[0].label;
    assert!(label.contains("flat: 50ms"), "label was: {label}");
    assert!(label.contains("cum: 340ms"), "label was: {label}");
    assert!(label.contains("(34.0%)"), "label was: {label}");
}

#[test]
fn test_generate_hints_range_filtering() {
    let data = make_test_data();
    let config = make_test_config();
    let range = lines(0, 12);

    let hints = generate_inlay_hints(&data, &config, "main.go", &range);
    assert_eq!(hints.len(), 1);
    assert_eq!(hints[0].position.line, 9);
}

#[test]
fn test_generate_hints_no_file() {
    let data = make_test_data();
    let config = make_test_config();
    let range = lines(0, 100);

    let hints = generate_inlay_hints(&data, &config, "nonexistent.go", &range);
    assert!(hints.is_empty());
}

#[test]
fn test_generate_hints_flat_only() {
    let data = make_test_data();
    let mut config = make_test_config();
    config.display.show_flat = true;
    config.display.show_cumulative = false;
    let range = lines(0, 30);

    let hints = generate_inlay_hints(&data, &config, "main.go", &range);
    let label = &hints[0].label;
    assert!(label.contains("flat:"), "label was: {label}");
    assert!(!label.contains("cum:"), "label was: {label}");
}

#[test]
fn test_generate_hints_cumulative_only() {
    let data = make_test_data();
    let mut config = make_test_config();
    config.display.show_flat = false;
    config.display.show_cumulative = true;
    let range = lines(0, 30);

    let hints = generate_inlay_hints(&data, &config, "main.go", &range);
    let label = &hints[0].label;
    assert!(!label.contains("flat:"), "label was: {label}");
    assert!(label.contains("cum:"), "label was: {label}");
}

#[test]
fn test_threshold_with_min_flat() {
    let data = make_test_data();
    let mut config = make_test_config();
    config.threshold.min_percent = number(100.0);
    config.threshold.min_flat = Some(10_000_000);
    let range = lines(0, 30);

    let hints = generate_inlay_hints(&data, &config, "main.go", &range);
    assert_eq!(hints.len(), 2);
}

#[test]
fn test_format_hint_label_both() {
    let label = format_hint_label(
        15_000_000,
        340_000_000,
        1_000_000_000,
        ValueUnit::Nanoseconds,
        true,
        true,
    );
    assert_eq!(label, "  flat: 15ms | cum: 340ms (34.0%)");
}

#[test]
fn a_label_without_total_has_no_percentage() {
    assert_eq!(
        format_hint_label(1, 2, 0, ValueUnit::Count, true, true),
        "  flat: 1 | cum: 2"
    );
    assert_eq!(format_hint_label(1, 2, 4, ValueUnit::Count, true, false), "  flat: 1");
    assert_eq!(format_hint_label(1, 2, 4, ValueUnit::Count, false, true), "  cum: 2 (50.0%)");
    assert_eq!(format_hint_label(1, 2, 4, ValueUnit::Count, false, false), "");
}

#[test]
fn a_tooltip_shows_both_costs() {
    assert_eq!(
        format_hint_tooltip(15_000_000, 340_000_000, 1_000_000_000, ValueUnit::Nanoseconds, "cpu"),
        "Profile type: cpu\nFlat: 15ms (1.5%)\nCumulative: 340ms (34.0%)"
    );
    assert_eq!(
        format_hint_tooltip(1, 2, 0, ValueUnit::Bytes, "x"),
        "Profile type: x\nFlat: 1B \nCumulative: 2B "
    );
}

#[test]
fn hints_carry_tooltip_and_padding() {
    let hints = generate_inlay_hints(&make_test_data(), &make_test_config(), "main.go", &lines(14, 14));
    assert_eq!(hints.len(), 1);
    assert_eq!(hints[0].position.line, 14);
    assert_eq!(
        hints[0].tooltip.as_deref(),
        Some("Profile type: cpu\nFlat: 15ms (1.5%)\nCumulative: 200ms (20.0%)")
    );
    assert_eq!(hints[0].padding_left, Some(true));
    assert_eq!(hints[0].padding_right, None);
}

#[test]
fn nothing_is_hinted_where_nothing_is_shown() {
    let mut config = make_test_config();
    config.display.show_flat = false;
    config.display.show_cumulative = false;
    assert!(generate_inlay_hints(&make_test_data(), &config, "main.go", &lines(0, 30)).is_empty());
}

#[test]
fn thresholds_are_inclusive() {
    let mut config = make_test_config();
    config.threshold.min_percent = number(50.0);
    assert!(passes_threshold(0, 50, 100, &config));
    assert!(!passes_threshold(0, 49, 100, &config));
    assert!(!passes_threshold(0, 50, 0, &config));
    config.threshold.min_flat = Some(7);
    assert!(passes_threshold(7, 0, 100, &config));
    assert!(!passes_threshold(6, 0, 100, &config));
    assert!(!passes_threshold(7, 0, 0, &config));
    config.threshold.min_percent = number(f64::NAN);
    assert!(!passes_threshold(0, 100, 100, &config));
}

#[test]
fn the_indicator_shows_the_cumulative_share() {
    let shown = |cumulative: i64| {
        (
            severity_indicator(HintStyle::Emoji, cumulative, 1000),
            severity_indicator(HintStyle::Ascii, cumulative, 1000),
        )
    };
    assert_eq!(shown(0), ("🟢", "░"));
    assert_eq!(shown(49), ("🟢", "░"));
    assert_eq!(shown(50), ("🟡", "▒"));
    assert_eq!(shown(149), ("🟡", "▒"));
    assert_eq!(shown(150), ("🟠", "▓"));
    assert_eq!(shown(299), ("🟠", "▓"));
    assert_eq!(shown(300), ("🔴", "█"));
    assert_eq!(shown(1000), ("🔴", "█"));
    assert_eq!(severity_indicator(HintStyle::Emoji, 5, 0), "🟢");
    assert_eq!(severity_indicator(HintStyle::Ascii, -5, 10), "░");
}

#[test]
fn every_hint_starts_with_its_indicator() {
    let mut data = make_test_data();
    let mut file_costs = BTreeMap::new();
    file_costs.insert(1, cost(0, 830_000_000));
    file_costs.insert(2, cost(7_000_000, 96_000_000));
    data.line_costs.insert("cache.go".to_string(), file_costs);
    data.total_value = 9_600_000_000;

    let mut config = make_test_config();
    config.display.show_flat = false;
    let hints = generate_inlay_hints(&data, &config, "cache.go", &lines(0, 9));
    assert_eq!(hints[0].label, "  🟡 cum: 830ms (8.6%)");
    assert_eq!(hints[1].label, "  🟢 cum: 96ms (1.0%)");

    config.display.show_flat = true;
    config.display.hint_style = HintStyle::Ascii;
    let hints = generate_inlay_hints(&data, &config, "cache.go", &lines(0, 9));
    assert_eq!(hints[0].label, "  ▒ flat: 0ns | cum: 830ms (8.6%)");
    assert_eq!(hints[1].label, "  ░ flat: 7ms | cum: 96ms (1.0%)");
}
