use go_profile_lsp::analysis::HotspotFunction;
use go_profile_lsp::analysis::ProfileData;
use go_profile_lsp::analysis::ProfileType;
use go_profile_lsp::config::Config;
use go_profile_lsp::config::DisplayConfig;
use go_profile_lsp::costs::FileCosts;
use go_profile_lsp::costs::LineCost;
use go_profile_lsp::format::ValueUnit;
use go_profile_lsp::lenses::find_first_profiled_line;
use go_profile_lsp::lenses::format_lens_title;
use go_profile_lsp::lenses::generate_code_lenses;
use std::collections::BTreeMap;

fn cost(flat: i64, cumulative: i64) -> LineCost {
    LineCost { flat, cumulative }
}

fn hotspot(
    rank: usize,
    name: &str,
    filename: &str,
    start_line: u64,
    flat: i64,
    cumulative: i64,
) -> HotspotFunction {
    HotspotFunction {
        rank,
        name: name.to_string(),
        filename: filename.to_string(),
        start_line,
        flat,
        cumulative,
    }
}

fn make_test_data() -> ProfileData {
    let mut file_costs = BTreeMap::new();
    file_costs.insert(10, cost(50_000_000, 340_000_000));
    file_costs.insert(25, cost(100_000_000, 700_000_000));

    let mut line_costs = FileCosts::new();
    line_costs.insert("handler.go".to_string(), file_costs);

    ProfileData {
        line_costs,
        hotspots: vec![
            hotspot(1, "handleRequest", "handler.go", 20, 100_000_000, 700_000_000),
            hotspot(2, "processData", "handler.go", 5, 50_000_000, 340_000_000),
            hotspot(3, "otherFunc", "other.go", 1, 10_000_000, 50_000_000),
        ],
        profile_type: ProfileType::Cpu,
        sample_type_label: "cpu".to_string(),
        value_unit: ValueUnit::Nanoseconds,
        total_value: 1_000_000_000,
        duration: None,
    }
}

fn make_test_config() -> Config {
    Config {
        display: DisplayConfig {
            max_code_lenses: 10,
            max_hotspots: 50,
            ..Default::default()
        },
        ..Default::default()
    }
}

#[test]
fn test_generate_lenses_basic() {
    let data = make_test_data();
    let config = make_test_config();

    let lenses = generate_code_lenses(&data, &config, "handler.go");
    assert_eq!(lenses.len(), 2);

    assert_eq!(lenses[0].range.start.line, 4);
    assert_eq!(lenses[1].range.start.line, 19);

    let title = &lenses[1].command.as_ref().unwrap().title;
    assert!(title.contains("#1 hotspot"), "title was: {title}");
    assert!(title.contains("cum: 700ms"), "title was: {title}");
}

#[test]
fn test_generate_lenses_max_limit() {
    let data = make_test_data();
    let mut config = make_test_config();
    config.display.max_code_lenses = 1;

    let lenses = generate_code_lenses(&data, &config, "handler.go");
    assert_eq!(lenses.len(), 1);
}

#[test]
fn test_generate_lenses_no_file() {
    let data = make_test_data();
    let config = make_test_config();

    let lenses = generate_code_lenses(&data, &config, "nonexistent.go");
    assert!(lenses.is_empty());
}

#[test]
fn test_generate_lenses_other_file() {
    let data = make_test_data();
    let config = make_test_config();

    let lenses = generate_code_lenses(&data, &config, "other.go");
    assert_eq!(lenses.len(), 1);
    let title = &lenses[0].command.as_ref().unwrap().title;
    assert!(title.contains("#3 hotspot"), "title was: {title}");
}

#[test]
fn test_lens_with_zero_start_line() {
    let mut data = make_test_data();
    data.hotspots[0].start_line = 0;

    let config = make_test_config();
    let lenses = generate_code_lenses(&data, &config, "handler.go");

    let handle_lens = lenses
        .iter()
        .find(|l| l.command.as_ref().unwrap().title.contains("#1 hotspot"))
        .unwrap();
    assert_eq!(handle_lens.range.start.line, 9);
}

#[test]
fn test_lens_command_is_empty() {
    let data = make_test_data();
    let config = make_test_config();

    let lenses = generate_code_lenses(&data, &config, "handler.go");
    for lens in &lenses {
        assert_eq!(lens.command.as_ref().unwrap().command, "");
    }
}

#[test]
fn test_format_lens_title() {
    let data = make_test_data();
    let title = format_lens_title(&data.hotspots[0], &data);
    assert_eq!(title, "# #1 hotspot — flat: 100ms (10.0%) | cum: 700ms (70.0%)");
}

#[test]
fn the_limit_keeps_the_first_hotspots() {
    let mut config = make_test_config();
    config.display.max_code_lenses = 1;
    let lenses = generate_code_lenses(&make_test_data(), &config, "handler.go");
    assert_eq!(lenses[0].range.start.line, 19);
    config.display.max_code_lenses = 0;
    assert!(generate_code_lenses(&make_test_data(), &config, "handler.go").is_empty());
}

#[test]
fn equal_lines_stay_in_order() {
    let mut data = make_test_data();
    data.hotspots = vec![
        hotspot(1, "a", "f.go", 8, 1, 1),
        hotspot(2, "b", "f.go", 3, 1, 1),
        hotspot(3, "c", "f.go", 8, 1, 1),
        hotspot(4, "d", "f.go", 3, 1, 1),
    ];
    let lenses = generate_code_lenses(&data, &make_test_config(), "f.go");
    let ranks: Vec<String> = lenses
        .iter()
        .map(|l| l.command.as_ref().unwrap().title[3..4].to_string())
        .collect();
    assert_eq!(ranks, vec!["2", "4", "1", "3"]);
}

#[test]
fn a_lens_without_any_line_is_at_the_top() {
    let mut data = make_test_data();
    data.hotspots = vec![hotspot(1, "a", "f.go", 0, 1, 1)];
    let lenses = generate_code_lenses(&data, &make_test_config(), "f.go");
    assert_eq!(lenses[0].range.start.line, 0);
    assert_eq!(lenses[0].range.end.line, 0);
}

#[test]
fn long_line_numbers_are_cut() {
    let mut data = make_test_data();
    data.hotspots = vec![hotspot(1, "a", "f.go", 0x1_0000_0008, 1, 1)];
    let lenses = generate_code_lenses(&data, &make_test_config(), "f.go");
    assert_eq!(lenses[0].range.start.line, 7);
}

#[test]
fn the_first_profiled_line_counts_from_zero() {
    let mut data = make_test_data();
    assert_eq!(find_first_profiled_line(&data, "handler.go"), Some(9));
    assert_eq!(find_first_profiled_line(&data, "other.go"), None);
    let mut at_zero = BTreeMap::new();
    at_zero.insert(0, cost(1, 1));
    data.line_costs.insert("zero.go".to_string(), at_zero);
    assert_eq!(find_first_profiled_line(&data, "zero.go"), Some(0));
    data.line_costs.insert("empty.go".to_string(), BTreeMap::new());
    assert_eq!(find_first_profiled_line(&data, "empty.go"), None);
}
