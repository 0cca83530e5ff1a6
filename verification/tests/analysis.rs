use go_profile_lsp::analysis::analyze_profile;
use go_profile_lsp::analysis::checked_analyze_profile;
use go_profile_lsp::analysis::select_sample_type;
use go_profile_lsp::analysis::ProfileType;
use go_profile_lsp::format::ValueUnit;
use go_profile_lsp::proto::Function;
use go_profile_lsp::proto::Line;
use go_profile_lsp::proto::Location;
use go_profile_lsp::proto::Profile;
use go_profile_lsp::proto::Sample;
use go_profile_lsp::proto::ValueType;
use std::time::Duration;

fn texts(list: &[&str]) -> Vec<String> {
    list.iter().map(|s| s.to_string()).collect()
}

fn place(id: u64, lines: &[(u64, i64)]) -> Location {
    Location {
        id,
        mapping_id: 0,
        address: 0,
        line: lines
            .iter()
            .map(|l| Line {
                function_id: l.0,
                line: l.1,
            })
            .collect(),
        is_folded: false,
    }
}

fn function(id: u64, name: i64, filename: i64, start_line: i64) -> Function {
    Function {
        id,
        name,
        system_name: name,
        filename,
        start_line,
    }
}

fn stack(ids: &[u64], value: i64) -> Sample {
    Sample {
        location_id: ids.to_vec(),
        value: vec![value],
        label: vec![],
    }
}

/// Two samples: handler.go:30 called from main.go:15, and main.go:15 alone.
fn make_test_profile() -> Profile {
    Profile {
        sample_type: vec![ValueType { type_: 1, unit: 2 }],
        sample: vec![stack(&[2, 1], 100_000_000), stack(&[1], 50_000_000)],
        mapping: vec![],
        location: vec![place(1, &[(1, 15)]), place(2, &[(2, 30)])],
        function: vec![function(1, 4, 3, 10), function(2, 6, 5, 25)],
        string_table: texts(&[
            "",
            "cpu",
            "nanoseconds",
            "main.go",
            "main",
            "handler.go",
            "handleRequest",
        ]),
        duration_nanos: 5_000_000_000,
        ..Default::default()
    }
}

#[test]
fn test_select_sample_type_cpu() {
    let profile = make_test_profile();
    let (idx, ptype, label, unit) = select_sample_type(&profile);
    assert_eq!(idx, 0);
    assert_eq!(ptype, ProfileType::Cpu);
    assert_eq!(label, "cpu");
    assert_eq!(unit, ValueUnit::Nanoseconds);
}

#[test]
fn test_select_sample_type_heap() {
    let mut profile = make_test_profile();
    profile.string_table.push("inuse_space".to_string());
    profile.string_table.push("bytes".to_string());
    profile.sample_type = vec![ValueType { type_: 7, unit: 8 }];

    let (_, ptype, _, unit) = select_sample_type(&profile);
    assert_eq!(ptype, ProfileType::Heap);
    assert_eq!(unit, ValueUnit::Bytes);
}

#[test]
fn test_analyze_total_value() {
    let profile = make_test_profile();
    let data = analyze_profile(&profile, 50);
    assert_eq!(data.total_value, 150_000_000);
    assert_eq!(data.profile_type, ProfileType::Cpu);
    assert_eq!(data.value_unit, ValueUnit::Nanoseconds);
}

#[test]
fn test_analyze_line_costs() {
    let profile = make_test_profile();
    let data = analyze_profile(&profile, 50);

    let main_costs = data.line_costs.get("main.go").unwrap();
    let cost_15 = main_costs.get(&15).unwrap();
    assert_eq!(cost_15.cumulative, 150_000_000);
    assert_eq!(cost_15.flat, 50_000_000);

    let handler_costs = data.line_costs.get("handler.go").unwrap();
    let cost_30 = handler_costs.get(&30).unwrap();
    assert_eq!(cost_30.cumulative, 100_000_000);
    assert_eq!(cost_30.flat, 100_000_000);
}

#[test]
fn test_analyze_hotspots() {
    let profile = make_test_profile();
    let data = analyze_profile(&profile, 50);

    assert_eq!(data.hotspots.len(), 2);
    assert_eq!(data.hotspots[0].name, "main");
    assert_eq!(data.hotspots[0].cumulative, 150_000_000);
    assert_eq!(data.hotspots[0].rank, 1);
    assert_eq!(data.hotspots[0].start_line, 10);

    assert_eq!(data.hotspots[1].name, "handleRequest");
    assert_eq!(data.hotspots[1].cumulative, 100_000_000);
    assert_eq!(data.hotspots[1].rank, 2);
}

#[test]
fn test_analyze_hotspots_truncation() {
    let profile = make_test_profile();
    let data = analyze_profile(&profile, 1);
    assert_eq!(data.hotspots.len(), 1);
    assert_eq!(data.hotspots[0].name, "main");
}

#[test]
fn test_analyze_duration() {
    let profile = make_test_profile();
    let data = analyze_profile(&profile, 50);
    assert_eq!(data.duration.map(Duration::from_nanos), Some(Duration::from_secs(5)));
}

#[test]
fn test_analyze_empty_profile() {
    let profile = Profile::default();
    let data = analyze_profile(&profile, 50);
    assert!(data.line_costs.is_empty());
    assert!(data.hotspots.is_empty());
    assert_eq!(data.total_value, 0);
}

#[test]
fn test_inlined_functions() {
    let profile = Profile {
        sample_type: vec![ValueType { type_: 1, unit: 2 }],
        sample: vec![stack(&[1], 10_000_000)],
        location: vec![place(1, &[(1, 12), (2, 22)])],
        function: vec![function(1, 4, 3, 10), function(2, 5, 3, 20)],
        string_table: texts(&["", "cpu", "nanoseconds", "util.go", "innerFunc", "outerFunc"]),
        ..Default::default()
    };

    let data = analyze_profile(&profile, 50);
    let costs = data.line_costs.get("util.go").unwrap();

    let cost_12 = costs.get(&12).unwrap();
    assert_eq!(cost_12.flat, 10_000_000);
    assert_eq!(cost_12.cumulative, 10_000_000);

    let cost_22 = costs.get(&22).unwrap();
    assert_eq!(cost_22.flat, 0);
    assert_eq!(cost_22.cumulative, 10_000_000);
}

fn selected(table: &[&str], columns: &[(i64, i64)]) -> (usize, ProfileType, String, ValueUnit) {
    let profile = Profile {
        sample_type: columns
            .iter()
            .map(|c| ValueType {
                type_: c.0,
                unit: c.1,
            })
            .collect(),
        string_table: texts(table),
        ..Default::default()
    };
    select_sample_type(&profile)
}

#[test]
fn known_columns_are_preferred() {
    let heap = [
        "",
        "alloc_objects",
        "count",
        "alloc_space",
        "bytes",
        "inuse_objects",
        "inuse_space",
    ];
    let in_use = |i: usize| (i, ProfileType::Heap, "inuse_space".to_string(), ValueUnit::Bytes);
    assert_eq!(selected(&heap, &[(1, 2), (3, 4), (5, 2), (6, 4)]), in_use(3));
    assert_eq!(selected(&heap, &[(6, 4), (1, 2), (3, 4), (5, 2)]), in_use(0));
    assert_eq!(
        selected(&heap, &[(1, 2), (3, 4)]),
        (1, ProfileType::Allocs, "alloc_space".to_string(), ValueUnit::Bytes)
    );
    let block = ["", "contentions", "count", "delay", "nanoseconds"];
    assert_eq!(
        selected(&block, &[(1, 2), (3, 4)]),
        (1, ProfileType::Block, "delay".to_string(), ValueUnit::Nanoseconds)
    );
    let goroutines = ["", "goroutine", "count"];
    assert_eq!(
        selected(&goroutines, &[(1, 2)]),
        (0, ProfileType::Goroutine, "goroutine".to_string(), ValueUnit::Count)
    );
}

#[test]
fn the_last_column_is_used_where_none_is_known() {
    let table = ["", "samples", "count", "delay", "nanoseconds", "bytes"];
    assert_eq!(
        selected(&table, &[(1, 2), (3, 4)]),
        (1, ProfileType::Unknown, "delay".to_string(), ValueUnit::Nanoseconds)
    );
    assert_eq!(
        selected(&table, &[(3, 4), (1, 5)]),
        (1, ProfileType::Unknown, "samples".to_string(), ValueUnit::Bytes)
    );
    assert_eq!(
        selected(&table, &[(99, 1)]),
        (0, ProfileType::Unknown, "".to_string(), ValueUnit::Count)
    );
    assert_eq!(
        selected(&table, &[]),
        (0, ProfileType::Unknown, "unknown".to_string(), ValueUnit::Count)
    );
}

#[test]
fn unknown_places_are_ignored() {
    let mut profile = make_test_profile();
    profile.location.push(place(3, &[(9, 5), (1, 0), (1, -4), (1, 16)]));
    profile.function.push(function(7, 4, 0, 1));
    profile.location.push(place(4, &[(7, 8)]));
    profile.sample = vec![stack(&[77, 3, 4], 10)];
    let data = analyze_profile(&profile, 50);
    assert_eq!(data.total_value, 10);
    assert_eq!(data.line_costs.len(), 1);
    let costs = data.line_costs.get("main.go").unwrap();
    assert_eq!(costs.len(), 1);
    assert_eq!(costs.get(&16).unwrap().cumulative, 10);
    assert_eq!(costs.get(&16).unwrap().flat, 0);
    assert_eq!(data.hotspots.len(), 1);
}

#[test]
fn a_line_counts_as_often_as_it_is_on_the_stack() {
    let mut profile = make_test_profile();
    profile.sample = vec![stack(&[1, 1, 1], 7)];
    let data = analyze_profile(&profile, 50);
    let cost = data.line_costs.get("main.go").unwrap().get(&15).unwrap();
    assert_eq!(cost.cumulative, 21);
    assert_eq!(cost.flat, 7);
    assert_eq!(data.total_value, 7);
}

#[test]
fn the_last_of_equal_ids_counts() {
    let mut profile = make_test_profile();
    profile.location.push(place(1, &[(2, 99)]));
    profile.function.push(function(2, 6, 3, 40));
    profile.sample = vec![stack(&[1], 5)];
    let data = analyze_profile(&profile, 50);
    assert_eq!(data.line_costs.get("main.go").unwrap().get(&99).unwrap().flat, 5);
    assert_eq!(data.hotspots[0].start_line, 40);
    assert_eq!(data.hotspots[0].name, "handleRequest");
}

#[test]
fn missing_values_count_as_zero() {
    let mut profile = make_test_profile();
    profile.sample[0].value = vec![];
    let data = analyze_profile(&profile, 50);
    assert_eq!(data.total_value, 50_000_000);
    assert_eq!(data.line_costs.get("handler.go").unwrap().get(&30).unwrap().cumulative, 0);
}

#[test]
fn sums_that_overflow_are_refused() {
    let mut profile = make_test_profile();
    profile.sample = vec![stack(&[], i64::MAX), stack(&[], 1)];
    assert!(checked_analyze_profile(&profile, 50).is_none());
    profile.sample = vec![stack(&[1, 1], i64::MAX)];
    assert!(checked_analyze_profile(&profile, 50).is_none());
    profile.sample = vec![stack(&[1], i64::MAX), stack(&[1], i64::MIN)];
    assert_eq!(checked_analyze_profile(&profile, 50).unwrap().total_value, -1);
}

#[test]
fn hotspots_fall_in_cumulative_cost() {
    let n: u64 = 40;
    let profile = Profile {
        sample_type: vec![ValueType { type_: 1, unit: 2 }],
        sample: (0..n).map(|i| stack(&[i], ((i * 17) % n) as i64)).collect(),
        location: (0..n).map(|i| place(i, &[(i, i as i64 + 1)])).collect(),
        function: (0..n).map(|i| function(i, 4, 3, 0)).collect(),
        string_table: texts(&["", "cpu", "nanoseconds", "a.go", "f"]),
        ..Default::default()
    };
    let data = analyze_profile(&profile, 7);
    let costs: Vec<i64> = data.hotspots.iter().map(|h| h.cumulative).collect();
    assert_eq!(costs, vec![39, 38, 37, 36, 35, 34, 33]);
    let ranks: Vec<usize> = data.hotspots.iter().map(|h| h.rank).collect();
    assert_eq!(ranks, vec![1, 2, 3, 4, 5, 6, 7]);
    assert!(analyze_profile(&profile, 0).hotspots.is_empty());
}

#[test]
fn flat_costs_are_at_most_the_total() {
    let data = analyze_profile(&make_test_profile(), 50);
    let mut flat: i64 = 0;
    for file in ["main.go", "handler.go"] {
        for cost in data.line_costs.get(file).unwrap().values() {
            assert!(cost.flat <= cost.cumulative);
            flat += cost.flat;
        }
    }
    assert!(flat <= data.total_value);
}

#[test]
fn negative_start_lines_wrap() {
    let mut profile = make_test_profile();
    profile.function[0].start_line = -1;
    let data = analyze_profile(&profile, 50);
    assert_eq!(data.hotspots[0].start_line, u64::MAX);
}
