use go_profile_lsp::analysis::HotspotFunction;
use go_profile_lsp::analysis::ProfileData;
use go_profile_lsp::analysis::ProfileType;
use go_profile_lsp::config::Config;
use go_profile_lsp::config::PathMappingConfig;
use go_profile_lsp::costs::FileCosts;
use go_profile_lsp::costs::LineCost;
use go_profile_lsp::format::ValueUnit;
use go_profile_lsp::lsp::Position;
use go_profile_lsp::lsp::Range;
use go_profile_lsp::paths::PathResolver;
use go_profile_lsp::profile::ParseError;
use go_profile_lsp::relocation::relocate;
use go_profile_lsp::rules::PathRules;
use go_profile_lsp::server::load_profile;
use go_profile_lsp::server::path_from_bytes;
use go_profile_lsp::server::path_to_file_key;
use go_profile_lsp::server::uri_to_file_key;
use go_profile_lsp::server::FilePath;
use go_profile_lsp::server::LoadPlan;
use go_profile_lsp::server::Loaded;
use go_profile_lsp::server::ServerState;
use go_profile_lsp::watch::FileStat;
use go_profile_lsp::watch::FileWatcher;
use go_profile_lsp::wire::Malformed;
use std::collections::BTreeMap;
use tower_lsp::lsp_types::Url;

fn text(path: &str) -> FilePath {
    FilePath::Text(path.to_string())
}

#[test]
fn test_uri_to_file_key() {
    let uri = Url::from_file_path("/workspace/project/pkg/handler.go").unwrap();
    let key = uri_to_file_key(uri.as_str(), &text("/workspace/project"), PathRules::Unix);
    assert_eq!(key, Some("pkg/handler.go".to_string()));
}

#[test]
fn test_uri_to_file_key_outside_workspace() {
    let uri = Url::from_file_path("/other/path/file.go").unwrap();
    let key = uri_to_file_key(uri.as_str(), &text("/workspace/project"), PathRules::Unix);
    assert_eq!(key, None);
}

#[test]
fn uris_are_decoded() {
    let uri = Url::parse("file:///w/a%20b/c.go").unwrap();
    assert_eq!(uri_to_file_key(uri.as_str(), &text("/w/"), PathRules::Unix).as_deref(), Some("a b/c.go"));
    let remote = Url::parse("https://example.com/w/c.go").unwrap();
    assert_eq!(uri_to_file_key(remote.as_str(), &text("/w"), PathRules::Unix), None);
    assert_eq!(uri_to_file_key("no uri", &text("/w"), PathRules::Unix), None);
    assert_eq!(path_to_file_key(None, &text("/w"), PathRules::Unix), None);
    assert_eq!(path_to_file_key(Some(text("/w")), &text("/w"), PathRules::Unix).as_deref(), Some(""));
    assert_eq!(path_to_file_key(Some(text("/wide/x")), &text("/w"), PathRules::Unix), None);
}

#[test]
fn paths_need_not_be_unicode() {
    let root = path_from_bytes(Some(b"/w\xff".to_vec())).unwrap();
    assert!(matches!(&root, FilePath::Raw(bytes) if bytes == b"/w\xff"));
    let key = |uri: &str| uri_to_file_key(uri, &root, PathRules::Unix);
    assert_eq!(key("file:///w%FF/pkg/a%20b.go").as_deref(), Some("pkg/a b.go"));
    assert_eq!(key("file:///w%FF/gr%C3%B6%C3%9Fe.go").as_deref(), Some("größe.go"));
    assert_eq!(key("file:///w%FF/%FE.go"), None);
    assert_eq!(key("file:///w%FE/a.go"), None);
    assert_eq!(key("file:///w/a.go"), None);
    assert_eq!(uri_to_file_key("file:///w/%FF.go", &text("/w"), PathRules::Unix), None);

    let mut state = ServerState::new();
    state.initialize(Some("file:///w%FF"), Some("/other".to_string()), None, None, None);
    assert!(matches!(&state.workspace_root, Some(FilePath::Raw(bytes)) if bytes == b"/w\xff"));
}

fn one_line(line: u64, cumulative: i64) -> BTreeMap<u64, LineCost> {
    let mut lines = BTreeMap::new();
    lines.insert(
        line,
        LineCost {
            flat: 0,
            cumulative,
        },
    );
    lines
}

fn hotspot(rank: usize, filename: &str) -> HotspotFunction {
    HotspotFunction {
        rank,
        name: "f".to_string(),
        filename: filename.to_string(),
        start_line: 3,
        flat: 0,
        cumulative: 10,
    }
}

fn make_data() -> ProfileData {
    let mut line_costs = FileCosts::new();
    line_costs.insert("/ci/pkg/a.go".to_string(), one_line(4, 10));
    line_costs.insert("/usr/lib/go/b.go".to_string(), one_line(5, 20));
    line_costs.insert("c.go".to_string(), one_line(6, 30));
    ProfileData {
        line_costs,
        hotspots: vec![hotspot(1, "/ci/pkg/a.go"), hotspot(2, "/usr/lib/go/b.go")],
        profile_type: ProfileType::Cpu,
        sample_type_label: "cpu".to_string(),
        value_unit: ValueUnit::Count,
        total_value: 100,
        duration: Some(7),
    }
}

fn lines(start: u32, end: u32) -> Range {
    Range {
        start: Position {
            line: start,
            character: 0,
        },
        end: Position {
            line: end,
            character: 0,
        },
    }
}

#[test]
fn paths_become_those_of_the_workspace() {
    let config = PathMappingConfig {
        trim_prefix: "/ci/".to_string(),
        source_root: String::new(),
    };
    let mut resolver = PathResolver::new("/w".to_string(), config, vec!["c.go".to_string()], PathRules::Unix);
    let existing = vec!["pkg/a.go".to_string()];
    let data = relocate(make_data(), &mut resolver, &existing).unwrap();
    assert_eq!(data.line_costs.len(), 2);
    assert_eq!(data.line_costs.get("pkg/a.go").unwrap().get(&4).unwrap().cumulative, 10);
    assert_eq!(data.line_costs.get("c.go").unwrap().get(&6).unwrap().cumulative, 30);
    assert!(data.line_costs.get("/usr/lib/go/b.go").is_none());
    assert_eq!(data.hotspots[0].filename, "pkg/a.go");
    assert_eq!(data.hotspots[1].filename, "/usr/lib/go/b.go");
    assert_eq!(data.hotspots[1].rank, 2);
    assert_eq!(data.total_value, 100);
    assert_eq!(data.duration, Some(7));
}

fn make_doubled(first: i64, second: i64) -> ProfileData {
    let mut data = make_data();
    let mut lines = one_line(4, second);
    lines.insert(9, LineCost { flat: 1, cumulative: 2 });
    data.line_costs.insert("/ci/pkg/a.go".to_string(), one_line(4, first));
    data.line_costs.insert("/elsewhere/pkg/a.go".to_string(), lines);
    data
}

#[test]
fn files_at_one_path_are_summed() {
    let files = vec!["pkg/a.go".to_string()];
    let mut resolver = PathResolver::new("/w".to_string(), PathMappingConfig::default(), files.clone(), PathRules::Unix);
    let data = relocate(make_doubled(10, 5), &mut resolver, &Vec::new()).unwrap();
    let lines = data.line_costs.get("pkg/a.go").unwrap();
    assert_eq!(lines.len(), 2);
    assert_eq!(*lines.get(&4).unwrap(), LineCost { flat: 0, cumulative: 15 });
    assert_eq!(*lines.get(&9).unwrap(), LineCost { flat: 1, cumulative: 2 });

    let mut resolver = PathResolver::new("/w".to_string(), PathMappingConfig::default(), files.clone(), PathRules::Unix);
    let data = relocate(make_doubled(i64::MAX, -1), &mut resolver, &Vec::new()).unwrap();
    let lines = data.line_costs.get("pkg/a.go").unwrap();
    assert_eq!(lines.get(&4).unwrap().cumulative, i64::MAX - 1);

    let mut resolver = PathResolver::new("/w".to_string(), PathMappingConfig::default(), files, PathRules::Unix);
    assert!(relocate(make_doubled(i64::MAX, 1), &mut resolver, &Vec::new()).is_none());
}

fn ready() -> ServerState {
    let mut state = ServerState::new();
    state.initialize(None, Some("/w".to_string()), None, Some(true), None);
    state.set_profile(make_data());
    state
}

#[test]
fn a_new_state_serves_nothing() {
    let state = ServerState::new();
    assert!(state.profile_data.is_none());
    assert!(state.workspace_root.is_none());
    assert!(state.inlay_hint(Some("c.go"), &lines(0, 9)).is_none());
    assert!(state.code_lens(Some("c.go")).is_none());
}

#[test]
fn initialization_takes_over_what_the_client_says() {
    let mut state = ServerState::new();
    let mut config = Config::default();
    config.watch_interval_secs = 17;
    let uri = Url::from_file_path("/from/uri").unwrap();
    let capabilities = state.initialize(
        Some(uri.as_str()),
        Some("/from/path".to_string()),
        Some(config),
        Some(true),
        Some(false),
    );
    assert!(matches!(&state.workspace_root, Some(FilePath::Text(root)) if root == "/from/uri"));
    assert_eq!(state.config.watch_interval_secs, 17);
    assert!(state.client_supports_inlay_refresh);
    assert!(!state.client_supports_codelens_refresh);
    assert_eq!(capabilities.inlay_hint_resolve, Some(false));
    assert_eq!(capabilities.code_lens_resolve, Some(false));
    assert_eq!(capabilities.sync_open_close, Some(true));
    assert_eq!(capabilities.sync_changes, Some(false));

    let remote = Url::parse("https://example.com/x").unwrap();
    state.initialize(Some(remote.as_str()), Some("/from/path".to_string()), None, None, Some(true));
    assert!(matches!(&state.workspace_root, Some(FilePath::Text(root)) if root == "/from/path"));
    assert_eq!(state.config.watch_interval_secs, 5);
    assert!(!state.client_supports_inlay_refresh);
    assert!(state.client_supports_codelens_refresh);
}

#[test]
fn hints_are_served_for_known_files() {
    let state = ready();
    let hints = state.inlay_hint(Some("c.go"), &lines(0, 9)).unwrap();
    assert_eq!(hints.len(), 1);
    assert_eq!(hints[0].label, "  🔴 flat: 0 | cum: 30 (30.0%)");
    assert!(state.inlay_hint(Some("c.go"), &lines(7, 9)).is_none());
    assert!(state.inlay_hint(Some("d.go"), &lines(0, 9)).is_none());
    assert!(state.inlay_hint(None, &lines(0, 9)).is_none());
}

#[test]
fn lenses_are_served_for_files_with_hotspots() {
    let mut state = ready();
    let lenses = state.code_lens(Some("/ci/pkg/a.go")).unwrap();
    assert_eq!(lenses.len(), 1);
    assert_eq!(lenses[0].range.start.line, 2);
    assert!(state.code_lens(Some("c.go")).is_none());
    assert!(state.code_lens(None).is_none());
    state.clear_profile();
    assert!(state.code_lens(Some("/ci/pkg/a.go")).is_none());
}

fn stat(path: &str, mtime: Option<i128>) -> FileStat {
    FileStat {
        path: path.to_string(),
        mtime,
    }
}

#[test]
fn the_newest_profile_is_read() {
    let state = ready();
    let files = [stat("a", Some(1)), stat("b", Some(5)), stat("c", None)];
    assert_eq!(state.plan_load(&files), LoadPlan::Read(1));
    assert_eq!(state.plan_load(&[]), LoadPlan::Clear);
    assert_eq!(state.plan_load(&[stat("a", None)]), LoadPlan::Keep);
    assert_eq!(ServerState::new().plan_load(&files), LoadPlan::Keep);
    assert_eq!(ServerState::new().plan_load(&[]), LoadPlan::Keep);
}

#[test]
fn changes_lead_to_a_reload() {
    let state = ready();
    let mut watcher = FileWatcher::new(PathRules::Unix);
    assert!(state.poll(&mut watcher, &[stat("a", Some(1))]));
    assert!(!state.poll(&mut watcher, &[stat("a", Some(1))]));
    assert!(state.poll(&mut watcher, &[stat("a", Some(2))]));
    assert!(!ServerState::new().poll(&mut watcher, &[]));
    assert_eq!(watcher.known_files(), vec!["a"]);
}

#[test]
fn bytes_are_parsed_and_analyzed() {
    assert!(matches!(load_profile(&[], 5), Loaded::Failed(ParseError::Empty)));
    assert!(matches!(load_profile(&[7], 5), Loaded::Failed(ParseError::Decode(Malformed::WireTypeCode(7)))));
    assert!(matches!(load_profile(&[0x1f, 0x8b], 5), Loaded::Failed(ParseError::Io(_))));
    // A sample with the value 3, in a profile without columns.
    let data = match load_profile(&[0x12, 0x02, 0x10, 0x03], 5) {
        Loaded::Data(data) => data,
        _ => panic!("no data"),
    };
    assert_eq!(data.total_value, 3);
    assert_eq!(data.sample_type_label, "unknown");
    // Two samples of the greatest value.
    let mut large: Vec<u8> = Vec::new();
    for _ in 0..2 {
        large.extend_from_slice(&[0x12, 0x0a, 0x10]);
        large.extend_from_slice(&[0xff; 8]);
        large.push(0x7f);
    }
    assert!(matches!(load_profile(&large, 5), Loaded::Overflow));
}

#[test]
fn a_failed_load_keeps_what_is_loaded() {
    let mut state = ready();
    let mut other = make_data();
    other.total_value = 7;
    state.take_loaded(Loaded::Failed(ParseError::Empty));
    assert_eq!(state.profile_data.as_ref().unwrap().total_value, 100);
    state.take_loaded(Loaded::Overflow);
    assert_eq!(state.profile_data.as_ref().unwrap().total_value, 100);
    state.take_loaded(Loaded::Data(other));
    assert_eq!(state.profile_data.as_ref().unwrap().total_value, 7);
}
