use go_profile_lsp::config::Config;
use go_profile_lsp::config::PathMappingConfig;
use go_profile_lsp::hints::generate_inlay_hints;
use go_profile_lsp::lenses::generate_code_lenses;
use go_profile_lsp::lsp::Position;
use go_profile_lsp::lsp::Range;
use go_profile_lsp::paths::PathResolver;
use go_profile_lsp::relocation::relocate;
use go_profile_lsp::rules::PathRules;
use go_profile_lsp::server::load_profile;
use go_profile_lsp::server::Loaded;
use prost::encoding::encode_key;
use prost::encoding::encode_varint;
use prost::encoding::int64;
use prost::encoding::string;
use prost::encoding::uint64;
use prost::encoding::WireType;

const WORKSPACE: [&str; 3] = ["main.go", "pkg/db/query.go", "pkg/handler/handler.go"];

fn message(out: &mut Vec<u8>, tag: u32, body: &[u8]) {
    encode_key(tag, WireType::LengthDelimited, out);
    encode_varint(body.len() as u64, out);
    out.extend_from_slice(body);
}

/// A profile with several files and functions, and the absolute paths of another machine.
fn make_realistic_profile() -> Vec<u8> {
    let mut out: Vec<u8> = Vec::new();

    let mut column: Vec<u8> = Vec::new();
    int64::encode(1, &1, &mut column);
    int64::encode(2, &2, &mut column);
    message(&mut out, 1, &column);

    let samples: [(&[u64], i64); 3] = [
        (&[4, 2, 1], 500_000_000),
        (&[3, 1], 200_000_000),
        (&[1], 100_000_000),
    ];
    for (ids, value) in samples {
        let mut sample: Vec<u8> = Vec::new();
        uint64::encode_packed(1, ids, &mut sample);
        int64::encode_packed(2, &[value], &mut sample);
        message(&mut out, 2, &sample);
    }

    for (id, function, line) in [(1u64, 1u64, 15i64), (2, 2, 30), (3, 2, 35), (4, 3, 20)] {
        let mut inner: Vec<u8> = Vec::new();
        uint64::encode(1, &function, &mut inner);
        int64::encode(2, &line, &mut inner);
        let mut location: Vec<u8> = Vec::new();
        uint64::encode(1, &id, &mut location);
        message(&mut location, 4, &inner);
        message(&mut out, 4, &location);
    }

    for (id, name, filename, start_line) in [(1u64, 4i64, 3i64, 10i64), (2, 6, 5, 25), (3, 8, 7, 15)] {
        let mut function: Vec<u8> = Vec::new();
        uint64::encode(1, &id, &mut function);
        int64::encode(2, &name, &mut function);
        int64::encode(3, &name, &mut function);
        int64::encode(4, &filename, &mut function);
        int64::encode(5, &start_line, &mut function);
        message(&mut out, 5, &function);
    }

    for text in [
        "",
        "cpu",
        "nanoseconds",
        "/home/ci/go/src/myproject/main.go",
        "main",
        "/home/ci/go/src/myproject/pkg/handler/handler.go",
        "HandleRequest",
        "/home/ci/go/src/myproject/pkg/db/query.go",
        "ExecuteQuery",
    ] {
        string::encode(6, &text.to_string(), &mut out);
    }
    int64::encode(10, &10_000_000_000, &mut out);
    out
}

#[test]
fn test_full_pipeline() {
    let data = match load_profile(&make_realistic_profile(), 50) {
        Loaded::Data(data) => data,
        other => panic!("not loaded: {other:?}"),
    };
    assert_eq!(data.total_value, 800_000_000);
    assert_eq!(data.duration, Some(10_000_000_000));

    let mapping = PathMappingConfig {
        trim_prefix: "/home/ci/go/src/myproject/".to_string(),
        ..Default::default()
    };
    let go_files: Vec<String> = WORKSPACE.iter().map(|s| s.to_string()).collect();
    let mut resolver = PathResolver::new("/w".to_string(), mapping, go_files.clone(), PathRules::Unix);
    let data = relocate(data, &mut resolver, &go_files).unwrap();

    assert_eq!(data.line_costs.len(), 3);
    for file in WORKSPACE {
        assert!(data.line_costs.contains_key(file));
    }

    let config = Config::default();
    let range = Range {
        start: Position {
            line: 0,
            character: 0,
        },
        end: Position {
            line: 100,
            character: 0,
        },
    };

    let hints = generate_inlay_hints(&data, &config, "main.go", &range);
    assert_eq!(hints.len(), 1);
    assert_eq!(hints[0].label, "  🔴 flat: 100ms | cum: 800ms (100.0%)");

    let handler_hints = generate_inlay_hints(&data, &config, "pkg/handler/handler.go", &range);
    assert_eq!(handler_hints.len(), 2);
    assert_eq!(handler_hints[0].label, "  🔴 flat: 0ns | cum: 500ms (62.5%)");
    assert_eq!(handler_hints[1].label, "  🟠 flat: 200ms | cum: 200ms (25.0%)");

    let lenses = generate_code_lenses(&data, &config, "pkg/handler/handler.go");
    assert_eq!(lenses.len(), 1);
    assert_eq!(
        lenses[0].command.as_ref().unwrap().title,
        "# #2 hotspot — flat: 200ms (25.0%) | cum: 700ms (87.5%)"
    );
    assert_eq!(lenses[0].range.start.line, 24);
}
