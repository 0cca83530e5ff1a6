use go_profile_lsp::config::PathMappingConfig;
use go_profile_lsp::paths::join_paths;
use go_profile_lsp::paths::path_below;
use go_profile_lsp::paths::split_components;
use go_profile_lsp::paths::PathResolver;
use go_profile_lsp::rules::path_ends_with;
use go_profile_lsp::rules::PathRules;
use std::path::Path;

const WORKSPACE: [&str; 3] = ["main.go", "pkg/handler/handler.go", "cmd/server/server.go"];

fn go_files() -> Vec<String> {
    WORKSPACE.iter().map(|s| s.to_string()).collect()
}

/// Resolves a path in a workspace that holds just the Go files.
fn resolve(resolver: &mut PathResolver, path: &str) -> Option<String> {
    let existing: Vec<String> = resolver
        .candidate_paths(path)
        .into_iter()
        .filter(|c| WORKSPACE.contains(&c.as_str()))
        .collect();
    resolver.resolve(path, &existing)
}

fn mapping(trim_prefix: &str, source_root: &str) -> PathMappingConfig {
    PathMappingConfig {
        trim_prefix: trim_prefix.to_string(),
        source_root: source_root.to_string(),
    }
}

#[test]
fn test_exact_match() {
    let mut resolver = PathResolver::new("/w".to_string(), PathMappingConfig::default(), go_files(), PathRules::Unix);
    assert_eq!(resolve(&mut resolver, "main.go"), Some("main.go".to_string()));
    assert_eq!(
        resolve(&mut resolver, "pkg/handler/handler.go"),
        Some("pkg/handler/handler.go".to_string())
    );
}

#[test]
fn test_trim_prefix() {
    let config = mapping("/home/ci/go/src/github.com/user/project/", "");
    let mut resolver = PathResolver::new("/w".to_string(), config, go_files(), PathRules::Unix);
    assert_eq!(
        resolve(
            &mut resolver,
            "/home/ci/go/src/github.com/user/project/pkg/handler/handler.go"
        ),
        Some("pkg/handler/handler.go".to_string())
    );
}

#[test]
fn test_suffix_match() {
    let mut resolver = PathResolver::new("/w".to_string(), PathMappingConfig::default(), go_files(), PathRules::Unix);
    assert_eq!(
        resolve(&mut resolver, "github.com/user/project/pkg/handler/handler.go"),
        Some("pkg/handler/handler.go".to_string())
    );
}

#[test]
fn test_no_match() {
    let mut resolver = PathResolver::new("/w".to_string(), PathMappingConfig::default(), go_files(), PathRules::Unix);
    assert_eq!(resolve(&mut resolver, "nonexistent.go"), None);
}

#[test]
fn test_caching() {
    let mut resolver = PathResolver::new("/w".to_string(), PathMappingConfig::default(), go_files(), PathRules::Unix);
    let result1 = resolve(&mut resolver, "main.go");
    let result2 = resolve(&mut resolver, "main.go");
    assert_eq!(result1, result2);
    assert_eq!(result1, Some("main.go".to_string()));
}

#[test]
fn test_invalidate() {
    let mut resolver = PathResolver::new("/w".to_string(), PathMappingConfig::default(), go_files(), PathRules::Unix);
    resolve(&mut resolver, "main.go");
    assert!(!resolver.is_fresh());
    resolver.invalidate(go_files());
    assert!(resolver.is_fresh());
}

#[test]
fn candidates_come_in_order() {
    let resolver = PathResolver::new("/w".to_string(), mapping("/ci", "src"), go_files(), PathRules::Unix);
    assert_eq!(
        resolver.candidate_paths("/ci//pkg/a.go"),
        vec!["pkg/a.go", "src/pkg/a.go"]
    );
    let near = PathResolver::new("/w".to_string(), mapping("ci", "src"), go_files(), PathRules::Unix);
    assert_eq!(
        near.candidate_paths("ci/pkg/a.go"),
        vec!["ci/pkg/a.go", "pkg/a.go", "src/pkg/a.go"]
    );
    let plain = PathResolver::new("/w".to_string(), mapping("ci", ""), go_files(), PathRules::Unix);
    assert_eq!(plain.candidate_paths("ci/a.go"), vec!["ci/a.go", "a.go"]);
    let none = PathResolver::new("/w".to_string(), mapping("", "src"), go_files(), PathRules::Unix);
    assert_eq!(none.candidate_paths("a.go"), vec!["a.go"]);
}

#[test]
fn earlier_strategies_win() {
    let path = "ci/main.go";
    let found = |existing: &[&str]| {
        let mut resolver = PathResolver::new("/w".to_string(), mapping("ci/", "src"), go_files(), PathRules::Unix);
        let existing: Vec<String> = existing.iter().map(|s| s.to_string()).collect();
        resolver.resolve(path, &existing)
    };
    assert_eq!(found(&["src/main.go", "main.go", "ci/main.go"]).as_deref(), Some("ci/main.go"));
    assert_eq!(found(&["src/main.go", "main.go"]).as_deref(), Some("main.go"));
    assert_eq!(found(&["src/main.go"]).as_deref(), Some("src/main.go"));
    assert_eq!(found(&[]).as_deref(), Some("main.go"));
}

#[test]
fn absolute_paths_are_none_of_the_workspace() {
    let plain = PathResolver::new("/w".to_string(), PathMappingConfig::default(), go_files(), PathRules::Unix);
    assert!(plain.candidate_paths("/other/a.go").is_empty());
    let rooted = PathResolver::new("/w".to_string(), mapping("/ci/", "/src"), go_files(), PathRules::Unix);
    assert_eq!(rooted.candidate_paths("/ci/a.go"), vec!["a.go"]);
    let mut resolver = PathResolver::new("/w".to_string(), PathMappingConfig::default(), go_files(), PathRules::Unix);
    let existing = vec!["/w/pkg/handler/handler.go".to_string(), "/usr/lib/x.go".to_string()];
    assert_eq!(
        resolver.resolve("/w/pkg/handler/handler.go", &existing).as_deref(),
        Some("pkg/handler/handler.go")
    );
    assert_eq!(resolver.resolve("/usr/lib/x.go", &existing), None);
}

#[test]
fn what_was_resolved_stays() {
    let mut resolver = PathResolver::new("/w".to_string(), PathMappingConfig::default(), go_files(), PathRules::Unix);
    assert_eq!(resolver.resolve("gone.go", &vec![]), None);
    let existing = vec!["gone.go".to_string()];
    assert_eq!(resolver.resolve("gone.go", &existing), None);
    assert_eq!(resolver.resolve_uncached("gone.go", &existing).as_deref(), Some("gone.go"));
    resolver.invalidate(vec![]);
    assert_eq!(resolver.resolve("gone.go", &existing).as_deref(), Some("gone.go"));
    assert_eq!(resolver.resolve("x/main.go", &vec![]), None);
}

#[test]
fn suffixes_are_whole_components() {
    assert!(path_ends_with("/a/b/main.go", "main.go", PathRules::Unix));
    assert!(path_ends_with("/a/b/main.go", "b/main.go", PathRules::Unix));
    assert!(!path_ends_with("/a/b/notmain.go", "main.go", PathRules::Unix));
    assert!(!path_ends_with("main.go", "a/main.go", PathRules::Unix));
    let mut resolver = PathResolver::new("/w".to_string(), PathMappingConfig::default(), go_files(), PathRules::Unix);
    assert_eq!(resolve(&mut resolver, "pkg/notmain.go"), None);
}

const SAMPLES: [&str; 24] = [
    "", "/", ".", "./", "..", "a", "a/", "/a", "a/b", "a//b", "a/./b", "./a", "./a/b/.", "/./a", "//a/b",
    "/a/b/", "/a/b/c", "../a", "a/..", "/.", "./.", "b", "a/b/c//", "/a/./b//c/.",
];

#[test]
fn components_agree_with_the_standard_library() {
    for path in SAMPLES {
        let expected: Vec<String> = Path::new(path)
            .components()
            .map(|c| c.as_os_str().to_str().unwrap().to_string())
            .collect();
        assert_eq!(split_components(path), expected, "path {path:?}");
    }
}

#[test]
fn suffixes_agree_with_the_standard_library() {
    for path in SAMPLES {
        for tail in SAMPLES {
            assert_eq!(
                path_ends_with(path, tail, PathRules::Unix),
                Path::new(path).ends_with(Path::new(tail)),
                "path {path:?}, tail {tail:?}",
            );
        }
    }
}

#[test]
fn joins_agree_with_the_standard_library() {
    for base in SAMPLES {
        for path in SAMPLES {
            assert_eq!(
                join_paths(base, path),
                Path::new(base).join(path).to_str().unwrap(),
                "base {base:?}, path {path:?}",
            );
        }
    }
}

#[test]
fn remainders_agree_with_the_standard_library() {
    for path in SAMPLES {
        for base in SAMPLES {
            let expected: Option<String> = Path::new(path)
                .strip_prefix(base)
                .ok()
                .map(|p| p.to_str().unwrap().to_string());
            assert_eq!(path_below(path, base), expected, "path {path:?}, base {base:?}");
        }
    }
}

#[test]
fn a_remainder_seen_from_its_base_is_the_path() {
    for path in SAMPLES {
        for base in SAMPLES {
            if let Some(rest) = path_below(path, base) {
                assert_eq!(
                    split_components(&join_paths(base, &rest)),
                    split_components(path),
                    "path {path:?}, base {base:?}",
                );
            }
        }
    }
}

#[test]
fn files_of_the_workspace_are_found_by_absolute_paths() {
    let files = vec!["a.go".to_string(), "pkg/a.go".to_string()];
    let existing = vec!["pkg/a.go".to_string(), "x.s".to_string()];
    let new = |config| PathResolver::new("/ws".to_string(), config, files.clone(), PathRules::Unix);
    let mut resolver = new(PathMappingConfig::default());
    assert_eq!(resolver.candidate_paths("/ws/pkg/a.go"), vec!["pkg/a.go"]);
    assert_eq!(resolver.resolve("/ws/pkg/a.go", &existing).as_deref(), Some("pkg/a.go"));
    assert_eq!(resolver.resolve("/ws/x.s", &existing).as_deref(), Some("x.s"));
    assert_eq!(resolver.resolve("/elsewhere/x.s", &existing), None);
    assert_eq!(resolver.resolve("/ws/y.s", &existing), None);
    assert_eq!(resolver.resolve("/elsewhere/pkg/a.go", &existing).as_deref(), Some("a.go"));

    let rooted = new(mapping("/ci/", "/ws/src"));
    assert_eq!(rooted.candidate_paths("/ci/b.go"), vec!["b.go", "src/b.go"]);
    let outside = new(mapping("/ci/", "/src"));
    assert_eq!(outside.candidate_paths("/ci/b.go"), vec!["b.go"]);
}
