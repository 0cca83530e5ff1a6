use go_profile_lsp::config::Config;
use go_profile_lsp::discovery::arrange_files;
use go_profile_lsp::discovery::expand_braces;
use go_profile_lsp::discovery::find_newest;
use go_profile_lsp::discovery::search_directory;
use go_profile_lsp::discovery::search_patterns;
use go_profile_lsp::rules::PathRules;
use go_profile_lsp::watch::FileStat;
use std::path::PathBuf;

/// The files, out of those that exist, that the patterns of the default options find.
fn discovered(root: &str, directories: &[&str], existing: &[&str]) -> Vec<String> {
    let config = Config::default();
    let mut found: Vec<String> = Vec::new();
    for search_path in &config.profile_paths {
        if !directories.contains(&search_path.as_str()) {
            continue;
        }
        let directory = search_directory(root, search_path, PathRules::Unix);
        for pattern in search_patterns(&directory, &config.profile_glob, PathRules::Unix) {
            let options = glob::MatchOptions {
                case_sensitive: true,
                require_literal_separator: true,
                require_literal_leading_dot: false,
            };
            let pattern = glob::Pattern::new(&pattern).unwrap();
            for name in existing {
                let file = join(&directory, name);
                if pattern.matches_with(&file, options) {
                    found.push(file);
                }
            }
        }
    }
    arrange_files(&found, PathRules::Unix)
}

fn join(directory: &str, name: &str) -> String {
    PathBuf::from(directory).join(name).to_str().unwrap().to_string()
}

#[test]
fn test_discover_profile_files() {
    let files = discovered("/w", &["."], &["cpu.pprof", "heap.prof", "other.txt"]);
    assert_eq!(files.len(), 2);
    assert!(files.iter().any(|f| f.ends_with("/cpu.pprof")));
    assert!(files.iter().any(|f| f.ends_with("/heap.prof")));
}

#[test]
fn test_discover_profile_files_subdirectory() {
    let files = discovered("/w", &["./profiles"], &["cpu.pprof"]);
    assert_eq!(files.len(), 1);
}

#[test]
fn braces_are_expanded() {
    assert_eq!(expand_braces("*.{pprof,prof}"), vec!["*.pprof", "*.prof"]);
    assert_eq!(expand_braces("a{b,c,d}e"), vec!["abe", "ace", "ade"]);
    assert_eq!(expand_braces("plain"), vec!["plain"]);
    assert_eq!(expand_braces("open{a,b"), vec!["open{a,b"]);
    assert_eq!(expand_braces("}a{b}"), vec!["}ab"]);
    assert_eq!(expand_braces("{}x"), vec!["x"]);
    assert_eq!(expand_braces("{,y}x"), vec!["x", "yx"]);
    assert_eq!(expand_braces("{a,b}{c,d}"), vec!["a{c,d}", "b{c,d}"]);
    assert_eq!(expand_braces(""), vec![""]);
}

#[test]
fn patterns_lie_in_their_directory() {
    assert_eq!(search_directory("/w", "./profiles", PathRules::Unix), "/w/./profiles");
    assert_eq!(search_directory("/w", "/tmp/p", PathRules::Unix), "/tmp/p");
    assert_eq!(
        search_patterns("/w/./profiles", "*.{pprof,prof}", PathRules::Unix),
        vec!["/w/./profiles/*.pprof", "/w/./profiles/*.prof"]
    );
}

#[test]
fn files_are_ordered_like_paths() {
    let found: Vec<String> = [
        "/w/b.prof", "/w/a/z.prof", "/w/a.prof", "/w/./b.prof", "/w/a-b/c", "/w/a//z.prof", "/v/x", "rel",
        "../up", "./here", "/w/é", "/w/Z",
    ]
    .iter()
    .map(|s| s.to_string())
    .collect();
    let mut expected: Vec<PathBuf> = found.iter().map(PathBuf::from).collect();
    expected.sort();
    expected.dedup();
    let expected: Vec<String> = expected
        .iter()
        .map(|p| p.to_str().unwrap().to_string())
        .collect();
    assert_eq!(arrange_files(&found, PathRules::Unix), expected);
    assert!(arrange_files(&vec![], PathRules::Unix).is_empty());
}

fn stats(times: &[Option<i128>]) -> Vec<FileStat> {
    times
        .iter()
        .map(|t| FileStat {
            path: "f".to_string(),
            mtime: *t,
        })
        .collect()
}

#[test]
fn the_newest_file_is_the_last_of_the_greatest() {
    assert_eq!(find_newest(&stats(&[Some(1), Some(3), Some(2)])), Some(1));
    assert_eq!(find_newest(&stats(&[Some(3), None, Some(3), Some(2)])), Some(2));
    assert_eq!(find_newest(&stats(&[Some(-5), Some(-9)])), Some(0));
    assert_eq!(find_newest(&stats(&[None, None])), None);
    assert_eq!(find_newest(&stats(&[])), None);
}
