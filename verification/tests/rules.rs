use go_profile_lsp::config::PathMappingConfig;
use go_profile_lsp::discovery::arrange_files;
use go_profile_lsp::discovery::search_directory;
use go_profile_lsp::paths::PathResolver;
use go_profile_lsp::rules::is_plain_path;
use go_profile_lsp::rules::join_paths_by;
use go_profile_lsp::rules::path_below_by;
use go_profile_lsp::rules::path_ends_with;
use go_profile_lsp::rules::same_components;
use go_profile_lsp::rules::PathRules;
use go_profile_lsp::server::path_to_file_key;
use go_profile_lsp::server::FilePath;
use go_profile_lsp::watch::FileStat;
use go_profile_lsp::watch::FileWatcher;

const WINDOWS: PathRules = PathRules::Windows;

#[test]
fn both_separators_part_names() {
    assert!(same_components(r"C:\ws\pkg\a.go", "C:/ws//pkg/./a.go/", WINDOWS));
    assert!(same_components(r"c:\ws", r"C:\ws", WINDOWS));
    assert!(!same_components(r"C:\WS", r"C:\ws", WINDOWS));
    assert!(!same_components(r"C:\ws", "C:ws", WINDOWS));
    assert!(same_components(r"\\server\share", r"//server/share/", WINDOWS));
    assert!(!same_components(r"a\b", "a/b", PathRules::Unix));
    assert!(path_ends_with(r"C:\go\src\pkg\a.go", "pkg/a.go", WINDOWS));
    assert!(!path_ends_with(r"C:\go\src\notpkg\a.go", r"pkg\a.go", WINDOWS));
}

#[test]
fn what_is_below_a_directory_of_windows() {
    let below = |path: &str, base: &str| path_below_by(path, base, WINDOWS);
    assert_eq!(below(r"C:\ws\pkg\a.go", r"c:\ws").as_deref(), Some(r"pkg\a.go"));
    assert_eq!(below(r"C:\ws\.\pkg/./a.go\", "C:/ws/").as_deref(), Some(r"pkg/./a.go"));
    assert_eq!(below(r"C:\ws", r"C:\ws").as_deref(), Some(""));
    assert_eq!(below(r"C:\ws", "C:").as_deref(), Some(r"\ws"));
    assert_eq!(below(r"C:ws\a", "C:").as_deref(), Some(r"ws\a"));
    assert_eq!(below(r"C:ws\a", r"C:\"), None);
    assert_eq!(below(r"C:\ws\a\", "").as_deref(), Some(r"C:\ws\a"));
    assert_eq!(below(r"D:\ws\a", r"C:\ws"), None);
    assert_eq!(below(r"C:\wide\a", r"C:\w"), None);
    assert_eq!(below(r"ws\a", "ws").as_deref(), Some("a"));
    assert_eq!(below(r"\\server\share\a\b", r"\\server\share").as_deref(), Some(r"a\b"));
    assert_eq!(below(r"\\server\share\a", r"\\server\other"), None);
    assert_eq!(below(r"\\?\C:\ws\a", r"\\?\c:\ws").as_deref(), Some("a"));
    assert_eq!(below(r"\\?\C:\ws\a", r"C:\ws"), None);
    assert_eq!(below(r"\\?\UNC\s\sh\a", r"\\?\UNC\s\sh").as_deref(), Some("a"));
    assert_eq!(below(r"\\.\COM1\a", r"\\.\COM1").as_deref(), Some("a"));
}

#[test]
fn paths_of_windows_are_joined() {
    let join = |base: &str, path: &str| join_paths_by(base, path, WINDOWS);
    assert_eq!(join(r"C:\ws", "./profiles"), r"C:\ws\./profiles");
    assert_eq!(join(r"C:\ws\", "a"), r"C:\ws\a");
    assert_eq!(join("C:/ws/", "a"), "C:/ws/a");
    assert_eq!(join(r"C:\ws", r"D:\x"), r"D:\x");
    assert_eq!(join(r"C:\ws", "D:x"), "D:x");
    assert_eq!(join(r"C:\ws", r"\x"), r"C:\x");
    assert_eq!(join(r"\\s\sh\a", "/x"), r"\\s\sh/x");
    assert_eq!(join("C:", "x"), "C:x");
    assert_eq!(join("", "x"), "x");
    assert_eq!(join(r"\\?\C:\ws", r"./a/../b\c"), r"\\?\C:\ws\b\c");
    assert_eq!(join(r"\\?\C:\ws", "../../x"), r"\\?\C:\x");
    assert_eq!(join(r"\\?\C:\ws", "/x"), r"\\?\C:\x");
    assert_eq!(join(r"\\?\C:\ws", "D:/x"), "D:/x");
    assert_eq!(search_directory(r"C:\ws", "pprof", WINDOWS), r"C:\ws\pprof");
    assert!(is_plain_path(r"a\b", WINDOWS));
    assert!(!is_plain_path(r"\a", WINDOWS));
    assert!(!is_plain_path("C:a", WINDOWS));
}

fn text(path: &str) -> FilePath {
    FilePath::Text(path.to_string())
}

#[test]
fn documents_of_windows_have_keys() {
    let key = |path: &str| path_to_file_key(Some(text(path)), &text(r"C:\ws"), WINDOWS);
    assert_eq!(key(r"C:\ws\pkg\a.go").as_deref(), Some(r"pkg\a.go"));
    assert_eq!(key("c:/ws/a.go").as_deref(), Some("a.go"));
    assert_eq!(key(r"C:\other\a.go"), None);
}

#[test]
fn files_are_resolved_on_windows() {
    let mut resolver = PathResolver::new(
        r"C:\ws".to_string(),
        PathMappingConfig::default(),
        vec!["a.go".to_string(), r"pkg\a.go".to_string()],
        WINDOWS,
    );
    let existing = vec![r"pkg\a.go".to_string(), "x.s".to_string()];
    assert_eq!(resolver.resolve(r"C:\ws\pkg\a.go", &existing).as_deref(), Some(r"pkg\a.go"));
    assert_eq!(resolver.resolve("C:/ws/x.s", &existing).as_deref(), Some("x.s"));
    assert_eq!(resolver.resolve(r"\ws\x.s", &existing).as_deref(), Some("x.s"));
    assert_eq!(resolver.resolve(r"D:\ws\x.s", &existing), None);
    assert_eq!(resolver.resolve(r"D:\b\a.go", &existing).as_deref(), Some("a.go"));
}

#[test]
fn files_of_windows_are_arranged_and_watched() {
    let found: Vec<String> = [r"D:\a", r"C:\b", "c:/b", "a", r"\\s\sh\a", r"\a"]
        .iter()
        .map(|file| file.to_string())
        .collect();
    assert_eq!(
        arrange_files(&found, WINDOWS),
        vec![r"\\s\sh\a", r"C:\b", r"D:\a", r"\a", "a"]
    );

    let stat = |path: &str| FileStat { path: path.to_string(), mtime: Some(1) };
    let mut watcher = FileWatcher::new(WINDOWS);
    watcher.seed(&[stat(r"C:\ws\a")]);
    assert!(!watcher.check_for_changes(&[stat("c:/ws/a")]));
    assert!(watcher.check_for_changes(&[stat(r"C:\ws\b")]));
}
