use go_profile_lsp::rules::PathRules;
use go_profile_lsp::watch::FileStat;
use go_profile_lsp::watch::FileWatcher;
use go_profile_lsp::watch::REDISCOVER_EVERY_N_CYCLES;

fn stat(path: &str, mtime: i128) -> FileStat {
    FileStat {
        path: path.to_string(),
        mtime: Some(mtime),
    }
}

fn missing(path: &str) -> FileStat {
    FileStat {
        path: path.to_string(),
        mtime: None,
    }
}

#[test]
fn test_initial_check_detects_existing_files() {
    let mut watcher = FileWatcher::new(PathRules::Unix);
    assert!(watcher.check_for_changes(&[stat("cpu.pprof", 1)]));
}

#[test]
fn test_no_change_on_second_check() {
    let mut watcher = FileWatcher::new(PathRules::Unix);
    watcher.check_for_changes(&[stat("cpu.pprof", 1)]);
    assert!(!watcher.check_for_changes(&[stat("cpu.pprof", 1)]));
}

#[test]
fn test_detects_new_file() {
    let mut watcher = FileWatcher::new(PathRules::Unix);
    watcher.check_for_changes(&[stat("cpu.pprof", 1)]);
    assert!(watcher.check_for_changes(&[stat("cpu.pprof", 1), stat("heap.pprof", 1)]));
}

#[test]
fn test_detects_removed_file() {
    let mut watcher = FileWatcher::new(PathRules::Unix);
    watcher.check_for_changes(&[stat("cpu.pprof", 1), stat("heap.pprof", 1)]);
    assert!(watcher.check_for_changes(&[stat("cpu.pprof", 1)]));
}

#[test]
fn test_detects_modified_file() {
    let mut watcher = FileWatcher::new(PathRules::Unix);
    watcher.check_for_changes(&[stat("cpu.pprof", 1)]);
    assert!(watcher.check_for_changes(&[stat("cpu.pprof", 50_000_001)]));
}

#[test]
fn test_empty_files_list() {
    let mut watcher = FileWatcher::new(PathRules::Unix);
    // First check with empty list: no change (nothing to detect).
    assert!(!watcher.check_for_changes(&[]));
}

#[test]
fn test_seed_prevents_spurious_first_change() {
    let mut watcher = FileWatcher::new(PathRules::Unix);
    watcher.seed(&[stat("cpu.pprof", 1)]);
    assert!(!watcher.check_known_files(&[stat("cpu.pprof", 1)]));
    assert!(!watcher.check_for_changes(&[stat("cpu.pprof", 1)]));
}

#[test]
fn test_check_known_files_detects_modification() {
    let mut watcher = FileWatcher::new(PathRules::Unix);
    watcher.seed(&[stat("cpu.pprof", 1)]);
    assert!(watcher.check_known_files(&[stat("cpu.pprof", 2)]));
    assert!(!watcher.check_known_files(&[stat("cpu.pprof", 2)]));
}

#[test]
fn test_check_known_files_detects_deletion() {
    let mut watcher = FileWatcher::new(PathRules::Unix);
    watcher.seed(&[stat("cpu.pprof", 1)]);
    assert!(watcher.check_known_files(&[missing("cpu.pprof")]));
    assert!(watcher.known_files().is_empty());
}

#[test]
fn test_should_rediscover_cycle() {
    let mut watcher = FileWatcher::new(PathRules::Unix);
    for _ in 0..REDISCOVER_EVERY_N_CYCLES - 1 {
        assert!(!watcher.should_rediscover());
    }
    assert!(watcher.should_rediscover());
    assert!(!watcher.should_rediscover());
}

#[test]
fn every_sixth_cycle_rediscovers() {
    let mut watcher = FileWatcher::new(PathRules::Unix);
    for n in 1..100u32 {
        assert_eq!(watcher.should_rediscover(), n % REDISCOVER_EVERY_N_CYCLES == 0);
    }
}

#[test]
fn a_file_without_time_is_of_the_epoch() {
    let mut watcher = FileWatcher::new(PathRules::Unix);
    watcher.seed(&[missing("a")]);
    assert!(!watcher.check_for_changes(&[stat("a", 0)]));
    assert!(!watcher.check_for_changes(&[missing("a")]));
    assert!(watcher.check_for_changes(&[stat("a", 1)]));
}

#[test]
fn unlisted_known_files_are_gone() {
    let mut watcher = FileWatcher::new(PathRules::Unix);
    watcher.seed(&[stat("a", 1), stat("b", 2)]);
    assert!(watcher.check_known_files(&[stat("b", 2)]));
    assert_eq!(watcher.known_files(), vec!["b"]);
    assert!(!watcher.check_known_files(&[stat("b", 2), stat("c", 3)]));
    assert_eq!(watcher.known_files(), vec!["b"]);
}

#[test]
fn a_swap_of_files_is_a_change() {
    let mut watcher = FileWatcher::new(PathRules::Unix);
    watcher.seed(&[stat("a", 1), stat("b", 1)]);
    assert!(watcher.check_for_changes(&[stat("a", 1), stat("c", 1)]));
    assert!(!watcher.check_for_changes(&[stat("c", 1), stat("a", 1)]));
}

#[test]
fn seeding_forgets_what_was_known() {
    let mut watcher = FileWatcher::new(PathRules::Unix);
    watcher.seed(&[stat("a", 1)]);
    watcher.seed(&[stat("b", 1)]);
    assert_eq!(watcher.known_files(), vec!["b"]);
}

#[test]
fn paths_with_the_same_components_are_one_file() {
    let mut watcher = FileWatcher::new(PathRules::Unix);
    watcher.seed(&[stat("/w/a", 1)]);
    assert!(!watcher.check_for_changes(&[stat("/w/./a", 1)]));
    assert!(!watcher.check_known_files(&[stat("/w//a", 1)]));
    assert!(watcher.check_known_files(&[stat("/w/a/", 2)]));
    assert!(watcher.check_for_changes(&[stat("/w/b", 2)]));
}

#[test]
fn one_file_may_be_listed_twice() {
    let twice = [stat("/w/a", 1), stat("/w/b", 2), stat("/w/./a", 1)];
    let mut watcher = FileWatcher::new(PathRules::Unix);
    watcher.seed(&twice);
    assert!(!watcher.check_known_files(&twice));
    assert!(!watcher.check_for_changes(&twice));
}
