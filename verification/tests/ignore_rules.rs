use apc::pattern::{parse_rule_file, RuleError};
use apc::store::{should_ignore_path, IgnoreStore};

#[test]
fn no_rules_nothing_excluded() {
    let store = IgnoreStore::new();
    assert!(!store.is_excluded("src/lib.rs", false));
    assert!(!store.is_excluded("a.txt", false));
    assert!(!store.is_excluded("deep/nested/dir", true));
}

#[test]
fn metadata_components_always_excluded() {
    let store = IgnoreStore::new();
    assert!(store.is_excluded(".git", true));
    assert!(store.is_excluded(".git/config", false));
    assert!(store.is_excluded("sub/.idea/workspace.xml", false));
    assert!(store.is_excluded(".vscode", true));
    assert!(should_ignore_path(".git/config"));
    assert!(should_ignore_path("x/.idea"));
    assert!(should_ignore_path(".vscode/settings.json"));
}

#[test]
fn metadata_names_match_whole_components_only() {
    let store = IgnoreStore::new();
    assert!(!store.is_excluded("mygit/file", false));
    assert!(!should_ignore_path("not.git.dir/file"));
    assert!(!should_ignore_path("gitty"));
}

#[test]
fn rule_files_themselves_excluded() {
    let store = IgnoreStore::new();
    assert!(store.is_excluded(".gitignore", false));
    assert!(store.is_excluded("sub/.apcignore", false));
    assert!(should_ignore_path(".gitignore"));
    assert!(should_ignore_path("a/b/.apcignore"));
    assert!(!should_ignore_path("apcignore"));
}

#[test]
fn simple_glob_excludes_at_any_depth() {
    let mut store = IgnoreStore::new();
    store.record_dir("", Some("*.log")).unwrap();
    assert!(store.is_excluded("x.log", false));
    assert!(store.is_excluded("deep/nested/y.log", false));
    assert!(!store.is_excluded("x.txt", false));
    assert!(!store.is_excluded("logfile", false));
}

#[test]
fn question_mark_matches_single_character() {
    let mut store = IgnoreStore::new();
    store.record_dir("", Some("a?c")).unwrap();
    assert!(store.is_excluded("abc", false));
    assert!(store.is_excluded("sub/axc", false));
    assert!(!store.is_excluded("ac", false));
    assert!(!store.is_excluded("abbc", false));
}

#[test]
fn leading_slash_anchors_to_rule_directory() {
    let mut store = IgnoreStore::new();
    store.record_dir("", Some("/top")).unwrap();
    assert!(store.is_excluded("top", false));
    assert!(!store.is_excluded("sub/top", false));
}

#[test]
fn interior_slash_anchors_pattern() {
    let mut store = IgnoreStore::new();
    store.record_dir("", Some("a/b.txt")).unwrap();
    assert!(store.is_excluded("a/b.txt", false));
    assert!(!store.is_excluded("c/a/b.txt", false));
    assert!(!store.is_excluded("b.txt", false));
}

#[test]
fn doublestar_matches_any_run_of_components() {
    let mut store = IgnoreStore::new();
    store.record_dir("", Some("a/**/b.txt")).unwrap();
    assert!(store.is_excluded("a/b.txt", false));
    assert!(store.is_excluded("a/x/b.txt", false));
    assert!(store.is_excluded("a/x/y/z/b.txt", false));
    assert!(!store.is_excluded("c/b.txt", false));
    assert!(!store.is_excluded("a/b.txt.bak", false));
}

#[test]
fn directory_only_pattern_never_matches_file() {
    let mut store = IgnoreStore::new();
    store.record_dir("", Some("build/")).unwrap();
    assert!(store.is_excluded("build", true));
    assert!(!store.is_excluded("build", false));
    assert!(store.is_excluded("sub/build", true));
}

#[test]
fn later_negation_reincludes_in_same_file() {
    let mut store = IgnoreStore::new();
    store.record_dir("", Some("*.log\n!keep.log\n")).unwrap();
    assert!(store.is_excluded("other.log", false));
    assert!(!store.is_excluded("keep.log", false));
    assert!(store.is_excluded("sub/other.log", false));
    assert!(!store.is_excluded("sub/keep.log", false));
}

#[test]
fn negation_before_exclusion_does_not_reinclude() {
    let mut store = IgnoreStore::new();
    store.record_dir("", Some("!keep.log\n*.log\n")).unwrap();
    assert!(store.is_excluded("keep.log", false));
}

#[test]
fn subdirectory_rules_scoped_to_subtree() {
    let mut store = IgnoreStore::new();
    store.record_dir("sub", Some("secret")).unwrap();
    assert!(store.is_excluded("sub/secret", false));
    assert!(store.is_excluded("sub/deeper/secret", false));
    assert!(!store.is_excluded("other/secret", false));
    assert!(!store.is_excluded("secret", false));
}

#[test]
fn local_negation_overrides_ancestor_exclusion() {
    let mut store = IgnoreStore::new();
    store.record_dir("", Some("*.log")).unwrap();
    store.record_dir("logs", Some("!x.log")).unwrap();
    assert!(!store.is_excluded("logs/x.log", false));
    assert!(store.is_excluded("logs/y.log", false));
    assert!(store.is_excluded("x.log", false));
}

#[test]
fn first_recording_of_directory_wins() {
    let mut store = IgnoreStore::new();
    store.record_dir("", Some("*.log")).unwrap();
    store.record_dir("", Some("!x.log")).unwrap();
    assert!(store.is_excluded("x.log", false));
}

#[test]
fn comments_and_blank_lines_skipped() {
    let rs = parse_rule_file("# comment\n\n*.log\n").unwrap();
    assert_eq!(rs.rules.len(), 1);
    let rs2 = parse_rule_file("").unwrap();
    assert_eq!(rs2.rules.len(), 0);
}

#[test]
fn empty_patterns_are_hard_errors() {
    assert_eq!(parse_rule_file("!").err(), Some(RuleError::EmptyPattern));
    assert_eq!(parse_rule_file("/").err(), Some(RuleError::EmptyPattern));
    assert_eq!(parse_rule_file("!/").err(), Some(RuleError::EmptyPattern));
    assert_eq!(parse_rule_file("a//b").err(), Some(RuleError::EmptyPattern));
    assert_eq!(parse_rule_file("ok\n!\n").err(), Some(RuleError::EmptyPattern));
}

#[test]
fn malformed_rule_file_leaves_store_unchanged() {
    let mut store = IgnoreStore::new();
    assert_eq!(store.record_dir("", Some("!")), Err(RuleError::EmptyPattern));
    assert!(!store.is_excluded("anything", false));
    store.record_dir("", Some("*.log")).unwrap();
    assert!(store.is_excluded("a.log", false));
}

#[test]
fn directory_without_rule_file_is_recorded_absent() {
    let mut store = IgnoreStore::new();
    store.record_dir("", None).unwrap();
    store.record_dir("sub", None).unwrap();
    assert!(!store.is_excluded("sub/file.txt", false));
}
