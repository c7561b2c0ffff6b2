use treecat::filter::PatternSet;

fn set(includes: &[&str], excludes: &[&str]) -> PatternSet {
    let includes: Vec<String> = includes.iter().map(|s| s.to_string()).collect();
    let excludes: Vec<String> = excludes.iter().map(|s| s.to_string()).collect();
    PatternSet::new(&includes, &excludes).expect("patterns must compile")
}

#[test]
fn include_overrides_exclude() {
    let patterns = set(&["important.log"], &["*.log"]);
    assert!(patterns.accepts("important.log"));
}

#[test]
fn excluded_path_is_rejected() {
    let patterns = set(&["important.log"], &["*.log"]);
    assert!(!patterns.accepts("other.log"));
}

#[test]
fn unexcluded_path_is_accepted_without_includes() {
    let patterns = set(&[], &["*.log"]);
    assert!(patterns.accepts("notes.txt"));
}

#[test]
fn includes_are_not_an_allow_list() {
    // A path matching no pattern at all is still accepted.
    let patterns = set(&["important.log"], &["*.log"]);
    assert!(patterns.accepts("unrelated.rs"));
}

#[test]
fn empty_pattern_set_accepts_everything() {
    let patterns = set(&[], &[]);
    assert!(patterns.accepts("anything/at/all"));
}

#[test]
fn exclusion_applies_under_directories_with_tree_glob() {
    let patterns = set(&[], &["**/*.tmp"]);
    assert!(!patterns.accepts("a/skip.tmp"));
    assert!(patterns.accepts("a/keep.txt"));
}

#[test]
fn single_component_wildcard_does_not_cross_separators() {
    // wax's `*` stays within one path component.
    let patterns = set(&[], &["*.tmp"]);
    assert!(!patterns.accepts("skip.tmp"));
    assert!(patterns.accepts("a/skip.tmp"));
}

#[test]
fn malformed_exclude_pattern_is_a_startup_error() {
    let includes: Vec<String> = Vec::new();
    let excludes = vec!["ok.txt".to_string(), "<".to_string()];
    let err = match PatternSet::new(&includes, &excludes) {
        Ok(_) => panic!("pattern must be refused"),
        Err(e) => e,
    };
    assert!(err.exclude);
    assert_eq!(err.index, 1);
    assert!(!err.message.is_empty());
}

#[test]
fn malformed_include_pattern_is_a_startup_error() {
    let includes = vec!["{broken".to_string()];
    let excludes: Vec<String> = Vec::new();
    let err = match PatternSet::new(&includes, &excludes) {
        Ok(_) => panic!("pattern must be refused"),
        Err(e) => e,
    };
    assert!(!err.exclude);
    assert_eq!(err.index, 0);
}
