use treecat::filter::PatternSet;
use treecat::walk::{walk_decision, EntryKind, WalkConfig, WalkDecision};

#[test]
fn symlink_is_skipped_under_no_follow() {
    let config = WalkConfig { recursive: true, no_follow: true };
    let d = walk_decision(&config, true, EntryKind::Symlink);
    assert!(matches!(d, WalkDecision::Skip));
}

#[test]
fn symlink_target_is_processed_when_following() {
    // Without no_follow the metadata read follows the link, so the entry
    // reports the target's kind and is handled as that kind.
    let config = WalkConfig { recursive: false, no_follow: false };
    let d = walk_decision(&config, true, EntryKind::Other);
    assert!(matches!(d, WalkDecision::Emit));
}

#[test]
fn directory_is_skipped_without_recursive() {
    let config = WalkConfig { recursive: false, no_follow: false };
    let d = walk_decision(&config, true, EntryKind::Directory);
    assert!(matches!(d, WalkDecision::Skip));
}

#[test]
fn directory_is_descended_with_recursive() {
    let config = WalkConfig { recursive: true, no_follow: false };
    let d = walk_decision(&config, true, EntryKind::Directory);
    assert!(matches!(d, WalkDecision::Descend));
}

#[test]
fn filtered_out_path_is_skipped_before_its_kind_matters() {
    let config = WalkConfig { recursive: true, no_follow: false };
    for kind in [EntryKind::Symlink, EntryKind::Directory, EntryKind::Other] {
        let d = walk_decision(&config, false, kind);
        assert!(matches!(d, WalkDecision::Skip));
    }
}

#[test]
fn scenario_tmp_files_are_filtered_out_of_a_recursive_scan() {
    // A directory holding keep.txt and skip.tmp, scanned with an exclusion
    // for temporary files. Without recursive mode the directory itself is
    // skipped and nothing is emitted; with it, only keep.txt is emitted.
    let patterns = set_with_exclude("**/*.tmp");

    let shallow = WalkConfig { recursive: false, no_follow: false };
    assert!(matches!(
        walk_decision(&shallow, patterns.accepts("a"), EntryKind::Directory),
        WalkDecision::Skip
    ));

    let recursive = WalkConfig { recursive: true, no_follow: false };
    assert!(matches!(
        walk_decision(&recursive, patterns.accepts("a"), EntryKind::Directory),
        WalkDecision::Descend
    ));
    assert!(matches!(
        walk_decision(&recursive, patterns.accepts("a/keep.txt"), EntryKind::Other),
        WalkDecision::Emit
    ));
    assert!(matches!(
        walk_decision(&recursive, patterns.accepts("a/skip.tmp"), EntryKind::Other),
        WalkDecision::Skip
    ));
}

fn set_with_exclude(pattern: &str) -> PatternSet {
    let includes: Vec<String> = Vec::new();
    let excludes = vec![pattern.to_string()];
    PatternSet::new(&includes, &excludes).expect("pattern must compile")
}
