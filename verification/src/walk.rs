use vstd::prelude::*;

verus! {

/// How one scan was configured: whether directories are descended into, and
/// whether symbolic links are ignored rather than followed.
pub struct WalkConfig {
    pub recursive: bool,
    pub no_follow: bool,
}

/// What a path's metadata says it is. Under `no_follow` the metadata is read
/// without following links, so a link reports `Symlink`; otherwise the
/// target's kind is reported.
pub enum EntryKind {
    Symlink,
    Directory,
    Other,
}

/// What the scanner does with one path.
pub enum WalkDecision {
    Skip,
    Descend,
    Emit,
}

/// The scanner's rule for one path: a filtered-out path is skipped before
/// any other work; a symbolic link under `no_follow` is silently skipped; a
/// directory is descended into only in recursive mode and silently skipped
/// otherwise; everything else is emitted for hashing.
pub open spec fn spec_walk_decision(
    config: WalkConfig,
    accepted: bool,
    kind: EntryKind,
) -> WalkDecision {
    if !accepted {
        WalkDecision::Skip
    } else if config.no_follow && kind is Symlink {
        WalkDecision::Skip
    } else if kind is Directory {
        if config.recursive {
            WalkDecision::Descend
        } else {
            WalkDecision::Skip
        }
    } else {
        WalkDecision::Emit
    }
}

/// Decide what to do with one path. `accepted` is the path filter's verdict;
/// since a rejected path is skipped whatever its kind, the caller may skip
/// the metadata read entirely for such a path.
pub fn walk_decision(config: &WalkConfig, accepted: bool, kind: EntryKind) -> (r: WalkDecision)
    ensures
        r == spec_walk_decision(*config, accepted, kind),
{
    if !accepted {
        WalkDecision::Skip
    } else if config.no_follow && matches!(kind, EntryKind::Symlink) {
        WalkDecision::Skip
    } else if matches!(kind, EntryKind::Directory) {
        if config.recursive {
            WalkDecision::Descend
        } else {
            WalkDecision::Skip
        }
    } else {
        WalkDecision::Emit
    }
}

/// Law: under `no_follow` a symbolic link is skipped, never followed or
/// emitted, whatever else the scan was asked to do.
pub proof fn lemma_no_follow_skips_symlink(config: WalkConfig, accepted: bool)
    requires
        config.no_follow,
    ensures
        spec_walk_decision(config, accepted, EntryKind::Symlink) is Skip,
{
}

/// Law: without recursive mode a directory is skipped silently, so a scan of
/// a directory root emits nothing for it; with recursive mode it is
/// descended into.
pub proof fn lemma_directory_needs_recursion(config: WalkConfig)
    ensures
        !config.recursive ==> spec_walk_decision(config, true, EntryKind::Directory) is Skip,
        config.recursive ==> spec_walk_decision(config, true, EntryKind::Directory) is Descend,
{
}

} // verus!
