//! Which entries of a directory are listed.

use crate::config::Config;
use crate::ignoring::{IgnoreMatcher, IgnoreView};
use crate::listing::{DirItem, FileKind};
use vstd::prelude::*;

verus! {

/// Result of filtering a directory entry.
#[derive(Clone, Copy, Debug, PartialEq, Eq)]
pub enum FilterResult {
    /// Entry passes all filters; `is_dir` indicates directory status.
    Include { is_dir: bool },
    /// Entry excluded by filter rules (`-a`, `-d`, `-I`, `-P`, `--prune`).
    Exclude,
    /// Entry is a Windows reserved device name — caller may report a warning.
    Reserved,
}

impl DirItem {
    /// Whether the name starts with a dot.
    pub open spec fn is_hidden(self) -> bool {
        self.name@.len() > 0 && self.name@[0] == 46
    }

    /// Whether the entry is a symbolic link.
    pub open spec fn is_link(self) -> bool {
        self.kind == Some(FileKind::Symlink)
    }

    /// Whether the entry is listed as a directory: it is one, or a followed link to one.
    pub open spec fn is_listed_dir(self, config: Config) -> bool {
        self.kind == Some(FileKind::Dir) || (config.follow_symlinks && self.is_link()
            && self.link_to_dir)
    }
}

/// Whether an entry is left out without a word.
pub open spec fn is_excluded(
    config: Config,
    item: DirItem,
    parent_matched: bool,
    ignore: IgnoreView,
) -> bool {
    let is_dir = item.is_listed_dir(config);
    let link_to_dir = item.is_link() && item.link_to_dir;
    ||| !config.show_all && item.is_hidden()
    ||| item.kind is None
    ||| config.dirs_only && !is_dir && !link_to_dir
    ||| ignore.ignores(item.path@, is_dir)
    ||| config.prune && !config.follow_symlinks && link_to_dir
    ||| !item.reserved && item.excluded
    ||| !item.reserved && !is_dir && !parent_matched && !item.included
}

/// What becomes of an entry.
pub open spec fn filter_verdict(
    config: Config,
    item: DirItem,
    parent_matched: bool,
    ignore: IgnoreView,
) -> FilterResult {
    if is_excluded(config, item, parent_matched, ignore) {
        FilterResult::Exclude
    } else if item.reserved {
        FilterResult::Reserved
    } else {
        FilterResult::Include { is_dir: item.is_listed_dir(config) }
    }
}

/// Whether filtering reads where links lead.
pub open spec fn wants_link_targets(config: Config) -> bool {
    config.follow_symlinks || config.dirs_only || config.prune
}

/// Whether the driver has to find out where links lead.
pub fn needs_link_targets(config: &Config) -> (result: bool)
    ensures
        result == wants_link_targets(*config),
{
    config.follow_symlinks || config.dirs_only || config.prune
}

/// Whether the item is a symbolic link.
pub(crate) fn is_symlink(item: &DirItem) -> (result: bool)
    ensures
        result == item.is_link(),
{
    match item.kind {
        Some(FileKind::Symlink) => true,
        _ => false,
    }
}

/// Unified entry filter: hidden, dirs_only, ignore rules, prune-symlinks, reserved, -I, -P.
///
/// Returns `FilterResult` so the caller can decide how to handle reserved names.
pub fn filter_entry(
    config: &Config,
    item: &DirItem,
    parent_matched: bool,
    ignore: &IgnoreMatcher,
) -> (result: FilterResult)
    ensures
        result == filter_verdict(*config, *item, parent_matched, ignore@),
{
    // Hidden files
    if !config.show_all && item.name.len() > 0 && item.name[0] == 46 {
        return FilterResult::Exclude;
    }
    let kind = match item.kind {
        Some(kind) => kind,
        None => {
            return FilterResult::Exclude;
        },
    };
    let link_to_dir = is_symlink(item) && item.link_to_dir;
    let is_dir = match kind {
        FileKind::Dir => true,
        _ => config.follow_symlinks && link_to_dir,
    };
    // Directories and links to directories
    if config.dirs_only && !is_dir && !link_to_dir {
        return FilterResult::Exclude;
    }
    if ignore.is_ignored(&item.path, is_dir) {
        return FilterResult::Exclude;
    }
    // Links to directories are empty when not followed
    if config.prune && !config.follow_symlinks && link_to_dir {
        return FilterResult::Exclude;
    }
    if item.reserved {
        return FilterResult::Reserved;
    }
    if item.excluded {
        return FilterResult::Exclude;
    }
    // The include pattern is for files, unless the parent directory matched it
    if !is_dir && !parent_matched && !item.included {
        return FilterResult::Exclude;
    }
    FilterResult::Include { is_dir }
}

} // verus!
