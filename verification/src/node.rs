//! The decisions about a single node of the tree, shared by every way to traverse.

use crate::config::Config;
use crate::descend::{is_pruned, should_prune, MAX_INTERNAL_DEPTH};
use crate::entry::{forest, leaf, leaf_node, Entry, EntryView, Tree, TreeView};
use crate::error::{io_error, TreeError};
use crate::filter::{filter_entry, filter_verdict, is_symlink, FilterResult};
use crate::ignoring::{IgnoreMatcher, IgnoreView};
use crate::listing::{DirItem, ReadDirResult};
use crate::path::FsPath;
use vstd::prelude::*;

verus! {

/// The error for a directory that lies too deep to be visited.
pub open spec fn depth_error(path: FsPath, depth: usize) -> Option<TreeError> {
    if depth >= MAX_INTERNAL_DEPTH {
        Some(TreeError::MaxDepthExceeded(path))
    } else {
        None
    }
}

/// The error to report instead of visiting `path`, if it lies too deep.
pub fn check_depth(path: &FsPath, depth: usize) -> (result: Option<TreeError>)
    ensures
        result == depth_error(*path, depth),
{
    if depth >= MAX_INTERNAL_DEPTH {
        Some(TreeError::MaxDepthExceeded(path.clone()))
    } else {
        None
    }
}

/// What becomes of a directory once reading it was attempted.
#[derive(Debug)]
pub enum Expansion {
    /// It stays a leaf, with an error where reading failed.
    Leaf(Tree, Option<TreeError>),
    /// Its entries are visited next.
    Open(Entry, Vec<DirItem>),
}

/// An entry marked as having too many entries to be opened.
pub open spec fn over_limit(entry: EntryView, total: usize) -> EntryView {
    EntryView { filelimit_exceeded: Some(total), ..entry }
}

/// Decides what becomes of the directory `entry` at `path`.
pub fn expand_node(entry: Entry, path: &FsPath, listing: ReadDirResult) -> (result: Expansion)
    ensures
        match listing {
            ReadDirResult::ReadError(fault) => {
                &&& result is Leaf
                &&& result->Leaf_0@ == leaf(entry@)
                &&& result->Leaf_1 == Some(io_error(*path, fault))
            },
            ReadDirResult::FilelimitExceeded(total) => {
                &&& result is Leaf
                &&& result->Leaf_0@ == leaf(over_limit(entry@, total))
                &&& result->Leaf_1 == None::<TreeError>
            },
            ReadDirResult::Entries(items) => result == Expansion::Open(entry, items),
        },
{
    match listing {
        ReadDirResult::ReadError(fault) => {
            let error = TreeError::from_io(path.clone(), fault);
            Expansion::Leaf(leaf_node(entry), Some(error))
        },
        ReadDirResult::FilelimitExceeded(total) => {
            let mut entry = entry;
            entry.filelimit_exceeded = Some(total);
            Expansion::Leaf(leaf_node(entry), None)
        },
        ReadDirResult::Entries(items) => Expansion::Open(entry, items),
    }
}

/// What to do with an entry of a directory.
#[derive(Clone, Copy, Debug, PartialEq, Eq)]
pub enum ChildPlan {
    /// Leave it out.
    Skip,
    /// Leave it out and report its reserved name.
    Reserved,
    /// A followed link: find out whether it leads to a directory that was visited.
    CheckLink,
    /// A directory to visit.
    Descend,
    /// A file to list.
    File,
}

/// What to do with an entry of a directory.
pub open spec fn child_plan(
    config: Config,
    item: DirItem,
    parent_matched: bool,
    ignore: IgnoreView,
) -> ChildPlan {
    match filter_verdict(config, item, parent_matched, ignore) {
        FilterResult::Exclude => ChildPlan::Skip,
        FilterResult::Reserved => ChildPlan::Reserved,
        FilterResult::Include { is_dir } => if !is_dir {
            ChildPlan::File
        } else if config.follow_symlinks && item.is_link() {
            ChildPlan::CheckLink
        } else {
            ChildPlan::Descend
        },
    }
}

/// Decides what to do with an entry of a directory.
pub fn plan_child(
    config: &Config,
    item: &DirItem,
    parent_matched: bool,
    ignore: &IgnoreMatcher,
) -> (result: ChildPlan)
    ensures
        result == child_plan(*config, *item, parent_matched, ignore@),
{
    match filter_entry(config, item, parent_matched, ignore) {
        FilterResult::Exclude => ChildPlan::Skip,
        FilterResult::Reserved => ChildPlan::Reserved,
        FilterResult::Include { is_dir } => {
            if !is_dir {
                ChildPlan::File
            } else if config.follow_symlinks && is_symlink(item) {
                ChildPlan::CheckLink
            } else {
                ChildPlan::Descend
            }
        },
    }
}

/// A directory whose entries were all visited, unless it is pruned.
pub open spec fn finished(
    config: Config,
    dir_included: bool,
    depth: usize,
    entry: EntryView,
    children: Seq<TreeView>,
) -> Option<TreeView> {
    if is_pruned(config, dir_included, depth, children.len() == 0) {
        None
    } else {
        Some(TreeView { entry, children })
    }
}

/// A tree that may be missing, as a view.
pub open spec fn tree_view(tree: Option<Tree>) -> Option<TreeView> {
    match tree {
        Some(tree) => Some(tree@),
        None => None,
    }
}

/// The node of a directory whose entries were all visited; nothing if it is pruned.
pub fn finish_node(
    config: &Config,
    dir_included: bool,
    depth: usize,
    entry: Entry,
    children: Vec<Tree>,
) -> (result: Option<Tree>)
    ensures
        tree_view(result) == finished(*config, dir_included, depth, entry@, forest(children@)),
{
    if should_prune(config, dir_included, depth, children.is_empty()) {
        return None;
    }
    Some(Tree { entry, children })
}

} // verus!
