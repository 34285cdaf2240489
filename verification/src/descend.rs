//! Whether to enter a directory, and whether to keep it.

use crate::config::Config;
use crate::entry::{Entry, EntryType, FileIdInfo};
use crate::error::{IoFault, TreeError};
use crate::path::FsPath;
use vstd::prelude::*;

verus! {

/// Maximum internal recursion depth to prevent stack overflow.
pub const MAX_INTERNAL_DEPTH: usize = 4096;

/// The absolute form of `root`: itself if it is absolute, else its canonical form, else
/// `root` below the working directory, else `root` as it is.
pub open spec fn absolute_form(
    root: FsPath,
    is_absolute: bool,
    canonical: Option<FsPath>,
    below_cwd: Option<FsPath>,
) -> FsPath {
    if is_absolute {
        root
    } else {
        match (canonical, below_cwd) {
            (Some(path), _) => path,
            (None, Some(path)) => path,
            (None, None) => root,
        }
    }
}

/// The absolute form of `root`, from what the platform says about it.
///
/// `canonical` is its canonical form, `below_cwd` is `root` below the working directory;
/// either is absent where the platform could not tell.
pub fn absolute_root(
    root: &FsPath,
    is_absolute: bool,
    canonical: Option<FsPath>,
    below_cwd: Option<FsPath>,
) -> (result: FsPath)
    ensures
        result == absolute_form(*root, is_absolute, canonical, below_cwd),
{
    if is_absolute {
        return root.clone();
    }
    match canonical {
        Some(path) => path,
        None => match below_cwd {
            Some(path) => path,
            None => root.clone(),
        },
    }
}

/// The root that is traversed: the absolute form of the one given, where long paths are asked
/// for.
pub open spec fn traversed_root(
    root: FsPath,
    long_paths: bool,
    is_absolute: bool,
    canonical: Option<FsPath>,
    below_cwd: Option<FsPath>,
) -> FsPath {
    if long_paths {
        absolute_form(root, is_absolute, canonical, below_cwd)
    } else {
        root
    }
}

/// Resolve root path with `--long-paths` support: long paths need an absolute root.
///
/// The driver then puts the result into the long path syntax of the platform.
pub fn resolve_long_root(
    root: &FsPath,
    long_paths: bool,
    is_absolute: bool,
    canonical: Option<FsPath>,
    below_cwd: Option<FsPath>,
) -> (result: FsPath)
    ensures
        long_paths ==> result == absolute_form(*root, is_absolute, canonical, below_cwd),
        !long_paths ==> result == *root,
        result == traversed_root(*root, long_paths, is_absolute, canonical, below_cwd),
{
    if long_paths {
        absolute_root(root, is_absolute, canonical, below_cwd)
    } else {
        root.clone()
    }
}

/// The volume to stay on: that of the root, if the options ask to stay there.
pub open spec fn volume_to_stay_on(config: Config, identity: Option<FileIdInfo>) -> Option<u64> {
    match identity {
        Some(info) if config.one_fs => Some(info.volume_serial),
        _ => None,
    }
}

/// Compute root device serial for `--one-fs` boundary checking.
///
/// `identity` is the identity of the root. Returns `None` if `--one-fs` is not enabled.
pub fn compute_root_device(config: &Config, identity: Option<FileIdInfo>) -> (result: Option<u64>)
    ensures
        result == (match identity {
            Some(info) if config.one_fs => Some(info.volume_serial),
            _ => None,
        }),
        result == volume_to_stay_on(*config, identity),
{
    if config.one_fs {
        match identity {
            Some(info) => Some(info.volume_serial),
            None => None,
        }
    } else {
        None
    }
}

/// The error that is reported when the file system boundary cannot be watched.
pub open spec fn boundary_error(
    config: Config,
    root: FsPath,
    root_device: Option<u64>,
) -> Option<TreeError> {
    if config.one_fs && root_device is None {
        Some(TreeError::Io(root, IoFault::UnknownRootVolume))
    } else {
        None
    }
}

/// The error to report when `--one-fs` is asked for and the volume of the root is unknown.
pub fn check_root_device(config: &Config, root: &FsPath, root_device: Option<u64>) -> (result:
    Option<TreeError>)
    ensures
        result == boundary_error(*config, *root, root_device),
{
    if config.one_fs && root_device.is_none() {
        Some(TreeError::Io(root.clone(), IoFault::UnknownRootVolume))
    } else {
        None
    }
}

/// Result of `--one-fs` boundary check.
#[derive(Clone, Copy, Debug, PartialEq, Eq)]
pub enum OnefsCheck {
    /// Same device (or `--one-fs` not enabled) — descend normally.
    Proceed,
    /// Different device — do not descend.
    DifferentDevice,
    /// Cannot determine device — caller should emit error and not descend.
    Unknown,
}

/// Where a directory lies, seen from the root.
pub open spec fn boundary_verdict(
    root_device: Option<u64>,
    identity: Option<FileIdInfo>,
) -> OnefsCheck {
    match (root_device, identity) {
        (None, _) => OnefsCheck::Proceed,
        (Some(device), Some(info)) => if info.volume_serial == device {
            OnefsCheck::Proceed
        } else {
            OnefsCheck::DifferentDevice
        },
        (Some(_), None) => OnefsCheck::Unknown,
    }
}

/// Check whether the path with the given identity resides on the same file system as the
/// root.
///
/// Returns `Proceed` when `root_device` is `None` (i.e. `--one-fs` disabled).
pub fn check_one_fs(root_device: Option<u64>, identity: Option<FileIdInfo>) -> (result: OnefsCheck)
    ensures
        result == boundary_verdict(root_device, identity),
{
    match root_device {
        None => OnefsCheck::Proceed,
        Some(device) => match identity {
            Some(info) => {
                if info.volume_serial == device {
                    OnefsCheck::Proceed
                } else {
                    OnefsCheck::DifferentDevice
                }
            },
            None => OnefsCheck::Unknown,
        },
    }
}

/// Result of checking whether to descend into a directory.
#[derive(Debug, PartialEq, Eq)]
pub enum DescendCheck {
    /// Entry should be returned as a leaf node.
    Leaf,
    /// Same as Leaf, but also carries an error for the caller to report.
    LeafWithError(TreeError),
    /// All checks passed — caller should descend.
    Proceed,
}

/// Whether an entry stays a leaf whatever volume it lies on: junctions that are not
/// followed, and entries at the depth limit.
pub open spec fn stays_leaf(entry_type: EntryType, depth: usize, config: Config) -> bool {
    ||| entry_type is Junction && !config.show_junctions
    ||| config.max_depth is Some && depth >= config.max_depth->Some_0
}

/// Whether the descent check depends on the volume of the entry.
pub open spec fn volume_matters(
    entry_type: EntryType,
    depth: usize,
    config: Config,
    root_device: Option<u64>,
) -> bool {
    !stays_leaf(entry_type, depth, config) && root_device is Some
}

/// Whether to descend.
pub open spec fn descend_verdict(
    entry_type: EntryType,
    path: FsPath,
    depth: usize,
    config: Config,
    root_device: Option<u64>,
    identity: Option<FileIdInfo>,
) -> DescendCheck {
    if stays_leaf(entry_type, depth, config) {
        DescendCheck::Leaf
    } else {
        match boundary_verdict(root_device, identity) {
            OnefsCheck::Proceed => DescendCheck::Proceed,
            OnefsCheck::DifferentDevice => DescendCheck::Leaf,
            OnefsCheck::Unknown => DescendCheck::LeafWithError(
                TreeError::Io(path, IoFault::UnknownVolume),
            ),
        }
    }
}

fn is_leaf_anyway(entry: &Entry, depth: usize, config: &Config) -> (result: bool)
    ensures
        result == stays_leaf(entry.entry_type, depth, *config),
{
    match entry.entry_type {
        EntryType::Junction { .. } => {
            if !config.show_junctions {
                return true;
            }
        },
        _ => {},
    }
    match config.max_depth {
        Some(max) => depth >= max,
        None => false,
    }
}

/// Whether `check_descend` will look at the identity of the entry.
pub fn needs_volume(
    entry: &Entry,
    depth: usize,
    config: &Config,
    root_device: Option<u64>,
) -> (result: bool)
    ensures
        result == volume_matters(entry.entry_type, depth, *config, root_device),
{
    !is_leaf_anyway(entry, depth, config) && root_device.is_some()
}

/// Check junction, max_depth, and `--one-fs` conditions.
///
/// `identity` is the identity of `path`; it is looked at only where `needs_volume` says so.
pub fn check_descend(
    entry: &Entry,
    path: &FsPath,
    depth: usize,
    config: &Config,
    root_device: Option<u64>,
    identity: Option<FileIdInfo>,
) -> (result: DescendCheck)
    ensures
        result == descend_verdict(
            entry.entry_type,
            *path,
            depth,
            *config,
            root_device,
            identity,
        ),
{
    if is_leaf_anyway(entry, depth, config) {
        return DescendCheck::Leaf;
    }
    match check_one_fs(root_device, identity) {
        OnefsCheck::DifferentDevice => DescendCheck::Leaf,
        OnefsCheck::Unknown => DescendCheck::LeafWithError(
            TreeError::Io(path.clone(), IoFault::UnknownVolume),
        ),
        OnefsCheck::Proceed => DescendCheck::Proceed,
    }
}

/// Whether a directory is dropped for being empty: never the root, never a directory that
/// matches the include pattern for directories.
pub open spec fn is_pruned(config: Config, dir_included: bool, depth: usize, empty: bool) -> bool {
    config.prune && empty && depth > 0 && !dir_included
}

/// Determine whether an empty directory should be pruned.
///
/// Returns `true` when `--prune` is active, the directory has no children, is not the root
/// (`depth > 0`), and does not match a `--matchdirs` pattern.
pub fn should_prune(config: &Config, dir_included: bool, depth: usize, children_empty: bool) -> (result:
    bool)
    ensures
        result == is_pruned(*config, dir_included, depth, children_empty),
{
    if !config.prune || !children_empty || depth == 0 {
        return false;
    }
    !dir_included
}

} // verus!
