//! Which directories are entered, and which are kept.

use crate::config::{wants_file_id, Config};
use crate::descend::{
    absolute_form, boundary_error, boundary_verdict, descend_verdict, is_pruned, traversed_root,
    volume_matters, volume_to_stay_on, DescendCheck,
};
use crate::entry::{EntryType, EntryView, FileIdInfo, TreeView};
use crate::error::{io_error, IoFault, TreeError};
use crate::node::{depth_error, finished};
use crate::path::FsPath;
use crate::visited::{visited_key, Key};
use vstd::prelude::*;

verus! {

/// A junction is not entered unless junctions are asked for, on whatever volume it lies.
pub proof fn junctions_stay_closed(
    target: FsPath,
    path: FsPath,
    depth: usize,
    config: Config,
    root_device: Option<u64>,
    identity: Option<FileIdInfo>,
)
    requires
        !config.show_junctions,
    ensures
        descend_verdict(
            EntryType::Junction { target },
            path,
            depth,
            config,
            root_device,
            identity,
        ) is Leaf,
{
}

/// Nothing is entered at the depth limit or below it.
pub proof fn the_depth_limit_is_not_passed(
    entry_type: EntryType,
    path: FsPath,
    depth: usize,
    config: Config,
    root_device: Option<u64>,
    identity: Option<FileIdInfo>,
)
    requires
        config.max_depth is Some,
        depth >= config.max_depth->Some_0,
    ensures
        descend_verdict(entry_type, path, depth, config, root_device, identity) is Leaf,
{
}

/// A directory above the depth limit, and a junction that is asked for, is entered exactly if
/// it lies on the volume of the root, or the boundary is not watched. One on another volume
/// is listed alone; one whose volume is unknown is listed with an error.
pub proof fn the_volume_decides(
    entry_type: EntryType,
    path: FsPath,
    depth: usize,
    config: Config,
    root_device: Option<u64>,
    identity: Option<FileIdInfo>,
)
    requires
        entry_type is Junction ==> config.show_junctions,
        config.max_depth is Some ==> depth < config.max_depth->Some_0,
    ensures
        ({
            let verdict = descend_verdict(entry_type, path, depth, config, root_device, identity);
            let watched = root_device is Some;
            let device = root_device->Some_0;
            &&& !watched ==> verdict is Proceed
            &&& watched && identity is None ==> verdict == DescendCheck::LeafWithError(
                TreeError::Io(path, IoFault::UnknownVolume),
            )
            &&& watched && identity is Some && identity->Some_0.volume_serial == device
                ==> verdict is Proceed
            &&& watched && identity is Some && identity->Some_0.volume_serial != device
                ==> verdict is Leaf
        }),
{
}

/// The boundary of the file system, by itself.
pub proof fn the_boundary_is_the_volume_of_the_root(device: u64, info: FileIdInfo)
    ensures
        boundary_verdict(None, None) is Proceed,
        boundary_verdict(None, Some(info)) is Proceed,
        boundary_verdict(Some(device), None) is Unknown,
        boundary_verdict(Some(device), Some(info)) is Proceed <==> info.volume_serial == device,
        boundary_verdict(Some(device), Some(info)) is DifferentDevice <==> info.volume_serial
            != device,
{
}

/// The volume of an entry is found out exactly if it makes a difference.
pub proof fn the_volume_is_read_where_it_matters(
    entry_type: EntryType,
    path: FsPath,
    depth: usize,
    config: Config,
    root_device: Option<u64>,
    one: Option<FileIdInfo>,
    other: Option<FileIdInfo>,
)
    ensures
        !volume_matters(entry_type, depth, config, root_device) ==> descend_verdict(
            entry_type,
            path,
            depth,
            config,
            root_device,
            one,
        ) == descend_verdict(entry_type, path, depth, config, root_device, other),
        volume_matters(entry_type, depth, config, root_device) ==> root_device is Some
            && descend_verdict(entry_type, path, depth, config, root_device, None)
            is LeafWithError,
{
}

/// The boundary cannot be watched where the volume of the root is unknown; that is reported
/// exactly if the options ask for it.
pub proof fn an_unknown_root_volume_is_reported(config: Config, root: FsPath, device: u64)
    ensures
        config.one_fs ==> boundary_error(config, root, None) == Some(
            TreeError::Io(root, IoFault::UnknownRootVolume),
        ),
        !config.one_fs ==> boundary_error(config, root, None) is None,
        boundary_error(config, root, Some(device)) is None,
{
}

/// A directory is too deep to be visited exactly if it lies 4096 levels or more below the
/// root.
pub proof fn depth_has_an_end(path: FsPath, depth: usize)
    ensures
        depth < 4096 ==> depth_error(path, depth) is None,
        depth >= 4096 ==> depth_error(path, depth) == Some(TreeError::MaxDepthExceeded(path)),
{
}

/// Only an empty directory is ever dropped, and only where pruning is asked for: never the
/// root, and none that matches the include pattern for directories. Every other empty
/// directory is dropped then.
pub proof fn only_empty_directories_are_dropped(config: Config, included: bool, depth: usize)
    ensures
        !is_pruned(config, included, depth, false),
        !config.prune ==> !is_pruned(config, included, depth, true),
        !is_pruned(config, included, 0, true),
        !is_pruned(config, true, depth, true),
        config.prune && depth > 0 ==> is_pruned(config, false, depth, true),
{
}

/// A directory in which something was found is kept with exactly what was found, at any depth,
/// whether or not empty directories are pruned.
pub proof fn what_was_found_is_kept(
    config: Config,
    included: bool,
    depth: usize,
    entry: EntryView,
    children: Seq<TreeView>,
)
    ensures
        children.len() > 0 ==> finished(config, included, depth, entry, children) == Some(
            TreeView { entry, children },
        ),
        !config.prune || depth == 0 || included ==> finished(
            config,
            included,
            depth,
            entry,
            children,
        ) == Some(TreeView { entry, children }),
        children.len() == 0 && config.prune && depth > 0 && !included ==> finished(
            config,
            included,
            depth,
            entry,
            children,
        ) is None,
{
}

/// The absolute form of a root is the root itself if it is absolute. Otherwise it is the first
/// that the platform can tell of its canonical form and its place below the working directory,
/// and the root as given if it can tell neither.
pub proof fn absolute_forms_have_an_order(root: FsPath, canonical: FsPath, below_cwd: FsPath)
    ensures
        absolute_form(root, true, Some(canonical), Some(below_cwd)) == root,
        absolute_form(root, true, None, Some(below_cwd)) == root,
        absolute_form(root, true, Some(canonical), None) == root,
        absolute_form(root, true, None, None) == root,
        absolute_form(root, false, Some(canonical), Some(below_cwd)) == canonical,
        absolute_form(root, false, Some(canonical), None) == canonical,
        absolute_form(root, false, None, Some(below_cwd)) == below_cwd,
        absolute_form(root, false, None, None) == root,
{
}

/// File identities are asked for exactly if something needs them.
pub proof fn identities_are_read_on_request(config: Config)
    ensures
        config.one_fs ==> wants_file_id(config),
        config.show_inodes ==> wants_file_id(config),
        config.show_device ==> wants_file_id(config),
        !config.one_fs && !config.show_inodes && !config.show_device ==> !wants_file_id(config),
{
}

/// Denied access and overlong paths are reported as such; any other failure keeps its cause.
pub proof fn failures_are_told_apart(path: FsPath, message: String)
    ensures
        io_error(path, IoFault::AccessDenied) == TreeError::AccessDenied(path),
        io_error(path, IoFault::PathTooLong) == TreeError::PathTooLong(path),
        io_error(path, IoFault::Other(message)) == TreeError::Io(path, IoFault::Other(message)),
        io_error(path, IoFault::UnknownVolume) == TreeError::Io(path, IoFault::UnknownVolume),
        io_error(path, IoFault::UnknownRootVolume) == TreeError::Io(
            path,
            IoFault::UnknownRootVolume,
        ),
{
}

/// The volume of the root is stayed on exactly if the options ask for it and it is known.
pub proof fn the_root_volume_is_stayed_on(config: Config, info: FileIdInfo)
    ensures
        config.one_fs ==> volume_to_stay_on(config, Some(info)) == Some(info.volume_serial),
        !config.one_fs ==> volume_to_stay_on(config, Some(info)) is None,
        volume_to_stay_on(config, None) is None,
{
}

/// The root is traversed as it was given, unless long paths are asked for: then in its
/// absolute form.
pub proof fn long_paths_need_an_absolute_root(
    root: FsPath,
    is_absolute: bool,
    canonical: Option<FsPath>,
    below_cwd: Option<FsPath>,
)
    ensures
        traversed_root(root, false, is_absolute, canonical, below_cwd) == root,
        traversed_root(root, true, true, canonical, below_cwd) == root,
        canonical is Some ==> traversed_root(root, true, false, canonical, below_cwd)
            == canonical->Some_0,
        canonical is None && below_cwd is Some ==> traversed_root(
            root,
            true,
            false,
            canonical,
            below_cwd,
        ) == below_cwd->Some_0,
        canonical is None && below_cwd is None ==> traversed_root(
            root,
            true,
            false,
            canonical,
            below_cwd,
        ) == root,
{
}

/// What has an identity is known by it, under whatever path it is reached: the same identity
/// is the same directory, another one is another directory. What has none is known by its
/// canonical path, and what has neither by the path itself. A path is never taken for an
/// identity.
pub proof fn identities_see_through_aliases(
    one: FsPath,
    other: FsPath,
    info: FileIdInfo,
    another: FileIdInfo,
    somewhere: Option<FsPath>,
    elsewhere: Option<FsPath>,
    canonical: FsPath,
)
    ensures
        visited_key(one, Some(info), somewhere) == visited_key(other, Some(info), elsewhere),
        visited_key(one, Some(info), somewhere) == visited_key(other, Some(another), elsewhere) <==> (
        info.volume_serial == another.volume_serial && info.file_id == another.file_id),
        visited_key(one, Some(info), somewhere) != visited_key(other, None, elsewhere),
        visited_key(one, None, Some(canonical)) == visited_key(other, None, Some(canonical)),
        visited_key(one, None, Some(canonical)) == Key::Path(canonical@),
        visited_key(one, None, None) == Key::Path(one@),
{
}

} // verus!
