//! Which entries are listed: one law for each rule, and that there are no others.

use crate::config::Config;
use crate::filter::{filter_verdict, wants_link_targets, FilterResult};
use crate::ignoring::IgnoreView;
use crate::listing::{DirItem, FileKind};
use crate::node::child_plan;
use vstd::prelude::*;

verus! {

/// An entry whose name starts with a dot is left out, whatever else holds of it, unless all
/// entries are asked for.
pub proof fn hidden_entries_are_left_out(
    config: Config,
    item: DirItem,
    parent_matched: bool,
    ignore: IgnoreView,
)
    requires
        !config.show_all,
        item.name@.len() > 0,
        item.name@[0] == 46,
    ensures
        filter_verdict(config, item, parent_matched, ignore) is Exclude,
{
}

/// An entry of which the platform cannot tell what it is is left out.
pub proof fn unknown_entries_are_left_out(
    config: Config,
    item: DirItem,
    parent_matched: bool,
    ignore: IgnoreView,
)
    requires
        item.kind is None,
    ensures
        filter_verdict(config, item, parent_matched, ignore) is Exclude,
{
}

/// Where only directories are asked for, whatever is neither a directory nor a link that
/// leads to one is left out.
pub proof fn only_directories_are_listed(
    config: Config,
    item: DirItem,
    parent_matched: bool,
    ignore: IgnoreView,
)
    requires
        config.dirs_only,
        item.kind == Some(FileKind::File) || (item.kind == Some(FileKind::Symlink)
            && !item.link_to_dir),
    ensures
        filter_verdict(config, item, parent_matched, ignore) is Exclude,
{
}

/// An entry that an ignore rule ignores is left out. A rule for directories holds of an entry
/// that is a directory, and of a link that leads to one if links are followed.
pub proof fn ignored_entries_are_left_out(
    config: Config,
    item: DirItem,
    parent_matched: bool,
    ignore: IgnoreView,
)
    ensures
        item.kind == Some(FileKind::Dir) && ignore.ignores(item.path@, true) ==> filter_verdict(
            config,
            item,
            parent_matched,
            ignore,
        ) is Exclude,
        item.kind == Some(FileKind::File) && ignore.ignores(item.path@, false) ==> filter_verdict(
            config,
            item,
            parent_matched,
            ignore,
        ) is Exclude,
        item.kind == Some(FileKind::Symlink) && ignore.ignores(
            item.path@,
            config.follow_symlinks && item.link_to_dir,
        ) ==> filter_verdict(config, item, parent_matched, ignore) is Exclude,
{
}

/// Where empty directories are pruned and links not followed, a link that leads to a
/// directory is left out: nothing is listed below it.
pub proof fn pruning_leaves_out_links_to_directories(
    config: Config,
    item: DirItem,
    parent_matched: bool,
    ignore: IgnoreView,
)
    requires
        config.prune,
        !config.follow_symlinks,
        item.kind == Some(FileKind::Symlink),
        item.link_to_dir,
    ensures
        filter_verdict(config, item, parent_matched, ignore) is Exclude,
{
}

/// An entry whose name matches an exclude pattern is left out, whatever its kind, whatever
/// the options, and also where a directory above it matches the include pattern. A reserved
/// name is not even matched.
pub proof fn excluded_names_are_left_out(
    config: Config,
    item: DirItem,
    parent_matched: bool,
    ignore: IgnoreView,
)
    requires
        item.excluded,
        !item.reserved,
    ensures
        filter_verdict(config, item, parent_matched, ignore) is Exclude,
        child_plan(config, item, parent_matched, ignore) is Skip,
{
}

/// A file whose name does not match the include pattern is left out, unless a directory above
/// it matches the pattern for directories. So is a link, unless it is followed to a directory.
pub proof fn files_have_to_match(config: Config, item: DirItem, ignore: IgnoreView)
    requires
        !item.included,
        !item.reserved,
        item.kind == Some(FileKind::File) || (item.kind == Some(FileKind::Symlink) && !(
        config.follow_symlinks && item.link_to_dir)),
    ensures
        filter_verdict(config, item, false, ignore) is Exclude,
{
}

/// The include pattern for files says nothing about directories, nor about anything below a
/// directory that matches the pattern for directories.
pub proof fn the_include_pattern_is_for_files(
    config: Config,
    item: DirItem,
    parent_matched: bool,
    ignore: IgnoreView,
    included: bool,
)
    requires
        parent_matched || item.kind == Some(FileKind::Dir) || (config.follow_symlinks && item.kind
            == Some(FileKind::Symlink) && item.link_to_dir),
    ensures
        filter_verdict(config, item, parent_matched, ignore) == filter_verdict(
            config,
            DirItem { included, ..item },
            parent_matched,
            ignore,
        ),
{
}

/// Below a directory that matches the include pattern for directories, an entry is treated as
/// one that matches the pattern for files.
pub proof fn matched_directories_admit_their_files(
    config: Config,
    item: DirItem,
    parent_matched: bool,
    ignore: IgnoreView,
)
    ensures
        filter_verdict(config, item, true, ignore) == filter_verdict(
            config,
            DirItem { included: true, ..item },
            parent_matched,
            ignore,
        ),
{
}

/// An entry is listed, or reported for its reserved name, exactly if none of the rules leaves
/// it out. A listed entry counts as a directory if it is one, or a link that is followed to
/// one.
pub proof fn whatever_no_rule_leaves_out_is_listed(
    config: Config,
    item: DirItem,
    parent_matched: bool,
    ignore: IgnoreView,
)
    ensures
        ({
            let link = item.kind == Some(FileKind::Symlink);
            let directory = item.kind == Some(FileKind::Dir) || (link && item.link_to_dir
                && config.follow_symlinks);
            let hidden = item.name@.len() > 0 && item.name@[0] == 46 && !config.show_all;
            let kept_from_a_listing_of_directories = config.dirs_only && !directory && !(link
                && item.link_to_dir);
            let empty_link = link && item.link_to_dir && config.prune && !config.follow_symlinks;
            let passes = item.kind is Some && !hidden && !kept_from_a_listing_of_directories
                && !empty_link && !ignore.ignores(item.path@, directory);
            let named = !item.excluded && (directory || parent_matched || item.included);
            &&& filter_verdict(config, item, parent_matched, ignore) == (FilterResult::Include {
                is_dir: directory,
            }) <==> passes && !item.reserved && named
            &&& filter_verdict(config, item, parent_matched, ignore) is Include <==> passes
                && !item.reserved && named
            &&& filter_verdict(config, item, parent_matched, ignore) is Reserved <==> passes
                && item.reserved
        }),
{
}

/// What is done with an entry follows from whether it is listed: one that is not is skipped,
/// a reserved name is reported, a directory is visited, a link that is followed to a directory
/// is checked for a loop, and everything else is listed by itself.
pub proof fn plans_follow_the_filter(
    config: Config,
    item: DirItem,
    parent_matched: bool,
    ignore: IgnoreView,
)
    ensures
        ({
            let plan = child_plan(config, item, parent_matched, ignore);
            let verdict = filter_verdict(config, item, parent_matched, ignore);
            &&& plan is Skip <==> verdict is Exclude
            &&& plan is Reserved <==> verdict is Reserved
            &&& plan is Descend <==> verdict is Include && item.kind == Some(FileKind::Dir)
            &&& plan is CheckLink <==> verdict is Include && item.kind == Some(FileKind::Symlink)
                && item.link_to_dir && config.follow_symlinks
            &&& plan is File <==> verdict is Include && item.kind != Some(FileKind::Dir) && !(
            item.kind == Some(FileKind::Symlink) && item.link_to_dir && config.follow_symlinks)
        }),
{
}

/// Where links lead is found out exactly if an option asks about it: links are followed, only
/// directories are listed, or empty directories are pruned.
pub proof fn link_targets_are_read_on_request(config: Config)
    ensures
        config.follow_symlinks ==> wants_link_targets(config),
        config.dirs_only ==> wants_link_targets(config),
        config.prune ==> wants_link_targets(config),
        !config.follow_symlinks && !config.dirs_only && !config.prune ==> !wants_link_targets(
            config,
        ),
{
}

} // verus!
