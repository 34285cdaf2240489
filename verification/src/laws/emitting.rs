//! What a streaming traversal does at each directory and each entry.

use crate::config::Config;
use crate::entry::{EntryType, EntryView, Metadata, StreamInfo};
use crate::error::{io_error, IoFault, TreeError};
use crate::filter::filter_verdict;
use crate::ignoring::IgnoreView;
use crate::listing::{DirItem, ReadDirResult};
use crate::ordered_model::Scene;
use crate::path::FsPath;
use crate::streaming::{
    lead_of, listed_items, reserved_errors, stream_start, LevelView, StreamStageView,
};
use crate::streaming_model::{ended, Halt, Output};
use vstd::prelude::*;

verus! {

/// The entries of a directory that are written are those that the filters list, in their
/// order; those with reserved names are reported, in their order.
pub proof fn a_level_writes_what_is_listed(
    config: Config,
    parent_matched: bool,
    ignore: IgnoreView,
    items: Seq<DirItem>,
)
    ensures
        listed_items(config, parent_matched, ignore, items) == items.filter(
            |item: DirItem| filter_verdict(config, item, parent_matched, ignore) is Include,
        ),
        reserved_errors(config, parent_matched, ignore, items) == items.filter(
            |item: DirItem| filter_verdict(config, item, parent_matched, ignore) is Reserved,
        ).map_values(|item: DirItem| TreeError::ReservedName(item.path)),
    decreases items.len(),
{
    reveal(Seq::filter);
    let listed = |item: DirItem|
        filter_verdict(config, item, parent_matched, ignore) is Include;
    let reserved = |item: DirItem|
        filter_verdict(config, item, parent_matched, ignore) is Reserved;
    let named = |item: DirItem| TreeError::ReservedName(item.path);
    if items.len() > 0 {
        let front = items.drop_last();
        a_level_writes_what_is_listed(config, parent_matched, ignore, front);
        assert(front.filter(reserved).push(items.last()).map_values(named) =~= front.filter(
            reserved,
        ).map_values(named).push(TreeError::ReservedName(items.last().path)));
    } else {
        assert(items.filter(listed) =~= Seq::empty());
        assert(items.filter(reserved).map_values(named) =~= Seq::empty());
    }
}

/// What becomes of a directory that is descended into. One too deep is reported; one beyond
/// the depth limit, or with too many entries, adds nothing; one that cannot be read is
/// reported. Otherwise the entries that are listed there are written, with the rules of the
/// directory in force.
pub proof fn levels_are_written(
    scene: Scene,
    level: LevelView,
    ancestors: Seq<bool>,
    out: Output,
)
    ensures
        ({
            let after = scene.level(level, ancestors, out);
            let listing = (scene.world.list)(level.path);
            let max = scene.config.max_depth;
            let too_deep = level.depth >= 4096;
            let beyond = max is Some && level.depth > max->Some_0;
            let inside = level.with_rules((scene.world.rules)(level.path));
            &&& too_deep ==> after == (Output {
                errors: out.errors.push(TreeError::MaxDepthExceeded(level.path)),
                ..out
            })
            &&& !too_deep && beyond ==> after == out
            &&& !too_deep && !beyond && listing is ReadError ==> after == (Output {
                errors: out.errors.push(io_error(level.path, listing->ReadError_0)),
                ..out
            })
            &&& !too_deep && !beyond && listing is FilelimitExceeded ==> after == out
            &&& !too_deep && !beyond && listing is Entries ==> after == scene.entries(
                inside,
                listing->Entries_0@.filter(
                    |item: DirItem|
                        filter_verdict(
                            scene.config,
                            item,
                            inside.parent_matched,
                            inside.ignore,
                        ) is Include,
                ),
                ancestors,
                Output {
                    errors: out.errors + listing->Entries_0@.filter(
                        |item: DirItem|
                            filter_verdict(
                                scene.config,
                                item,
                                inside.parent_matched,
                                inside.ignore,
                            ) is Reserved,
                    ).map_values(|item: DirItem| TreeError::ReservedName(item.path)),
                    ..out
                },
            )
        }),
{
    let inside = level.with_rules((scene.world.rules)(level.path));
    if let ReadDirResult::Entries(items) = (scene.world.list)(level.path) {
        a_level_writes_what_is_listed(
            scene.config,
            inside.parent_matched,
            inside.ignore,
            items@,
        );
    }
}

/// The entries of a directory are written one after the other, and only the last of them is
/// marked as the last. Nothing is written once the traversal was cut short. It is cut short
/// before an entry if as many were written as may be shown.
pub proof fn entries_are_written_in_turn(
    scene: Scene,
    level: LevelView,
    items: Seq<DirItem>,
    ancestors: Seq<bool>,
    out: Output,
)
    requires
        level.depth < 4096,
    ensures
        ({
            let after = scene.entries(level, items, ancestors, out);
            let max = scene.config.max_entries;
            let full = max is Some && out.count >= max->Some_0;
            &&& items.len() == 0 ==> after == out
            &&& out.halt !is No ==> after == out
            &&& items.len() > 0 && out.halt is No && full ==> after == (Output {
                halt: Halt::Full,
                ..out
            })
            &&& items.len() > 1 && out.halt is No && !full ==> after == scene.entries(
                level,
                items.skip(1),
                ancestors,
                scene.entry(level, items[0], false, ancestors, out),
            )
            &&& items.len() == 1 && out.halt is No && !full ==> after == scene.entry(
                level,
                items[0],
                true,
                ancestors,
                out,
            )
        }),
{
    if items.len() == 1 {
        let last = scene.entry(level, items[0], true, ancestors, out);
        assert(items.skip(1) =~= Seq::empty());
        assert(scene.entries(level, items.skip(1), ancestors, last) == last);
    }
}

/// Whether an entry leads further down: a directory does, a junction if junctions are asked
/// for, and a link if links are followed, it is not broken, and it leads to a directory.
pub open spec fn leads_down(scene: Scene, entry: EntryView) -> bool {
    match entry.entry_type {
        EntryType::Directory => true,
        EntryType::Junction { .. } => scene.config.show_junctions,
        EntryType::Symlink { broken, .. } => scene.config.follow_symlinks && !broken && (
        scene.world.is_dir)(entry.path),
        EntryType::File => false,
        EntryType::Stream => false,
    }
}

/// Where a link leads is asked only of links that are followed and not broken.
pub proof fn leads_are_by_type(config: Config, target: FsPath, broken: bool)
    ensures
        lead_of(EntryType::Directory, config) is Yes,
        lead_of(EntryType::File, config) is No,
        lead_of(EntryType::Stream, config) is No,
        lead_of(EntryType::Junction { target }, config) is Yes <==> config.show_junctions,
        lead_of(EntryType::Junction { target }, config) is No <==> !config.show_junctions,
        lead_of(EntryType::Symlink { target, broken }, config) is Link <==> !broken
            && config.follow_symlinks,
        lead_of(EntryType::Symlink { target, broken }, config) is No <==> broken
            || !config.follow_symlinks,
{
}

/// What becomes of an entry. One that cannot be described is reported. One that leads nowhere
/// is written alone. One that leads to a directory that was come to before is written alone
/// and marked as recursive; otherwise the directory is noted. One on another volume is written
/// alone, and so, with an error, is one on an unknown volume. Anything else is written, and
/// then the directory that it leads to, one level deeper.
pub proof fn entries_are_written_by_kind(
    scene: Scene,
    level: LevelView,
    item: DirItem,
    is_last: bool,
    ancestors: Seq<bool>,
    out: Output,
)
    requires
        level.depth < 4096,
    ensures
        ({
            let described = (scene.world.describe)(item.path, level.depth);
            let after = scene.entry(level, item, is_last, ancestors, out);
            let entry = EntryView { is_last, ancestors_last: ancestors, ..described->Ok_0@ };
            let key = (scene.world.identity)(entry.path)@;
            let volume = (scene.world.volume)(entry.path);
            let device = scene.root_device;
            let noted = Output { visited: out.visited.insert(key), ..out };
            let written = (scene.world.write)(entry);
            let leads = leads_down(scene, entry);
            let again = out.visited.contains(key);
            let enters = device is None || (volume is Some && volume->Some_0.volume_serial
                == device->Some_0);
            &&& described is Err ==> after == (Output {
                errors: out.errors.push(described->Err_0),
                ..out
            })
            &&& described is Ok && !leads ==> after == scene.leaf_entry(
                level,
                entry,
                ancestors,
                out,
            )
            &&& described is Ok && leads && again ==> after == scene.leaf_entry(
                level,
                EntryView { recursive_link: true, ..entry },
                ancestors,
                out,
            )
            &&& described is Ok && leads && !again && !enters && volume is Some ==> after
                == scene.leaf_entry(level, entry, ancestors, noted)
            &&& described is Ok && leads && !again && !enters && volume is None ==> after
                == scene.leaf_entry(
                level,
                entry,
                ancestors,
                Output {
                    errors: out.errors.push(TreeError::Io(entry.path, IoFault::UnknownVolume)),
                    ..noted
                },
            )
            &&& described is Ok && leads && !again && enters && written is Err ==> after == (
            Output { halt: Halt::Failed(written->Err_0), ..noted })
            &&& described is Ok && leads && !again && enters && written is Ok && out.halt is No
                ==> after == scene.level(
                LevelView {
                    path: entry.path,
                    depth: (level.depth + 1) as usize,
                    parent_matched: level.parent_matched || item.dir_included,
                    ignore: level.ignore,
                },
                ancestors.push(is_last),
                Output {
                    written: out.written.push(entry),
                    count: if out.count < usize::MAX {
                        (out.count + 1) as usize
                    } else {
                        out.count
                    },
                    ..noted
                },
            )
        }),
{
}

/// Writing an entry adds it to the output and counts it; if that fails, the traversal is cut
/// short by the error, and nothing else changes.
pub proof fn writing_adds_one_entry(scene: Scene, entry: EntryView, out: Output)
    ensures
        ({
            let written = (scene.world.write)(entry);
            let after = scene.emit(entry, out);
            &&& written is Ok ==> after == (Output {
                written: out.written.push(entry),
                count: if out.count < usize::MAX {
                    (out.count + 1) as usize
                } else {
                    out.count
                },
                ..out
            })
            &&& written is Err ==> after == (Output { halt: Halt::Failed(written->Err_0), ..out })
        }),
{
}

/// An entry that is not descended into is written, and then its streams, if they are asked
/// for: inside the entry, one level deeper.
pub proof fn streams_are_written_below_their_entry(
    scene: Scene,
    level: LevelView,
    entry: EntryView,
    ancestors: Seq<bool>,
    out: Output,
)
    ensures
        ({
            let alone = scene.emit(entry, out);
            let after = scene.leaf_entry(level, entry, ancestors, out);
            &&& !scene.config.show_streams ==> after == alone
            &&& alone.halt !is No ==> after == alone
            &&& scene.config.show_streams && alone.halt is No ==> after == scene.stream_entries(
                entry.path,
                level.depth,
                (scene.world.streams)(entry.path)@,
                ancestors.push(entry.is_last),
                alone,
            )
        }),
{
}

/// The streams of an entry are written one after the other, each with its name and its size,
/// and only the last of them is marked as the last. They count as entries.
pub proof fn streams_are_written_in_turn(
    scene: Scene,
    path: FsPath,
    depth: usize,
    streams: Seq<StreamInfo>,
    ancestors: Seq<bool>,
    out: Output,
)
    requires
        depth < 4096,
    ensures
        ({
            let after = scene.stream_entries(path, depth, streams, ancestors, out);
            let max = scene.config.max_entries;
            let full = max is Some && out.count >= max->Some_0;
            &&& streams.len() == 0 ==> after == out
            &&& out.halt !is No ==> after == out
            &&& streams.len() > 0 && out.halt is No && full ==> after == (Output {
                halt: Halt::Full,
                ..out
            })
            &&& streams.len() > 0 && out.halt is No && !full ==> after == scene.stream_entries(
                path,
                depth,
                streams.skip(1),
                ancestors,
                scene.emit(
                    EntryView {
                        path,
                        name: streams[0].name@,
                        entry_type: EntryType::Stream,
                        metadata: Some(
                            Metadata {
                                size: streams[0].size,
                                modified: None,
                                permissions: None,
                                file_id: None,
                            },
                        ),
                        depth: (depth + 1) as usize,
                        is_last: streams.len() == 1,
                        ancestors_last: ancestors,
                        filelimit_exceeded: None,
                        recursive_link: false,
                    },
                    out,
                ),
            )
        }),
{
}

/// A streaming traversal writes the root first, whatever the limit on the number of entries;
/// the root does not count. If the root cannot be described or written, that is all. Otherwise
/// the root is noted, an unknown volume of the root is reported if the boundary is to be
/// watched, and the entries of the root are written.
pub proof fn the_root_is_written_first(scene: Scene, root: FsPath, ignore: IgnoreView)
    ensures
        ({
            let described = (scene.world.stat)(root, 0);
            let written = (scene.world.write)(described->Ok_0@);
            let after = scene.streamed(root, ignore);
            let nothing = Output {
                errors: Seq::empty(),
                visited: Set::empty(),
                written: Seq::empty(),
                count: 0,
                halt: Halt::No,
            };
            &&& described is Err ==> after == (Output {
                halt: Halt::Failed(described->Err_0),
                ..nothing
            })
            &&& described is Ok && written is Err ==> after == (Output {
                halt: Halt::Failed(written->Err_0),
                ..nothing
            })
            &&& described is Ok && written is Ok ==> after == scene.level(
                LevelView { path: root, depth: 1, parent_matched: false, ignore },
                Seq::empty(),
                Output {
                    errors: if scene.config.one_fs && scene.root_device is None {
                        seq![TreeError::Io(root, IoFault::UnknownRootVolume)]
                    } else {
                        Seq::empty()
                    },
                    visited: Set::empty().insert((scene.world.identity)(root)@),
                    written: seq![described->Ok_0@],
                    ..nothing
                },
            )
        }),
{
    let error = TreeError::Io(root, IoFault::UnknownRootVolume);
    assert(Seq::<TreeError>::empty().push(error) =~= seq![error]);
}

/// A streaming walk that is over has written what the traversal writes, and holds the errors
/// that it meets. It failed exactly if the traversal was cut short by an error, and says that
/// entries were left out exactly if it was cut short by the limit.
pub proof fn streams_hand_over_what_they_met(
    config: Config,
    root: FsPath,
    root_device: Option<u64>,
    ignore: IgnoreView,
    out: Output,
)
    ensures
        ({
            let start = stream_start(config, root, root_device, ignore);
            let end = ended(start.core, out);
            &&& end.core.written == out.written
            &&& end.core.errors == out.errors
            &&& end.core.state.truncated <==> out.halt is Full
            &&& end.stage is Done <==> out.halt !is Failed
            &&& out.halt is Failed ==> end.stage == StreamStageView::Failed(out.halt->Failed_0)
            &&& end.asks() is None
        }),
{
}

} // verus!
