//! What an ordered traversal does at each directory and each entry, and how the way down to a
//! directory shows in its visit.

use crate::config::Config;
use crate::entry::{EntryType, EntryView, FileIdInfo, TreeView};
use crate::error::{io_error, IoFault, TreeError};
use crate::filter::filter_verdict;
use crate::ignoring::IgnoreView;
use crate::listing::DirItem;
use crate::node::child_plan;
use crate::ordered_model::{over, Scene, Tally};
use crate::path::FsPath;
use crate::streaming::LevelView;
use crate::task::{TaskStageView, TaskView};
use crate::walk::{StageView, VisitView};
use vstd::prelude::*;

verus! {

/// The visit of a directory below another, by the entries on the way down.
pub open spec fn down(scene: Scene, visit: VisitView, way: Seq<DirItem>) -> VisitView
    decreases way.len(),
{
    if way.len() == 0 {
        visit
    } else {
        let above = down(scene, visit, way.drop_last());
        above.with_rules((scene.world.rules)(above.path)).child(way.last())
    }
}

/// The level of a streaming traversal below another, by the entries on the way down and the
/// paths under which they were described.
pub open spec fn down_stream(
    scene: Scene,
    level: LevelView,
    way: Seq<DirItem>,
    paths: Seq<FsPath>,
) -> LevelView
    decreases way.len(),
{
    if way.len() == 0 {
        level
    } else {
        let above = down_stream(scene, level, way.drop_last(), paths.drop_last());
        above.with_rules((scene.world.rules)(above.path)).below(way.last(), paths.last())
    }
}

/// Whether some entry on a way down matches the include pattern for directories.
pub open spec fn some_matches(way: Seq<DirItem>) -> bool {
    exists|i: int| 0 <= i < way.len() && (#[trigger] way[i]).dir_included
}

proof fn lemma_some_matches(way: Seq<DirItem>)
    requires
        way.len() > 0,
    ensures
        some_matches(way) == (some_matches(way.drop_last()) || way.last().dir_included),
{
    if some_matches(way.drop_last()) {
        let i = choose|i: int|
            0 <= i < way.drop_last().len() && (#[trigger] way.drop_last()[i]).dir_included;
        assert(way[i].dir_included);
    }
    if way.last().dir_included {
        assert(way[way.len() - 1].dir_included);
    }
    if some_matches(way) {
        let i = choose|i: int| 0 <= i < way.len() && (#[trigger] way[i]).dir_included;
        if i < way.len() - 1 {
            assert(way.drop_last()[i].dir_included);
        }
    }
}

/// A directory below others counts as matched exactly if the traversal began below a matched
/// one, or some directory on the way down, itself included, matches the include pattern for
/// directories. Its visit has its own path and match, and its depth is the length of the way.
pub proof fn a_match_holds_all_the_way_down(scene: Scene, visit: VisitView, way: Seq<DirItem>)
    ensures
        ({
            let visited = down(scene, visit, way);
            &&& visited.parent_matched <==> visit.parent_matched || some_matches(way)
            &&& visit.depth + way.len() <= usize::MAX ==> visited.depth == visit.depth + way.len()
            &&& way.len() > 0 ==> visited.path == way.last().path
            &&& way.len() > 0 ==> visited.included == way.last().dir_included
        }),
    decreases way.len(),
{
    if way.len() > 0 {
        a_match_holds_all_the_way_down(scene, visit, way.drop_last());
        lemma_some_matches(way);
    }
}

/// The same of a streaming traversal.
pub proof fn a_match_holds_all_the_way_down_the_stream(
    scene: Scene,
    level: LevelView,
    way: Seq<DirItem>,
    paths: Seq<FsPath>,
)
    requires
        paths.len() == way.len(),
    ensures
        ({
            let reached = down_stream(scene, level, way, paths);
            &&& reached.parent_matched <==> level.parent_matched || some_matches(way)
            &&& level.depth + way.len() <= usize::MAX ==> reached.depth == level.depth + way.len()
            &&& way.len() > 0 ==> reached.path == paths.last()
        }),
    decreases way.len(),
{
    if way.len() > 0 {
        a_match_holds_all_the_way_down_the_stream(
            scene,
            level,
            way.drop_last(),
            paths.drop_last(),
        );
        lemma_some_matches(way);
    }
}

/// Below a directory that matches the include pattern for directories, at any depth, nothing
/// is left out for not matching the pattern for files: an entry fares there as one that
/// matches it, in a walk as in a stream.
pub proof fn nothing_below_a_match_has_to_match(
    scene: Scene,
    visit: VisitView,
    level: LevelView,
    way: Seq<DirItem>,
    paths: Seq<FsPath>,
    item: DirItem,
)
    requires
        some_matches(way),
        paths.len() == way.len(),
    ensures
        ({
            let visited = down(scene, visit, way);
            let reached = down_stream(scene, level, way, paths);
            let matching = DirItem { included: true, ..item };
            &&& filter_verdict(scene.config, item, visited.parent_matched, visited.ignore)
                == filter_verdict(
                scene.config,
                matching,
                visited.parent_matched,
                visited.ignore,
            )
            &&& filter_verdict(scene.config, item, visited.parent_matched, visited.ignore)
                == filter_verdict(scene.config, matching, false, visited.ignore)
            &&& filter_verdict(scene.config, item, reached.parent_matched, reached.ignore)
                == filter_verdict(scene.config, matching, false, reached.ignore)
        }),
{
    a_match_holds_all_the_way_down(scene, visit, way);
    a_match_holds_all_the_way_down_the_stream(scene, level, way, paths);
}

/// The task that is forked for an entry of a directory: nothing to do for one that is left out
/// or reserved, and for one that is visited the same visit as in a walk.
pub proof fn forks_go_the_same_way_down(task: TaskView, visit: VisitView, item: DirItem)
    requires
        visit.depth < 4096,
    ensures
        ({
            let fork = task.fork(visit, item);
            let plan = child_plan(task.config, item, visit.parent_matched, visit.ignore);
            let below = VisitView {
                path: item.path,
                depth: (visit.depth + 1) as usize,
                included: item.dir_included,
                parent_matched: visit.parent_matched || item.dir_included,
                ignore: visit.ignore,
            };
            &&& fork.config == task.config
            &&& fork.root_device == task.root_device
            &&& plan is Skip ==> fork.stage == TaskStageView::Done(None)
            &&& plan is Reserved ==> fork.stage == TaskStageView::Done(None)
            &&& plan is Reserved ==> fork.errors == seq![TreeError::ReservedName(item.path)]
            &&& plan is CheckLink ==> fork.stage == TaskStageView::LinkSeen(below)
            &&& plan is Descend && visit.depth < 4095 ==> fork.stage == TaskStageView::Stat(below)
            &&& plan is Descend && visit.depth == 4095 ==> fork.stage == TaskStageView::Done(None)
                && fork.errors == seq![TreeError::MaxDepthExceeded(item.path)]
            &&& plan is File ==> fork.stage == TaskStageView::FileEntry(
                item.path,
                (visit.depth + 1) as usize,
            )
            &&& !(plan is Reserved) && !(plan is Descend) ==> fork.errors.len() == 0
        }),
{
    assert(Seq::<TreeError>::empty().push(TreeError::ReservedName(item.path)) =~= seq![
        TreeError::ReservedName(item.path),
    ]);
    assert(Seq::<TreeError>::empty().push(TreeError::MaxDepthExceeded(item.path)) =~= seq![
        TreeError::MaxDepthExceeded(item.path),
    ]);
}

/// Whether a directory may be entered as far as its type, its depth and its volume go.
pub open spec fn is_open_to(
    config: Config,
    root_device: Option<u64>,
    depth: usize,
    entry_type: EntryType,
    volume: Option<FileIdInfo>,
) -> bool {
    &&& entry_type is Junction ==> config.show_junctions
    &&& config.max_depth is Some ==> depth < config.max_depth->Some_0
    &&& root_device is Some ==> volume is Some && volume->Some_0.volume_serial
        == root_device->Some_0
}

/// A directory that cannot be visited has no node, and the reason is reported: it lies too
/// deep, or cannot be described.
pub proof fn unreachable_directories_are_reported(scene: Scene, visit: VisitView, tally: Tally)
    ensures
        ({
            let described = (scene.world.stat)(visit.path, visit.depth);
            let found = scene.node(visit, tally);
            &&& visit.depth >= 4096 ==> found == (
                None::<TreeView>,
                Tally {
                    errors: tally.errors.push(TreeError::MaxDepthExceeded(visit.path)),
                    visited: tally.visited,
                },
            )
            &&& visit.depth < 4096 && described is Err ==> found == (
                None::<TreeView>,
                Tally {
                    errors: tally.errors.push(described->Err_0),
                    visited: tally.visited,
                },
            )
        }),
{
}

/// A directory that is not entered for its type, its depth or its volume is listed as it is,
/// and is not noted as entered. That its volume is unknown is reported, unless it would not
/// have been entered anyway.
pub proof fn closed_directories_are_leaves(scene: Scene, visit: VisitView, tally: Tally)
    requires
        visit.depth < 4096,
        (scene.world.stat)(visit.path, visit.depth) is Ok,
    ensures
        ({
            let entry = (scene.world.stat)(visit.path, visit.depth)->Ok_0@;
            let volume = (scene.world.volume)(visit.path);
            let found = scene.node(visit, tally);
            let alone = Some(TreeView { entry, children: Seq::empty() });
            let closed = !is_open_to(scene.config, None, visit.depth, entry.entry_type, volume);
            &&& closed ==> found == (alone, tally)
            &&& !closed && scene.root_device is Some && volume is Some
                && volume->Some_0.volume_serial != scene.root_device->Some_0 ==> found == (
                alone,
                tally,
            )
            &&& !closed && scene.root_device is Some && volume is None ==> found == (
                alone,
                Tally {
                    errors: tally.errors.push(
                        TreeError::Io(visit.path, IoFault::UnknownVolume),
                    ),
                    visited: tally.visited,
                },
            )
        }),
{
}

/// A directory that was entered before is listed as recursive, without what lies in it; one
/// that was not is noted as entered. If it cannot be read, it is listed alone with the error;
/// if it has too many entries, with their number.
pub proof fn directories_are_entered_once(scene: Scene, visit: VisitView, tally: Tally)
    requires
        visit.depth < 4096,
        (scene.world.stat)(visit.path, visit.depth) is Ok,
        is_open_to(
            scene.config,
            scene.root_device,
            visit.depth,
            (scene.world.stat)(visit.path, visit.depth)->Ok_0.entry_type,
            (scene.world.volume)(visit.path),
        ),
    ensures
        ({
            let entry = (scene.world.stat)(visit.path, visit.depth)->Ok_0@;
            let key = (scene.world.identity)(visit.path)@;
            let listing = (scene.world.list)(visit.path);
            let found = scene.node(visit, tally);
            let seen = tally.visited.contains(key);
            &&& seen ==> found == (
                Some(
                    TreeView {
                        entry: EntryView { recursive_link: true, ..entry },
                        children: Seq::empty(),
                    },
                ),
                tally,
            )
            &&& !seen && listing is ReadError ==> found == (
                Some(TreeView { entry, children: Seq::empty() }),
                Tally {
                    errors: tally.errors.push(io_error(visit.path, listing->ReadError_0)),
                    visited: tally.visited.insert(key),
                },
            )
            &&& !seen && listing is FilelimitExceeded ==> found == (
                Some(
                    TreeView {
                        entry: EntryView {
                            filelimit_exceeded: Some(listing->FilelimitExceeded_0),
                            ..entry
                        },
                        children: Seq::empty(),
                    },
                ),
                Tally { errors: tally.errors, visited: tally.visited.insert(key) },
            )
        }),
{
}

/// A directory that is read stays in the tree with exactly what was found in it, whenever
/// anything was found, at any depth and with or without pruning. One in which nothing was
/// found stays too, unless empty directories are pruned and it is neither the root nor matches
/// the include pattern for directories.
pub proof fn what_is_found_stays_in_the_tree(scene: Scene, visit: VisitView, tally: Tally)
    requires
        visit.depth < 4096,
        (scene.world.stat)(visit.path, visit.depth) is Ok,
        is_open_to(
            scene.config,
            scene.root_device,
            visit.depth,
            (scene.world.stat)(visit.path, visit.depth)->Ok_0.entry_type,
            (scene.world.volume)(visit.path),
        ),
        !tally.visited.contains((scene.world.identity)(visit.path)@),
        (scene.world.list)(visit.path) is Entries,
    ensures
        ({
            let entry = (scene.world.stat)(visit.path, visit.depth)->Ok_0@;
            let inside = scene.children(
                visit.with_rules((scene.world.rules)(visit.path)),
                (scene.world.list)(visit.path)->Entries_0@,
                Seq::empty(),
                Tally {
                    errors: tally.errors,
                    visited: tally.visited.insert((scene.world.identity)(visit.path)@),
                },
            );
            let found = scene.node(visit, tally);
            &&& found.1 == inside.1
            &&& inside.0.len() > 0 ==> found.0 == Some(TreeView { entry, children: inside.0 })
            &&& !scene.config.prune ==> found.0 == Some(TreeView { entry, children: inside.0 })
            &&& visit.depth == 0 ==> found.0 == Some(TreeView { entry, children: inside.0 })
            &&& visit.included ==> found.0 == Some(TreeView { entry, children: inside.0 })
            &&& inside.0.len() == 0 && scene.config.prune && visit.depth > 0 && !visit.included
                ==> found.0 is None
        }),
{
}

/// The entries of a directory are visited one after the other; what is found at an entry comes
/// behind what was found before it, and whatever is met counts for the entries behind it.
pub proof fn entries_are_visited_in_turn(
    scene: Scene,
    visit: VisitView,
    items: Seq<DirItem>,
    nodes: Seq<TreeView>,
    tally: Tally,
)
    requires
        visit.depth < 4096,
    ensures
        items.len() == 0 ==> scene.children(visit, items, nodes, tally) == (nodes, tally),
        items.len() > 0 ==> {
            let first = scene.child(visit, items[0], tally);
            scene.children(visit, items, nodes, tally) == scene.children(
                visit,
                items.skip(1),
                if first.0 is Some {
                    nodes.push(first.0->Some_0)
                } else {
                    nodes
                },
                first.1,
            )
        },
{
}

/// What is found at an entry of a directory. Nothing at one that is left out; a reserved name
/// is reported. A directory is visited one level deeper. So is what a followed link leads to,
/// unless it was entered before: the loop is reported then, and the link listed as recursive.
/// Everything else is listed with its streams below it, if they are asked for. What cannot be
/// described is reported and not listed.
pub proof fn entries_are_treated_by_plan(
    scene: Scene,
    visit: VisitView,
    item: DirItem,
    tally: Tally,
)
    requires
        visit.depth < 4096,
    ensures
        ({
            let plan = child_plan(scene.config, item, visit.parent_matched, visit.ignore);
            let found = scene.child(visit, item, tally);
            let depth = (visit.depth + 1) as usize;
            let described = (scene.world.describe)(item.path, depth);
            let seen = tally.visited.contains((scene.world.identity)(item.path)@);
            let below = scene.node(
                VisitView {
                    path: item.path,
                    depth,
                    included: item.dir_included,
                    parent_matched: visit.parent_matched || item.dir_included,
                    ignore: visit.ignore,
                },
                tally,
            );
            let looped = tally.errors.push(TreeError::SymlinkLoop(item.path));
            &&& plan is Skip ==> found == (None::<TreeView>, tally)
            &&& plan is Reserved ==> found == (
                None::<TreeView>,
                Tally {
                    errors: tally.errors.push(TreeError::ReservedName(item.path)),
                    visited: tally.visited,
                },
            )
            &&& plan is Descend ==> found == below
            &&& plan is CheckLink && !seen ==> found == below
            &&& plan is CheckLink && seen && described is Ok ==> found == (
                Some(
                    TreeView {
                        entry: EntryView { recursive_link: true, ..described->Ok_0@ },
                        children: Seq::empty(),
                    },
                ),
                Tally { errors: looped, visited: tally.visited },
            )
            &&& plan is CheckLink && seen && described is Err ==> found == (
                None::<TreeView>,
                Tally { errors: looped.push(described->Err_0), visited: tally.visited },
            )
            &&& plan is File && described is Err ==> found == (
                None::<TreeView>,
                Tally { errors: tally.errors.push(described->Err_0), visited: tally.visited },
            )
            &&& plan is File && described is Ok ==> {
                &&& found.1 == tally
                &&& found.0 is Some
                &&& found.0->Some_0.entry == described->Ok_0@
                &&& !scene.config.show_streams ==> found.0->Some_0.children.len() == 0
                &&& scene.config.show_streams ==> has_streams(
                    scene,
                    item.path,
                    (depth + 1) as usize,
                    found.0->Some_0.children,
                )
            }
        }),
{
}

/// Whether nodes are those of the streams of a file, in the order in which they are listed:
/// each has the name and the size of a stream, the path of the file, and nothing below it.
pub open spec fn has_streams(
    scene: Scene,
    path: FsPath,
    depth: usize,
    nodes: Seq<TreeView>,
) -> bool {
    let streams = (scene.world.streams)(path)@;
    &&& nodes.len() == streams.len()
    &&& forall|i: int|
        0 <= i < nodes.len() ==> {
            let node = #[trigger] nodes[i];
            &&& node.children.len() == 0
            &&& node.entry.path == path
            &&& node.entry.name == streams[i].name@
            &&& node.entry.entry_type is Stream
            &&& node.entry.metadata is Some
            &&& node.entry.metadata->Some_0.size == streams[i].size
            &&& node.entry.metadata->Some_0.modified is None
            &&& node.entry.metadata->Some_0.permissions is None
            &&& node.entry.metadata->Some_0.file_id is None
            &&& node.entry.depth == depth
            &&& !node.entry.is_last
            &&& node.entry.ancestors_last.len() == 0
            &&& !node.entry.recursive_link
            &&& node.entry.filelimit_exceeded is None
        }
}

/// A traversal visits its root at depth zero, with nothing entered and nothing matched. That
/// the file system boundary cannot be watched, because the volume of the root is unknown, is
/// reported first.
pub proof fn traversals_begin_at_the_root(scene: Scene, root: FsPath, ignore: IgnoreView)
    ensures
        scene.traversal(root, ignore) == scene.node(
            VisitView { path: root, depth: 0, included: false, parent_matched: false, ignore },
            Tally {
                errors: if scene.config.one_fs && scene.root_device is None {
                    seq![TreeError::Io(root, IoFault::UnknownRootVolume)]
                } else {
                    Seq::empty()
                },
                visited: Set::empty(),
            },
        ),
{
    let error = TreeError::Io(root, IoFault::UnknownRootVolume);
    assert(Seq::<TreeError>::empty().push(error) =~= seq![error]);
}

/// A walk that is over holds the tree that was found, and the errors that were met.
pub proof fn walks_hand_over_what_they_found(
    scene: Scene,
    found: (Option<TreeView>, Tally),
)
    ensures
        over(scene, found).stage == StageView::Done(found.0),
        over(scene, found).core.errors == found.1.errors,
        over(scene, found).asks() is None,
{
}

} // verus!
