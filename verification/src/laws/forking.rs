//! What the tasks of a parallel traversal find at each directory and each entry, whatever they
//! are told about directories that were entered before.

use crate::entry::{EntryView, TreeView};
use crate::error::{io_error, IoFault, TreeError};
use crate::laws::visiting::{has_streams, is_open_to};
use crate::listing::DirItem;
use crate::node::child_plan;
use crate::ordered_model::Scene;
use crate::parallel_model::Brood;
use crate::task::OutcomeView;
use crate::walk::VisitView;
use vstd::prelude::*;

verus! {

/// What a task finds at a directory that it does not enter: nothing but the reason if it lies
/// too deep or cannot be described; the directory alone if its type, its depth or its volume
/// keeps it closed, with an error if its volume is unknown; and the directory marked as
/// recursive if it was entered before.
pub proof fn tasks_leave_closed_directories_alone(scene: Scene, visit: VisitView)
    ensures
        ({
            let found = scene.alone(visit);
            let described = (scene.world.stat)(visit.path, visit.depth);
            let entry = described->Ok_0@;
            let volume = (scene.world.volume)(visit.path);
            let alone = TreeView { entry, children: Seq::empty() };
            let within = visit.depth < 4096 && described is Ok;
            let open = is_open_to(scene.config, None, visit.depth, entry.entry_type, volume);
            let entered = is_open_to(
                scene.config,
                scene.root_device,
                visit.depth,
                entry.entry_type,
                volume,
            );
            &&& visit.depth >= 4096 ==> found == (OutcomeView {
                tree: None,
                errors: seq![TreeError::MaxDepthExceeded(visit.path)],
            })
            &&& visit.depth < 4096 && described is Err ==> found == (OutcomeView {
                tree: None,
                errors: seq![described->Err_0],
            })
            &&& within && !open ==> found == (OutcomeView {
                tree: Some(alone),
                errors: Seq::empty(),
            })
            &&& within && open && !entered && volume is Some ==> found == (OutcomeView {
                tree: Some(alone),
                errors: Seq::empty(),
            })
            &&& within && open && !entered && volume is None ==> found == (OutcomeView {
                tree: Some(alone),
                errors: seq![TreeError::Io(visit.path, IoFault::UnknownVolume)],
            })
            &&& within && entered && (scene.world.claim)(visit.path) ==> found == (OutcomeView {
                tree: Some(
                    TreeView {
                        entry: EntryView { recursive_link: true, ..entry },
                        children: Seq::empty(),
                    },
                ),
                errors: Seq::empty(),
            })
        }),
{
}

/// What a task finds at a directory that it enters: the directory alone with the error if it
/// cannot be read, or with the number of its entries if there are too many. Otherwise it stays
/// with exactly what its forks found, whenever they found anything; an empty one stays unless
/// empty directories are pruned and it is neither the root nor matches the include pattern for
/// directories. All errors of the forks are kept.
pub proof fn tasks_keep_what_their_forks_find(scene: Scene, visit: VisitView)
    requires
        visit.depth < 4096,
        (scene.world.stat)(visit.path, visit.depth) is Ok,
        is_open_to(
            scene.config,
            scene.root_device,
            visit.depth,
            (scene.world.stat)(visit.path, visit.depth)->Ok_0.entry_type,
            (scene.world.volume)(visit.path),
        ),
        !(scene.world.claim)(visit.path),
    ensures
        ({
            let found = scene.alone(visit);
            let entry = (scene.world.stat)(visit.path, visit.depth)->Ok_0@;
            let listing = (scene.world.list)(visit.path);
            let brood = scene.brood(
                visit.with_rules((scene.world.rules)(visit.path)),
                listing->Entries_0@,
            );
            let whole = Some(TreeView { entry, children: brood.nodes });
            &&& listing is ReadError ==> found == (OutcomeView {
                tree: Some(TreeView { entry, children: Seq::empty() }),
                errors: seq![io_error(visit.path, listing->ReadError_0)],
            })
            &&& listing is FilelimitExceeded ==> found == (OutcomeView {
                tree: Some(
                    TreeView {
                        entry: EntryView {
                            filelimit_exceeded: Some(listing->FilelimitExceeded_0),
                            ..entry
                        },
                        children: Seq::empty(),
                    },
                ),
                errors: Seq::empty(),
            })
            &&& listing is Entries ==> found.errors == brood.errors
            &&& listing is Entries && brood.nodes.len() > 0 ==> found.tree == whole
            &&& listing is Entries && (!scene.config.prune || visit.depth == 0 || visit.included)
                ==> found.tree == whole
            &&& listing is Entries && brood.nodes.len() == 0 && scene.config.prune && visit.depth
                > 0 && !visit.included ==> found.tree is None
        }),
{
}

/// What the forks for several entries find is put together in the order of the entries.
pub proof fn forks_are_put_together_in_order(
    scene: Scene,
    visit: VisitView,
    items: Seq<DirItem>,
    item: DirItem,
)
    requires
        visit.depth < 4096,
    ensures
        scene.brood(visit, Seq::empty()) == (Brood { nodes: Seq::empty(), errors: Seq::empty() }),
        ({
            let before = scene.brood(visit, items);
            let after = scene.brood(visit, items.push(item));
            let found = scene.offspring(visit, item);
            &&& after.errors == before.errors + found.errors
            &&& found.tree is None ==> after.nodes == before.nodes
            &&& found.tree is Some ==> after.nodes == before.nodes.push(found.tree->Some_0)
        }),
{
    assert(items.push(item).drop_last() =~= items);
}

/// What the fork for an entry finds. Nothing for one that is left out; a reserved name is
/// reported. A directory is visited one level deeper, and so is what a followed link leads to,
/// unless it was entered before: the loop is reported then, and the link listed as recursive.
/// Everything else is listed with its streams below it, if they are asked for. What cannot be
/// described is reported and not listed.
pub proof fn forks_treat_entries_by_plan(scene: Scene, visit: VisitView, item: DirItem)
    requires
        visit.depth < 4096,
    ensures
        ({
            let plan = child_plan(scene.config, item, visit.parent_matched, visit.ignore);
            let found = scene.offspring(visit, item);
            let depth = (visit.depth + 1) as usize;
            let described = (scene.world.describe)(item.path, depth);
            let seen = (scene.world.seen)(item.path);
            let looped = TreeError::SymlinkLoop(item.path);
            let below = scene.alone(
                VisitView {
                    path: item.path,
                    depth,
                    included: item.dir_included,
                    parent_matched: visit.parent_matched || item.dir_included,
                    ignore: visit.ignore,
                },
            );
            &&& plan is Skip ==> found == (OutcomeView { tree: None, errors: Seq::empty() })
            &&& plan is Reserved ==> found == (OutcomeView {
                tree: None,
                errors: seq![TreeError::ReservedName(item.path)],
            })
            &&& plan is Descend ==> found == below
            &&& plan is CheckLink && !seen ==> found == below
            &&& plan is CheckLink && seen && described is Ok ==> found == (OutcomeView {
                tree: Some(
                    TreeView {
                        entry: EntryView { recursive_link: true, ..described->Ok_0@ },
                        children: Seq::empty(),
                    },
                ),
                errors: seq![looped],
            })
            &&& plan is CheckLink && seen && described is Err ==> found == (OutcomeView {
                tree: None,
                errors: seq![looped, described->Err_0],
            })
            &&& plan is File && described is Err ==> found == (OutcomeView {
                tree: None,
                errors: seq![described->Err_0],
            })
            &&& plan is File && described is Ok ==> {
                &&& found.errors.len() == 0
                &&& found.tree is Some
                &&& found.tree->Some_0.entry == described->Ok_0@
                &&& !scene.config.show_streams ==> found.tree->Some_0.children.len() == 0
                &&& scene.config.show_streams ==> has_streams(
                    scene,
                    item.path,
                    (depth + 1) as usize,
                    found.tree->Some_0.children,
                )
            }
        }),
{
    let depth = (visit.depth + 1) as usize;
    let described = (scene.world.describe)(item.path, depth);
    let looped = TreeError::SymlinkLoop(item.path);
    if described is Err {
        assert(seq![looped].push(described->Err_0) =~= seq![looped, described->Err_0]);
    }
}

} // verus!
