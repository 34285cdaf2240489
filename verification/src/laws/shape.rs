//! Where the nodes of a tree lie: at which depth, and each at a path of its own.

use crate::descend::{boundary_error, MAX_INTERNAL_DEPTH};
use crate::entry::{file_tree, leaf, EntryView, TreeView};
use crate::ignoring::IgnoreView;
use crate::laws::engines::{bare, flat, flat_all, lemma_flat_extended, lemma_flat_leaf};
use crate::laws::trees::{depth_limit, is_opened, levels_below};
use crate::listing::DirItem;
use crate::node::{child_plan, ChildPlan};
use crate::ordered_model::{extended, Scene, Tally};
use crate::path::{starts_with, FsPath, Part};
use crate::walk::VisitView;
use vstd::prelude::*;

verus! {

/// Whether an entry is what was asked about: the entry at a path, at a depth.
pub open spec fn is_entry_of(entry: EntryView, path: FsPath, depth: usize) -> bool {
    entry.path@ == path@ && entry.depth == depth
}

/// Whether the file system describes what it is asked about.
pub open spec fn describes_faithfully(scene: Scene) -> bool {
    &&& forall|path: FsPath, depth: usize|
        (#[trigger] (scene.world.stat)(path, depth)) is Ok ==> is_entry_of(
            (scene.world.stat)(path, depth)->Ok_0@,
            path,
            depth,
        )
    &&& forall|path: FsPath, depth: usize|
        (#[trigger] (scene.world.describe)(path, depth)) is Ok ==> is_entry_of(
            (scene.world.describe)(path, depth)->Ok_0@,
            path,
            depth,
        )
}

/// Whether a tree hangs together: its root lies at the given depth, and the children of a
/// node lie one deeper than the node, for at most so many levels.
pub open spec fn has_depths(tree: TreeView, depth: int, levels: nat) -> bool
    decreases levels,
{
    &&& tree.entry.depth == depth
    &&& forall|i: int|
        0 <= i < tree.children.len() ==> levels > 0 && has_depths(
            #[trigger] tree.children[i],
            depth + 1,
            (levels - 1) as nat,
        )
}

/// Whether no node lies deeper than a limit, and those that lie at it have no children, in a
/// tree of at most so many levels below its root.
pub open spec fn stays_above(tree: TreeView, limit: int, levels: nat) -> bool
    decreases levels,
{
    &&& tree.entry.depth <= limit
    &&& tree.entry.depth == limit ==> tree.children.len() == 0
    &&& forall|i: int|
        0 <= i < tree.children.len() ==> levels > 0 && stays_above(
            #[trigger] tree.children[i],
            limit,
            (levels - 1) as nat,
        )
}

proof fn lemma_stays_above(tree: TreeView, depth: int, levels: nat)
    requires
        has_depths(tree, depth, levels),
    ensures
        stays_above(tree, depth + levels, levels),
    decreases levels,
{
    if levels == 0 && tree.children.len() > 0 {
        assert(has_depths(tree.children[0], depth + 1, 0));
    }
    assert forall|i: int| 0 <= i < tree.children.len() implies levels > 0 && stays_above(
        #[trigger] tree.children[i],
        depth + levels,
        (levels - 1) as nat,
    ) by {
        lemma_stays_above(tree.children[i], depth + 1, (levels - 1) as nat);
    }
}

proof fn lemma_node_depths(scene: Scene, visit: VisitView, tally: Tally)
    requires
        describes_faithfully(scene),
    ensures
        scene.node(visit, tally).0 is Some ==> has_depths(
            scene.node(visit, tally).0->Some_0,
            visit.depth as int,
            levels_below(scene.config, visit.depth),
        ),
    decreases MAX_INTERNAL_DEPTH - visit.depth, 1nat, 0nat,
{
    let world = scene.world;
    let path = visit.path;
    let levels = levels_below(scene.config, visit.depth);
    if visit.depth < MAX_INTERNAL_DEPTH && (world.stat)(path, visit.depth) is Ok {
        let entry = (world.stat)(path, visit.depth)->Ok_0@;
        assert(is_entry_of(entry, path, visit.depth));
        if is_opened(scene, visit, tally) {
            let items = (world.list)(path)->Entries_0@;
            let entered = tally.with_visited((world.identity)(path)@);
            let inside = visit.with_rules((world.rules)(path));
            lemma_children_depths(scene, inside, items, Seq::empty(), entered);
            let nodes = scene.children(inside, items, Seq::empty(), entered).0;
            if let Some(tree) = scene.node(visit, tally).0 {
                assert forall|i: int| 0 <= i < tree.children.len() implies levels > 0
                    && has_depths(
                    #[trigger] tree.children[i],
                    visit.depth + 1,
                    (levels - 1) as nat,
                ) by {
                    assert(tree.children[i] == nodes[i]);
                }
            }
        } else if let Some(tree) = scene.node(visit, tally).0 {
            assert(tree.children.len() == 0);
        }
    }
}

proof fn lemma_children_depths(
    scene: Scene,
    visit: VisitView,
    items: Seq<DirItem>,
    nodes: Seq<TreeView>,
    tally: Tally,
)
    requires
        describes_faithfully(scene),
        visit.depth < depth_limit(scene.config),
        forall|i: int|
            0 <= i < nodes.len() ==> has_depths(
                #[trigger] nodes[i],
                visit.depth + 1,
                (levels_below(scene.config, visit.depth) - 1) as nat,
            ),
    ensures
        ({
            let found = scene.children(visit, items, nodes, tally).0;
            forall|i: int|
                0 <= i < found.len() ==> has_depths(
                    #[trigger] found[i],
                    visit.depth + 1,
                    (levels_below(scene.config, visit.depth) - 1) as nat,
                )
        }),
    decreases MAX_INTERNAL_DEPTH - visit.depth, 0nat, items.len() + 1,
{
    if items.len() > 0 {
        let first = scene.child(visit, items[0], tally);
        let more = extended(nodes, first.0);
        lemma_child_depths(scene, visit, items[0], tally);
        assert forall|i: int| 0 <= i < more.len() implies has_depths(
            #[trigger] more[i],
            visit.depth + 1,
            (levels_below(scene.config, visit.depth) - 1) as nat,
        ) by {
            if i < nodes.len() {
                assert(more[i] == nodes[i]);
            }
        }
        lemma_children_depths(scene, visit, items.skip(1), more, first.1);
        assert(scene.children(visit, items, nodes, tally) == scene.children(
            visit,
            items.skip(1),
            more,
            first.1,
        ));
    }
}

proof fn lemma_child_depths(scene: Scene, visit: VisitView, item: DirItem, tally: Tally)
    requires
        describes_faithfully(scene),
        visit.depth < depth_limit(scene.config),
    ensures
        scene.child(visit, item, tally).0 is Some ==> has_depths(
            scene.child(visit, item, tally).0->Some_0,
            visit.depth + 1,
            (levels_below(scene.config, visit.depth) - 1) as nat,
        ),
    decreases MAX_INTERNAL_DEPTH - visit.depth, 0nat, 0nat,
{
    let world = scene.world;
    let depth = (visit.depth + 1) as usize;
    let levels = (levels_below(scene.config, visit.depth) - 1) as nat;
    let described = (world.describe)(item.path, depth);
    assert(described is Ok ==> is_entry_of(described->Ok_0@, item.path, depth));
    match child_plan(scene.config, item, visit.parent_matched, visit.ignore) {
        ChildPlan::CheckLink => {
            lemma_node_depths(scene, visit.child(item), tally);
        },
        ChildPlan::Descend => {
            lemma_node_depths(scene, visit.child(item), tally);
        },
        ChildPlan::File => {
            if let Ok(entry) = described {
                let streams = (world.streams)(item.path)@;
                let tree = file_tree(entry@, item.path, depth, scene.config.show_streams, streams);
                assert forall|i: int| 0 <= i < tree.children.len() implies levels > 0
                    && has_depths(#[trigger] tree.children[i], depth + 1, (levels - 1) as nat) by {
                    assert(tree.children[i].children.len() == 0);
                }
            }
        },
        _ => {},
    }
}

/// The node of a directory carries the depth at which the directory is visited, and every
/// node below it the depth of its parent and one. Where the depth is limited and streams are
/// not shown, no node lies deeper than the limit, and those that lie at it have no children.
pub proof fn nodes_carry_their_depths(scene: Scene, visit: VisitView, tally: Tally)
    requires
        describes_faithfully(scene),
        scene.node(visit, tally).0 is Some,
    ensures
        ({
            let tree = scene.node(visit, tally).0->Some_0;
            let levels = levels_below(scene.config, visit.depth);
            &&& has_depths(tree, visit.depth as int, levels)
            &&& visit.depth <= depth_limit(scene.config) && !scene.config.show_streams ==> stays_above(
                tree,
                depth_limit(scene.config) as int,
                levels,
            )
        }),
{
    let tree = scene.node(visit, tally).0->Some_0;
    let levels = levels_below(scene.config, visit.depth);
    lemma_node_depths(scene, visit, tally);
    lemma_stays_above(tree, visit.depth as int, levels);
}

/// Whether the entries of a directory lie directly below it, and no two have the same path.
pub open spec fn lists_its_own(dir: Seq<Part>, items: Seq<DirItem>) -> bool {
    &&& forall|i: int|
        0 <= i < items.len() ==> (#[trigger] items[i]).path@.len() == dir.len() + 1 && starts_with(
            items[i].path@,
            dir,
        )
    &&& forall|i: int, j: int|
        0 <= i < j < items.len() ==> (#[trigger] items[i]).path@ != (#[trigger] items[j]).path@
}

/// Whether the file system lists every directory so.
pub open spec fn lists_faithfully(scene: Scene) -> bool {
    forall|dir: FsPath|
        (#[trigger] (scene.world.list)(dir)) is Entries ==> lists_its_own(
            dir@,
            (scene.world.list)(dir)->Entries_0@,
        )
}

/// Whether an entry is at its own path. A stream is at the path of the file that it belongs
/// to.
pub open spec fn has_own_path(entry: EntryView) -> bool {
    entry.entry_type !is Stream
}

/// Whether no two entries are at the same path.
pub open spec fn at_distinct_paths(entries: Seq<EntryView>) -> bool {
    forall|i: int, j: int|
        0 <= i < j < entries.len() && has_own_path(#[trigger] entries[i]) && has_own_path(
            #[trigger] entries[j],
        ) ==> entries[i].path@ != entries[j].path@
}

/// Whether every entry lies at or below one of the given items.
pub open spec fn lie_under(entries: Seq<EntryView>, items: Seq<DirItem>) -> bool {
    forall|i: int|
        0 <= i < entries.len() && has_own_path(#[trigger] entries[i]) ==> exists|k: int|
            0 <= k < items.len() && starts_with(entries[i].path@, (#[trigger] items[k]).path@)
}

/// Whether every entry lies at or below a path.
pub open spec fn lie_within(entries: Seq<EntryView>, path: Seq<Part>) -> bool {
    forall|i: int|
        0 <= i < entries.len() && has_own_path(#[trigger] entries[i]) ==> starts_with(
            entries[i].path@,
            path,
        )
}

/// Entries under some items and entries under another one lie apart.
proof fn lemma_apart(
    dir: Seq<Part>,
    items: Seq<DirItem>,
    at: int,
    front: Seq<EntryView>,
    back: Seq<EntryView>,
)
    requires
        lists_its_own(dir, items),
        0 <= at < items.len(),
        at_distinct_paths(front),
        at_distinct_paths(back),
        lie_under(front, items.take(at)),
        lie_within(back, items[at].path@),
    ensures
        at_distinct_paths(front + back),
        lie_under(front + back, items.take(at + 1)),
{
    let both = front + back;
    assert forall|i: int, j: int|
        0 <= i < j < both.len() && has_own_path(#[trigger] both[i]) && has_own_path(
            #[trigger] both[j],
        ) implies both[i].path@ != both[j].path@ by {
        if j < front.len() {
            assert(front[i] == both[i] && front[j] == both[j]);
        } else if i >= front.len() {
            assert(back[i - front.len()] == both[i] && back[j - front.len()] == both[j]);
        } else {
            assert(front[i] == both[i] && back[j - front.len()] == both[j]);
            let k = choose|k: int|
                0 <= k < items.take(at).len() && starts_with(
                    front[i].path@,
                    (#[trigger] items.take(at)[k]).path@,
                );
            assert(items.take(at)[k] == items[k]);
            assert(items[k].path@ != items[at].path@);
        }
    }
    assert forall|i: int| 0 <= i < both.len() && has_own_path(#[trigger] both[i]) implies exists|
        k: int,
    |
        0 <= k < items.take(at + 1).len() && starts_with(
            both[i].path@,
            (#[trigger] items.take(at + 1)[k]).path@,
        ) by {
        if i < front.len() {
            assert(front[i] == both[i]);
            let k = choose|k: int|
                0 <= k < items.take(at).len() && starts_with(
                    front[i].path@,
                    (#[trigger] items.take(at)[k]).path@,
                );
            assert(items.take(at + 1)[k] == items.take(at)[k]);
        } else {
            assert(back[i - front.len()] == both[i]);
            assert(items.take(at + 1)[at] == items[at]);
        }
    }
}

/// The entries of a node, in front of those below it.
proof fn lemma_topped(dir: Seq<Part>, items: Seq<DirItem>, top: EntryView, below: Seq<EntryView>)
    requires
        lists_its_own(dir, items),
        top.path@ == dir,
        at_distinct_paths(below),
        lie_under(below, items),
    ensures
        at_distinct_paths(seq![top] + below),
        lie_within(seq![top] + below, dir),
{
    let all = seq![top] + below;
    assert(dir.take(dir.len() as int) =~= dir);
    assert forall|i: int| 0 <= i < below.len() && has_own_path(#[trigger] below[i]) implies
        below[i].path@.len() > dir.len() && starts_with(below[i].path@, dir) by {
        let k = choose|k: int|
            0 <= k < items.len() && starts_with(below[i].path@, (#[trigger] items[k]).path@);
        assert(below[i].path@.take(dir.len() as int) =~= items[k].path@.take(dir.len() as int));
    }
    assert forall|i: int, j: int|
        0 <= i < j < all.len() && has_own_path(#[trigger] all[i]) && has_own_path(
            #[trigger] all[j],
        ) implies all[i].path@ != all[j].path@ by {
        assert(all[j] == below[j - 1]);
        if i > 0 {
            assert(all[i] == below[i - 1]);
        }
    }
    assert forall|i: int| 0 <= i < all.len() && has_own_path(#[trigger] all[i]) implies starts_with(
        all[i].path@,
        dir,
    ) by {
        if i > 0 {
            assert(all[i] == below[i - 1]);
        }
    }
}

proof fn lemma_leaf_alone(entry: EntryView, path: Seq<Part>)
    requires
        entry.path@ == path,
    ensures
        at_distinct_paths(flat(leaf(entry))),
        lie_within(flat(leaf(entry)), path),
{
    lemma_flat_leaf(entry);
    assert(path.take(path.len() as int) =~= path);
}

proof fn lemma_node_paths(scene: Scene, visit: VisitView, tally: Tally)
    requires
        describes_faithfully(scene),
        lists_faithfully(scene),
    ensures
        scene.node(visit, tally).0 is Some ==> at_distinct_paths(
            flat(scene.node(visit, tally).0->Some_0),
        ) && lie_within(flat(scene.node(visit, tally).0->Some_0), visit.path@),
    decreases MAX_INTERNAL_DEPTH - visit.depth, 1nat, 0nat,
{
    let world = scene.world;
    let path = visit.path;
    if visit.depth < MAX_INTERNAL_DEPTH && (world.stat)(path, visit.depth) is Ok {
        let entry = (world.stat)(path, visit.depth)->Ok_0@;
        assert(is_entry_of(entry, path, visit.depth));
        if is_opened(scene, visit, tally) {
            let items = (world.list)(path)->Entries_0@;
            let entered = tally.with_visited((world.identity)(path)@);
            let inside = visit.with_rules((world.rules)(path));
            assert(lists_its_own(path@, items));
            assert(items.skip(0) =~= items);
            assert(items.take(items.len() as int) =~= items);
            assert(flat_all(Seq::<TreeView>::empty()) =~= Seq::empty());
            lemma_children_paths(scene, inside, items, 0, Seq::empty(), entered);
            let nodes = scene.children(inside, items, Seq::empty(), entered).0;
            lemma_topped(path@, items, bare(entry), flat_all(nodes));
            if let Some(tree) = scene.node(visit, tally).0 {
                assert(tree == TreeView { entry, children: nodes });
            }
        } else if let Some(tree) = scene.node(visit, tally).0 {
            assert(tree.children =~= Seq::empty());
            assert(tree == leaf(tree.entry));
            lemma_leaf_alone(tree.entry, path@);
        }
    }
}

proof fn lemma_children_paths(
    scene: Scene,
    visit: VisitView,
    items: Seq<DirItem>,
    at: int,
    nodes: Seq<TreeView>,
    tally: Tally,
)
    requires
        describes_faithfully(scene),
        lists_faithfully(scene),
        visit.depth < MAX_INTERNAL_DEPTH,
        lists_its_own(visit.path@, items),
        0 <= at <= items.len(),
        at_distinct_paths(flat_all(nodes)),
        lie_under(flat_all(nodes), items.take(at)),
    ensures
        ({
            let found = scene.children(visit, items.skip(at), nodes, tally).0;
            at_distinct_paths(flat_all(found)) && lie_under(flat_all(found), items)
        }),
    decreases MAX_INTERNAL_DEPTH - visit.depth, 0nat, items.len() - at + 1,
{
    if at == items.len() {
        assert(items.take(at) =~= items);
    } else {
        let rest = items.skip(at);
        assert(rest[0] == items[at]);
        assert(rest.skip(1) =~= items.skip(at + 1));
        let first = scene.child(visit, items[at], tally);
        let more = extended(nodes, first.0);
        let found = match first.0 {
            Some(tree) => flat(tree),
            None => Seq::empty(),
        };
        lemma_child_paths(scene, visit, items[at], tally);
        lemma_flat_extended(nodes, first.0);
        lemma_apart(visit.path@, items, at, flat_all(nodes), found);
        lemma_children_paths(scene, visit, items, at + 1, more, first.1);
    }
}

proof fn lemma_child_paths(scene: Scene, visit: VisitView, item: DirItem, tally: Tally)
    requires
        describes_faithfully(scene),
        lists_faithfully(scene),
        visit.depth < MAX_INTERNAL_DEPTH,
    ensures
        scene.child(visit, item, tally).0 is Some ==> at_distinct_paths(
            flat(scene.child(visit, item, tally).0->Some_0),
        ) && lie_within(flat(scene.child(visit, item, tally).0->Some_0), item.path@),
    decreases MAX_INTERNAL_DEPTH - visit.depth, 0nat, 0nat,
{
    let world = scene.world;
    let depth = (visit.depth + 1) as usize;
    let described = (world.describe)(item.path, depth);
    assert(described is Ok ==> is_entry_of(described->Ok_0@, item.path, depth));
    match child_plan(scene.config, item, visit.parent_matched, visit.ignore) {
        ChildPlan::CheckLink => {
            if tally.visited.contains((world.identity)(item.path)@) {
                if let Some(tree) = scene.child(visit, item, tally).0 {
                    lemma_leaf_alone(tree.entry, item.path@);
                }
            } else {
                lemma_node_paths(scene, visit.child(item), tally);
            }
        },
        ChildPlan::Descend => {
            lemma_node_paths(scene, visit.child(item), tally);
        },
        ChildPlan::File => {
            if let Ok(entry) = described {
                let streams = (world.streams)(item.path)@;
                let tree = file_tree(entry@, item.path, depth, scene.config.show_streams, streams);
                lemma_streams_flat(tree.children);
                let below = flat_all(tree.children);
                let all = flat(tree);
                assert forall|i: int| 0 < i < all.len() implies !has_own_path(
                    #[trigger] all[i],
                ) by {
                    assert(all[i] == below[i - 1]);
                }
                assert(item.path@.take(item.path@.len() as int) =~= item.path@);
            }
        },
        _ => {},
    }
}

proof fn lemma_streams_flat(trees: Seq<TreeView>)
    requires
        forall|i: int|
            0 <= i < trees.len() ==> !has_own_path((#[trigger] trees[i]).entry)
                && trees[i].children.len() == 0,
    ensures
        forall|i: int|
            0 <= i < flat_all(trees).len() ==> !has_own_path(#[trigger] flat_all(trees)[i]),
    decreases trees.len(),
{
    if trees.len() > 0 {
        let front = trees.subrange(0, trees.len() - 1);
        let last = trees[trees.len() - 1];
        assert forall|i: int| 0 <= i < front.len() implies !has_own_path(
            (#[trigger] front[i]).entry,
        ) && front[i].children.len() == 0 by {
            assert(front[i] == trees[i]);
        }
        lemma_streams_flat(front);
        assert(last.children =~= Seq::empty());
        assert(last == leaf(last.entry));
        lemma_flat_leaf(last.entry);
        let all = flat_all(trees);
        assert(all =~= flat_all(front) + flat(last));
        assert forall|i: int| 0 <= i < all.len() implies !has_own_path(#[trigger] all[i]) by {
            if i < flat_all(front).len() {
                assert(all[i] == flat_all(front)[i]);
            } else {
                assert(all[i] == bare(last.entry));
            }
        }
    }
}

/// No path is listed twice: the nodes of the tree that an ordered traversal finds are all at
/// different paths, streams aside, which are listed below their files. That is so where the
/// file system describes what it is asked about, and lists entries directly below their
/// directory and none of them twice.
pub proof fn no_path_is_listed_twice(scene: Scene, root: FsPath, ignore: IgnoreView)
    requires
        describes_faithfully(scene),
        lists_faithfully(scene),
        scene.traversal(root, ignore).0 is Some,
    ensures
        at_distinct_paths(flat(scene.traversal(root, ignore).0->Some_0)),
        lie_within(flat(scene.traversal(root, ignore).0->Some_0), root@),
{
    let nothing = Tally { errors: Seq::empty(), visited: Set::empty() };
    let visit = VisitView { path: root, depth: 0, included: false, parent_matched: false, ignore };
    let begun = match boundary_error(scene.config, root, scene.root_device) {
        Some(error) => nothing.with_error(error),
        None => nothing,
    };
    lemma_node_paths(scene, visit, begun);
}

} // verus!
