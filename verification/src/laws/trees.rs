//! What holds of the trees that traversals find.

use crate::config::Config;
use crate::descend::{boundary_error, descend_verdict, MAX_INTERNAL_DEPTH};
use crate::engine::is_truncated;
use crate::entry::{file_tree, leaf, TreeView};
use crate::filter::{filter_verdict, wants_link_targets};
use crate::ignoring::IgnoreView;
use crate::laws::output::with_limit;
use crate::laws::walking::{
    extends, lemma_extends_itself, lemma_extends_on, lemma_extends_push,
};
use crate::listing::{DirItem, ReadDirResult};
use crate::node::{child_plan, ChildPlan};
use crate::ordered_model::{extended, Scene, Tally};
use crate::path::FsPath;
use crate::streaming::listed_items;
use crate::walk::VisitView;
use vstd::prelude::*;

verus! {

/// Whether a tree has at most so many levels below its root.
pub open spec fn fits_below(tree: TreeView, levels: nat) -> bool
    decreases levels,
{
    forall|i: int|
        0 <= i < tree.children.len() ==> levels > 0 && fits_below(
            #[trigger] tree.children[i],
            (levels - 1) as nat,
        )
}

/// The depth at which directories are not entered any more.
pub open spec fn depth_limit(config: Config) -> nat {
    match config.max_depth {
        Some(max) if max < MAX_INTERNAL_DEPTH => max as nat,
        _ => MAX_INTERNAL_DEPTH as nat,
    }
}

/// How many levels there may be below a node at the given depth. Streams lie below the files
/// that they belong to, beyond the limit.
pub open spec fn levels_below(config: Config, depth: usize) -> nat {
    if depth >= depth_limit(config) {
        if config.show_streams {
            1
        } else {
            0
        }
    } else {
        (depth_limit(config) - depth + if config.show_streams {
            1int
        } else {
            0int
        }) as nat
    }
}

proof fn lemma_node_fits(scene: Scene, visit: VisitView, tally: Tally)
    requires
        visit.depth <= depth_limit(scene.config),
    ensures
        scene.node(visit, tally).0 is Some ==> fits_below(
            scene.node(visit, tally).0->Some_0,
            levels_below(scene.config, visit.depth),
        ),
    decreases MAX_INTERNAL_DEPTH - visit.depth, 1nat, 0nat,
{
    let world = scene.world;
    let path = visit.path;
    if visit.depth < MAX_INTERNAL_DEPTH && (world.stat)(path, visit.depth) is Ok {
        let entry = (world.stat)(path, visit.depth)->Ok_0@;
        let verdict = descend_verdict(
            entry.entry_type,
            path,
            visit.depth,
            scene.config,
            scene.root_device,
            (world.volume)(path),
        );
        if verdict is Proceed {
            if let ReadDirResult::Entries(items) = (world.list)(path) {
                let entered = tally.with_visited((world.identity)(path)@);
                let inside = visit.with_rules((world.rules)(path));
                lemma_children_fit(scene, inside, items@, Seq::empty(), entered);
                let nodes = scene.children(inside, items@, Seq::empty(), entered).0;
                let levels = levels_below(scene.config, visit.depth);
                if let Some(tree) = scene.node(visit, tally).0 {
                    assert forall|i: int| 0 <= i < tree.children.len() implies levels > 0
                        && fits_below(#[trigger] tree.children[i], (levels - 1) as nat) by {
                        if !tally.visited.contains((world.identity)(path)@) {
                            assert(tree.children[i] == nodes[i]);
                        }
                    }
                }
            }
        }
    }
}

proof fn lemma_children_fit(
    scene: Scene,
    visit: VisitView,
    items: Seq<DirItem>,
    nodes: Seq<TreeView>,
    tally: Tally,
)
    requires
        visit.depth < depth_limit(scene.config),
        forall|i: int|
            0 <= i < nodes.len() ==> fits_below(
                #[trigger] nodes[i],
                (levels_below(scene.config, visit.depth) - 1) as nat,
            ),
    ensures
        ({
            let found = scene.children(visit, items, nodes, tally).0;
            forall|i: int|
                0 <= i < found.len() ==> fits_below(
                    #[trigger] found[i],
                    (levels_below(scene.config, visit.depth) - 1) as nat,
                )
        }),
    decreases MAX_INTERNAL_DEPTH - visit.depth, 0nat, items.len() + 1,
{
    if items.len() > 0 {
        let first = scene.child(visit, items[0], tally);
        let more = extended(nodes, first.0);
        lemma_child_fits(scene, visit, items[0], tally);
        assert forall|i: int| 0 <= i < more.len() implies fits_below(
            #[trigger] more[i],
            (levels_below(scene.config, visit.depth) - 1) as nat,
        ) by {
            if i < nodes.len() {
                assert(more[i] == nodes[i]);
            }
        }
        lemma_children_fit(scene, visit, items.skip(1), more, first.1);
        assert(scene.children(visit, items, nodes, tally) == scene.children(
            visit,
            items.skip(1),
            more,
            first.1,
        ));
    }
}

proof fn lemma_child_fits(scene: Scene, visit: VisitView, item: DirItem, tally: Tally)
    requires
        visit.depth < depth_limit(scene.config),
    ensures
        scene.child(visit, item, tally).0 is Some ==> fits_below(
            scene.child(visit, item, tally).0->Some_0,
            (levels_below(scene.config, visit.depth) - 1) as nat,
        ),
    decreases MAX_INTERNAL_DEPTH - visit.depth, 0nat, 0nat,
{
    let world = scene.world;
    let depth = (visit.depth + 1) as usize;
    match child_plan(scene.config, item, visit.parent_matched, visit.ignore) {
        ChildPlan::CheckLink => {
            lemma_node_fits(scene, visit.child(item), tally);
        },
        ChildPlan::Descend => {
            lemma_node_fits(scene, visit.child(item), tally);
        },
        ChildPlan::File => {
            if let Ok(entry) = (world.describe)(item.path, depth) {
                let streams = (world.streams)(item.path)@;
                let tree = file_tree(entry@, item.path, depth, scene.config.show_streams, streams);
                let levels = (levels_below(scene.config, visit.depth) - 1) as nat;
                assert forall|i: int| 0 <= i < tree.children.len() implies levels > 0
                    && fits_below(#[trigger] tree.children[i], (levels - 1) as nat) by {
                    assert(tree.children[i].children.len() == 0);
                }
            }
        },
        _ => {},
    }
}

/// The tree that an ordered traversal finds has no more levels than the depth limit allows,
/// the one of the options or the internal one.
pub proof fn depth_limit_holds(scene: Scene, root: FsPath, ignore: IgnoreView)
    requires
        scene.traversal(root, ignore).0 is Some,
    ensures
        fits_below(
            scene.traversal(root, ignore).0->Some_0,
            levels_below(scene.config, 0),
        ),
{
    let nothing = Tally { errors: Seq::empty(), visited: Set::empty() };
    let visit = VisitView { path: root, depth: 0, included: false, parent_matched: false, ignore };
    let begun = match boundary_error(scene.config, root, scene.root_device) {
        Some(error) => nothing.with_error(error),
        None => nothing,
    };
    lemma_node_fits(scene, visit, begun);
}

/// Whether a visit comes to the entries of its directory.
pub open spec fn is_opened(scene: Scene, visit: VisitView, tally: Tally) -> bool {
    let path = visit.path;
    &&& visit.depth < MAX_INTERNAL_DEPTH
    &&& (scene.world.stat)(path, visit.depth) is Ok
    &&& descend_verdict(
        (scene.world.stat)(path, visit.depth)->Ok_0.entry_type,
        path,
        visit.depth,
        scene.config,
        scene.root_device,
        (scene.world.volume)(path),
    ) is Proceed
    &&& !tally.visited.contains((scene.world.identity)(path)@)
    &&& (scene.world.list)(path) is Entries
}

impl Scene {
    /// Whether a visit finds a directory that is opened, and below it only such directories:
    /// whatever is listed there is a directory or a link that leads to one, is opened too, and
    /// does not match the include pattern.
    pub open spec fn holds_only_directories(self, visit: VisitView, tally: Tally) -> bool
        decreases MAX_INTERNAL_DEPTH - visit.depth, 1nat, 0nat,
    {
        let path = visit.path;
        &&& visit.depth < MAX_INTERNAL_DEPTH
        &&& is_opened(self, visit, tally)
        &&& self.lists_only_directories(
            visit.with_rules((self.world.rules)(path)),
            (self.world.list)(path)->Entries_0@,
            tally.with_visited((self.world.identity)(path)@),
        )
    }

    /// The same of the entries of a directory.
    pub open spec fn lists_only_directories(
        self,
        visit: VisitView,
        items: Seq<DirItem>,
        tally: Tally,
    ) -> bool
        decreases MAX_INTERNAL_DEPTH - visit.depth, 0nat, items.len(),
        when visit.depth < MAX_INTERNAL_DEPTH
    {
        items.len() == 0 || {
            &&& self.is_only_directories(visit, items[0], tally)
            &&& self.lists_only_directories(
                visit,
                items.skip(1),
                self.child(visit, items[0], tally).1,
            )
        }
    }

    /// The same of an entry of a directory. One that is not listed does not count.
    pub open spec fn is_only_directories(
        self,
        visit: VisitView,
        item: DirItem,
        tally: Tally,
    ) -> bool
        decreases MAX_INTERNAL_DEPTH - visit.depth, 0nat, 0nat,
        when visit.depth < MAX_INTERNAL_DEPTH
    {
        match child_plan(self.config, item, visit.parent_matched, visit.ignore) {
            ChildPlan::Skip => true,
            ChildPlan::Reserved => true,
            ChildPlan::CheckLink => {
                &&& !item.dir_included
                &&& !tally.visited.contains((self.world.identity)(item.path)@)
                &&& self.holds_only_directories(visit.child(item), tally)
            },
            ChildPlan::Descend => !item.dir_included && self.holds_only_directories(
                visit.child(item),
                tally,
            ),
            ChildPlan::File => false,
        }
    }
}

/// Where pruning is asked for, directories below which only directories lie are left out, to
/// any depth, unless they match the include pattern. Of a root below which only directories
/// lie, the root alone is left.
pub proof fn pruning_cascades(scene: Scene, visit: VisitView, tally: Tally)
    requires
        scene.config.prune,
        scene.holds_only_directories(visit, tally),
    ensures
        visit.depth > 0 && !visit.included ==> scene.node(visit, tally).0 is None,
        visit.depth == 0 || visit.included ==> scene.node(visit, tally).0 == Some(
            leaf((scene.world.stat)(visit.path, visit.depth)->Ok_0@),
        ),
    decreases MAX_INTERNAL_DEPTH - visit.depth, 1nat, 0nat,
{
    let path = visit.path;
    let inside = visit.with_rules((scene.world.rules)(path));
    let items = (scene.world.list)(path)->Entries_0@;
    let entered = tally.with_visited((scene.world.identity)(path)@);
    lemma_childless(scene, inside, items, entered);
    let nodes = scene.children(inside, items, Seq::empty(), entered).0;
    assert(nodes =~= Seq::empty());
}

proof fn lemma_childless(scene: Scene, visit: VisitView, items: Seq<DirItem>, tally: Tally)
    requires
        scene.config.prune,
        visit.depth < MAX_INTERNAL_DEPTH,
        scene.lists_only_directories(visit, items, tally),
    ensures
        scene.children(visit, items, Seq::empty(), tally).0.len() == 0,
    decreases MAX_INTERNAL_DEPTH - visit.depth, 0nat, items.len(),
{
    if items.len() > 0 {
        let first = scene.child(visit, items[0], tally);
        let child = visit.child(items[0]);
        assert(scene.is_only_directories(visit, items[0], tally));
        match child_plan(scene.config, items[0], visit.parent_matched, visit.ignore) {
            ChildPlan::CheckLink => {
                pruning_cascades(scene, child, tally);
            },
            ChildPlan::Descend => {
                pruning_cascades(scene, child, tally);
            },
            _ => {},
        }
        assert(first.0 is None);
        lemma_childless(scene, visit, items.skip(1), first.1);
    }
}

/// Where pruning is asked for, a directory below the root whose entries were visited stays
/// in the tree only if something was found in it or it matches the include pattern.
pub proof fn kept_directories_are_not_empty(scene: Scene, visit: VisitView, tally: Tally)
    requires
        scene.config.prune,
        visit.depth > 0,
        !visit.included,
        is_opened(scene, visit, tally),
        scene.node(visit, tally).0 is Some,
    ensures
        scene.node(visit, tally).0->Some_0.children.len() > 0,
{
}

/// The nodes of a directory come in the order of its entries: those of the first entries
/// come first.
pub proof fn nodes_come_in_order(
    scene: Scene,
    visit: VisitView,
    front: Seq<DirItem>,
    back: Seq<DirItem>,
    nodes: Seq<TreeView>,
    tally: Tally,
)
    requires
        visit.depth < MAX_INTERNAL_DEPTH,
    ensures
        ({
            let first = scene.children(visit, front, nodes, tally);
            let whole = scene.children(visit, front + back, nodes, tally);
            &&& whole == scene.children(visit, back, first.0, first.1)
            &&& extends(first.0, nodes)
            &&& extends(whole.0, first.0)
        }),
    decreases front.len() + back.len(),
{
    lemma_extends_itself(nodes);
    if front.len() > 0 {
        let child = scene.child(visit, front[0], tally);
        let more = extended(nodes, child.0);
        assert((front + back).skip(1) =~= front.skip(1) + back);
        nodes_come_in_order(scene, visit, front.skip(1), back, more, child.1);
        if child.0 is Some {
            lemma_extends_push(nodes, child.0->Some_0);
        }
        lemma_extends_on(nodes, more, scene.children(visit, front, nodes, tally).0);
    } else {
        assert(front + back =~= back);
        if back.len() > 0 {
            let none = Seq::<DirItem>::empty();
            let child = scene.child(visit, back[0], tally);
            let more = extended(nodes, child.0);
            assert(none + back.skip(1) =~= back.skip(1));
            nodes_come_in_order(scene, visit, none, back.skip(1), more, child.1);
            if child.0 is Some {
                lemma_extends_push(nodes, child.0->Some_0);
            }
            lemma_extends_on(nodes, more, scene.children(visit, back, nodes, tally).0);
        }
    }
}

/// A directory has at most one node for each of its entries.
pub proof fn an_entry_has_at_most_one_node(
    scene: Scene,
    visit: VisitView,
    items: Seq<DirItem>,
    nodes: Seq<TreeView>,
    tally: Tally,
)
    requires
        visit.depth < MAX_INTERNAL_DEPTH,
    ensures
        nodes.len() <= scene.children(visit, items, nodes, tally).0.len() <= nodes.len()
            + items.len(),
    decreases items.len(),
{
    if items.len() > 0 {
        let first = scene.child(visit, items[0], tally);
        an_entry_has_at_most_one_node(
            scene,
            visit,
            items.skip(1),
            extended(nodes, first.0),
            first.1,
        );
    }
}

/// Entries that the filters exclude leave no trace: no node, no error, nothing visited.
pub proof fn excluded_entries_leave_no_trace(
    scene: Scene,
    visit: VisitView,
    item: DirItem,
    tally: Tally,
)
    requires
        visit.depth < MAX_INTERNAL_DEPTH,
        filter_verdict(scene.config, item, visit.parent_matched, visit.ignore) is Exclude,
    ensures
        scene.child(visit, item, tally) == (None::<TreeView>, tally),
{
}

/// No entry is listed that ignore rules ignore, and none whose name starts with a dot unless
/// the options say so.
pub proof fn ignored_entries_are_not_listed(
    config: Config,
    parent_matched: bool,
    ignore: IgnoreView,
    item: DirItem,
)
    requires
        ignore.ignores(item.path@, item.is_listed_dir(config)) || (!config.show_all
            && item.is_hidden()),
    ensures
        filter_verdict(config, item, parent_matched, ignore) is Exclude,
{
}

/// A streaming traversal lists the same entries as an ordered one.
pub proof fn both_engines_list_the_same(
    config: Config,
    parent_matched: bool,
    ignore: IgnoreView,
    items: Seq<DirItem>,
    item: DirItem,
)
    ensures
        listed_items(config, parent_matched, ignore, items).contains(item) == (items.contains(item)
            && !(child_plan(config, item, parent_matched, ignore) is Skip)
            && !(child_plan(config, item, parent_matched, ignore) is Reserved)),
    decreases items.len(),
{
    let listed = listed_items(config, parent_matched, ignore, items);
    if items.len() > 0 {
        let front = items.drop_last();
        let before = listed_items(config, parent_matched, ignore, front);
        both_engines_list_the_same(config, parent_matched, ignore, front, item);
        assert(items =~= front.push(items.last()));
        assert(items.contains(item) == (front.contains(item) || items.last() == item)) by {
            if front.contains(item) {
                let i = front.index_of(item);
                assert(items[i] == item);
            }
            if items.last() == item {
                assert(items[items.len() - 1] == item);
            }
        }
        if filter_verdict(config, items.last(), parent_matched, ignore) is Include {
            assert(listed == before.push(items.last()));
            assert(listed.contains(item) == (before.contains(item) || items.last() == item)) by {
                if before.contains(item) {
                    let i = before.index_of(item);
                    assert(listed[i] == item);
                }
                if items.last() == item {
                    assert(listed[before.len() as int] == item);
                }
            }
        }
    }
}

/// Where filtering does not read where links lead, it makes no difference where they lead.
pub proof fn link_targets_do_not_matter(
    config: Config,
    item: DirItem,
    link_to_dir: bool,
    parent_matched: bool,
    ignore: IgnoreView,
)
    requires
        !wants_link_targets(config),
    ensures
        filter_verdict(config, item, parent_matched, ignore) == filter_verdict(
            config,
            DirItem { link_to_dir, ..item },
            parent_matched,
            ignore,
        ),
{
}

proof fn lemma_node_unlimited(
    scene: Scene,
    max_entries: Option<usize>,
    visit: VisitView,
    tally: Tally,
)
    ensures
        with_limit(scene, max_entries).node(visit, tally) == scene.node(visit, tally),
    decreases MAX_INTERNAL_DEPTH - visit.depth, 1nat, 0nat,
{
    let limited = with_limit(scene, max_entries);
    let path = visit.path;
    if is_opened(scene, visit, tally) {
        assert(is_opened(limited, visit, tally));
        let inside = visit.with_rules((scene.world.rules)(path));
        let items = (scene.world.list)(path)->Entries_0@;
        let entered = tally.with_visited((scene.world.identity)(path)@);
        lemma_children_unlimited(scene, max_entries, inside, items, Seq::empty(), entered);
    }
}

proof fn lemma_children_unlimited(
    scene: Scene,
    max_entries: Option<usize>,
    visit: VisitView,
    items: Seq<DirItem>,
    nodes: Seq<TreeView>,
    tally: Tally,
)
    requires
        visit.depth < MAX_INTERNAL_DEPTH,
    ensures
        with_limit(scene, max_entries).children(visit, items, nodes, tally) == scene.children(
            visit,
            items,
            nodes,
            tally,
        ),
    decreases MAX_INTERNAL_DEPTH - visit.depth, 0nat, items.len(),
{
    if items.len() > 0 {
        let limited = with_limit(scene, max_entries);
        let item = items[0];
        let first = scene.child(visit, item, tally);
        assert(child_plan(limited.config, item, visit.parent_matched, visit.ignore) == child_plan(
            scene.config,
            item,
            visit.parent_matched,
            visit.ignore,
        ));
        lemma_node_unlimited(scene, max_entries, visit.child(item), tally);
        assert(limited.child(visit, item, tally) == first);
        let more = extended(nodes, first.0);
        lemma_children_unlimited(scene, max_entries, visit, items.skip(1), more, first.1);
        assert(limited.children(visit, items, nodes, tally) == limited.children(
            visit,
            items.skip(1),
            more,
            first.1,
        ));
    }
}

/// A limit on the number of entries changes neither the tree that an ordered traversal finds
/// nor the errors that it meets: what is beyond the limit is left out when the tree is shown.
pub proof fn limit_leaves_the_tree_alone(
    scene: Scene,
    max_entries: Option<usize>,
    root: FsPath,
    ignore: IgnoreView,
)
    ensures
        with_limit(scene, max_entries).traversal(root, ignore) == scene.traversal(root, ignore),
{
    let nothing = Tally { errors: Seq::empty(), visited: Set::empty() };
    let visit = VisitView { path: root, depth: 0, included: false, parent_matched: false, ignore };
    let begun = match boundary_error(scene.config, root, scene.root_device) {
        Some(error) => nothing.with_error(error),
        None => nothing,
    };
    lemma_node_unlimited(scene, max_entries, visit, begun);
}

/// A tree is marked as truncated exactly if it has more entries below its root than may be
/// shown; as many as may be shown are not too many.
pub proof fn only_more_than_the_limit_is_truncated(config: Config, tree: TreeView)
    requires
        tree.count() <= usize::MAX,
        config.max_entries is Some,
    ensures
        is_truncated(config, Some(tree)) == (tree.count() - 1 > config.max_entries->Some_0),
{
}

} // verus!
