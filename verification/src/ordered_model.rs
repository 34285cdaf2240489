//! The tree that an ordered traversal finds, as a recursive description, and the proof that
//! a walk arrives at it.

use crate::config::Config;
use crate::descend::{boundary_error, descend_verdict, DescendCheck, MAX_INTERNAL_DEPTH};
use crate::entry::{as_recursive, file_tree, leaf, EntryView, TreeView};
use crate::error::{io_error, TreeError};
use crate::ignoring::IgnoreView;
use crate::listing::{DirItem, ReadDirResult};
use crate::machine::{
    drives, leads, lemma_drives, lemma_leads_here, lemma_leads_next, lemma_leads_on, step, Machine,
};
use crate::node::{child_plan, finished, over_limit, ChildPlan};
use crate::path::FsPath;
use crate::protocol::{Ask, Reply, World};
use crate::visited::Key;
use crate::walk::{start_view, CoreView, FrameView, StageView, VisitView, WalkView};
use vstd::prelude::*;

verus! {

/// What a traversal has met so far: the errors, and the directories that it entered.
pub struct Tally {
    pub errors: Seq<TreeError>,
    pub visited: Set<Key>,
}

impl Tally {
    /// With an error reported.
    pub open spec fn with_error(self, error: TreeError) -> Tally {
        Tally { errors: self.errors.push(error), ..self }
    }

    /// With a directory entered.
    pub open spec fn with_visited(self, key: Key) -> Tally {
        Tally { visited: self.visited.insert(key), ..self }
    }
}

/// A sequence with an element added, if there is one.
pub open spec fn extended(nodes: Seq<TreeView>, node: Option<TreeView>) -> Seq<TreeView> {
    match node {
        Some(node) => nodes.push(node),
        None => nodes,
    }
}

/// What a traversal is about: the file system, the options, and the volume of the root.
pub struct Scene {
    pub world: World,
    pub config: Config,
    pub root_device: Option<u64>,
}

impl Scene {
    /// The node of a directory, and what the traversal has met once it is done with it.
    pub open spec fn node(self, visit: VisitView, tally: Tally) -> (Option<TreeView>, Tally)
        decreases MAX_INTERNAL_DEPTH - visit.depth, 1nat, 0nat,
    {
        let path = visit.path;
        if visit.depth >= MAX_INTERNAL_DEPTH {
            (None, tally.with_error(TreeError::MaxDepthExceeded(path)))
        } else {
            match (self.world.stat)(path, visit.depth) {
                Err(error) => (None, tally.with_error(error)),
                Ok(entry) => match descend_verdict(
                    entry.entry_type,
                    path,
                    visit.depth,
                    self.config,
                    self.root_device,
                    (self.world.volume)(path),
                ) {
                    DescendCheck::Leaf => (Some(leaf(entry@)), tally),
                    DescendCheck::LeafWithError(error) => (
                        Some(leaf(entry@)),
                        tally.with_error(error),
                    ),
                    DescendCheck::Proceed => {
                        let key = (self.world.identity)(path)@;
                        let entered = tally.with_visited(key);
                        if tally.visited.contains(key) {
                            (Some(leaf(as_recursive(entry@))), tally)
                        } else {
                            match (self.world.list)(path) {
                                ReadDirResult::ReadError(fault) => (
                                    Some(leaf(entry@)),
                                    entered.with_error(io_error(path, fault)),
                                ),
                                ReadDirResult::FilelimitExceeded(total) => (
                                    Some(leaf(over_limit(entry@, total))),
                                    entered,
                                ),
                                ReadDirResult::Entries(items) => {
                                    let inside = visit.with_rules((self.world.rules)(path));
                                    let found = self.children(
                                        inside,
                                        items@,
                                        Seq::empty(),
                                        entered,
                                    );
                                    (
                                        finished(
                                            self.config,
                                            visit.included,
                                            visit.depth,
                                            entry@,
                                            found.0,
                                        ),
                                        found.1,
                                    )
                                },
                            }
                        }
                    },
                },
            }
        }
    }

    /// The nodes of the entries of a directory, behind those already there.
    pub open spec fn children(
        self,
        visit: VisitView,
        items: Seq<DirItem>,
        nodes: Seq<TreeView>,
        tally: Tally,
    ) -> (Seq<TreeView>, Tally)
        decreases MAX_INTERNAL_DEPTH - visit.depth, 0nat, items.len(),
        when visit.depth < MAX_INTERNAL_DEPTH
    {
        if items.len() == 0 {
            (nodes, tally)
        } else {
            let first = self.child(visit, items[0], tally);
            self.children(visit, items.skip(1), extended(nodes, first.0), first.1)
        }
    }

    /// The node of an entry of a directory.
    pub open spec fn child(
        self,
        visit: VisitView,
        item: DirItem,
        tally: Tally,
    ) -> (Option<TreeView>, Tally)
        decreases MAX_INTERNAL_DEPTH - visit.depth, 0nat, 0nat,
        when visit.depth < MAX_INTERNAL_DEPTH
    {
        let depth = (visit.depth + 1) as usize;
        match child_plan(self.config, item, visit.parent_matched, visit.ignore) {
            ChildPlan::Skip => (None, tally),
            ChildPlan::Reserved => (None, tally.with_error(TreeError::ReservedName(item.path))),
            ChildPlan::CheckLink => if tally.visited.contains((self.world.identity)(item.path)@) {
                let looped = tally.with_error(TreeError::SymlinkLoop(item.path));
                match (self.world.describe)(item.path, depth) {
                    Ok(entry) => (Some(leaf(as_recursive(entry@))), looped),
                    Err(error) => (None, looped.with_error(error)),
                }
            } else {
                self.node(visit.child(item), tally)
            },
            ChildPlan::Descend => self.node(visit.child(item), tally),
            ChildPlan::File => match (self.world.describe)(item.path, depth) {
                Ok(entry) => (
                    Some(
                        file_tree(
                            entry@,
                            item.path,
                            depth,
                            self.config.show_streams,
                            (self.world.streams)(item.path)@,
                        ),
                    ),
                    tally,
                ),
                Err(error) => (None, tally.with_error(error)),
            },
        }
    }

    /// The tree below `root`, and what a traversal of it meets.
    pub open spec fn traversal(self, root: FsPath, ignore: IgnoreView) -> (Option<TreeView>, Tally) {
        let nothing = Tally { errors: Seq::empty(), visited: Set::empty() };
        self.node(
            VisitView { path: root, depth: 0, included: false, parent_matched: false, ignore },
            match boundary_error(self.config, root, self.root_device) {
                Some(error) => nothing.with_error(error),
                None => nothing,
            },
        )
    }
}

impl Machine for WalkView {
    open spec fn wanted(self) -> Option<Ask> {
        self.asks()
    }

    open spec fn moving(self) -> bool {
        self.is_busy()
    }

    open spec fn moved(self) -> WalkView {
        self.advance()
    }

    open spec fn told(self, reply: Reply) -> WalkView {
        self.answered(reply)
    }

    open spec fn rested(self) -> WalkView {
        self.settled()
    }

    proof fn rest(self) {
    }
}

/// The tally of a walk.
pub open spec fn tally_of(core: CoreView) -> Tally {
    Tally { errors: core.errors, visited: core.visited }
}

/// A walk with another tally.
pub open spec fn with_tally(core: CoreView, tally: Tally) -> CoreView {
    CoreView { errors: tally.errors, visited: tally.visited, ..core }
}

/// A walk that starts the visit of a directory comes to hand over its node.
proof fn lemma_node(scene: Scene, core: CoreView, visit: VisitView)
    requires
        core.config == scene.config,
        core.root_device == scene.root_device,
    ensures
        ({
            let found = scene.node(visit, tally_of(core));
            leads(
                scene.world,
                core.at(StageView::Enter(visit)),
                with_tally(core, found.1).at(StageView::Deliver(found.0)),
            )
        }),
    decreases MAX_INTERNAL_DEPTH - visit.depth, 2nat, 0nat,
{
    let world = scene.world;
    let found = scene.node(visit, tally_of(core));
    let goal = with_tally(core, found.1).at(StageView::Deliver(found.0));
    lemma_leads_here(world, goal);
    let at_enter = core.at(StageView::Enter(visit));
    if visit.depth >= MAX_INTERNAL_DEPTH {
        assert(step(world, at_enter) == goal);
        lemma_leads_next(world, at_enter, goal);
    } else {
        let at_stat = core.at(StageView::Stat(visit));
        assert(step(world, at_enter) == at_stat);
        let after_stat = step(world, at_stat);
        match (world.stat)(visit.path, visit.depth) {
            Err(error) => {
                assert(after_stat == goal);
            },
            Ok(entry) => {
                let at_volume = core.at(StageView::Volume(visit, entry@));
                let decided = core.on_volume(visit, entry@, (world.volume)(visit.path));
                if after_stat == at_volume {
                    assert(step(world, at_volume) == decided);
                } else {
                    assert(after_stat == decided);
                }
                lemma_decided(scene, core, visit, entry@);
                if after_stat == at_volume {
                    lemma_leads_next(world, at_volume, goal);
                }
            },
        }
        lemma_leads_next(world, at_stat, goal);
        lemma_leads_next(world, at_enter, goal);
    }
}

/// The part of `lemma_node` behind the decision whether to descend.
proof fn lemma_decided(scene: Scene, core: CoreView, visit: VisitView, entry: EntryView)
    requires
        core.config == scene.config,
        core.root_device == scene.root_device,
        visit.depth < MAX_INTERNAL_DEPTH,
        (scene.world.stat)(visit.path, visit.depth) is Ok,
        (scene.world.stat)(visit.path, visit.depth)->Ok_0@ == entry,
    ensures
        ({
            let found = scene.node(visit, tally_of(core));
            leads(
                scene.world,
                core.on_volume(visit, entry, (scene.world.volume)(visit.path)),
                with_tally(core, found.1).at(StageView::Deliver(found.0)),
            )
        }),
    decreases MAX_INTERNAL_DEPTH - visit.depth, 1nat, 0nat,
{
    let world = scene.world;
    let found = scene.node(visit, tally_of(core));
    let goal = with_tally(core, found.1).at(StageView::Deliver(found.0));
    lemma_leads_here(world, goal);
    let decided = core.on_volume(visit, entry, (world.volume)(visit.path));
    let verdict = descend_verdict(
        entry.entry_type,
        visit.path,
        visit.depth,
        scene.config,
        scene.root_device,
        (world.volume)(visit.path),
    );
    if verdict is Proceed {
        let key = (world.identity)(visit.path)@;
        assert(decided == core.at(StageView::Identity(visit, entry)));
        let identified = step(world, decided);
        if core.visited.contains(key) {
            assert(identified == goal);
        } else {
            let entered = core.with_visited(key);
            let at_list = entered.at(StageView::List(visit, entry));
            assert(identified == at_list);
            let listed = step(world, at_list);
            match (world.list)(visit.path) {
                ReadDirResult::Entries(items) => {
                    let inside = visit.with_rules((world.rules)(visit.path));
                    let opened = entered.open(inside, entry, items@);
                    let at_rules = entered.at(StageView::Rules(visit, entry, items@));
                    if visit.ignore.enabled {
                        assert(listed == at_rules);
                        assert(step(world, at_rules) == opened);
                    } else {
                        assert(inside == visit);
                        assert(listed == opened);
                    }
                    lemma_opened(scene, entered, inside, entry, items@);
                    let nodes = scene.children(inside, items@, Seq::empty(), tally_of(entered));
                    assert(tally_of(entered) == tally_of(core).with_visited(key));
                    assert(with_tally(entered, nodes.1) == with_tally(core, nodes.1));
                    if visit.ignore.enabled {
                        lemma_leads_next(world, at_rules, goal);
                    }
                },
                _ => {
                    assert(listed == goal);
                },
            }
            lemma_leads_next(world, at_list, goal);
        }
        lemma_leads_next(world, decided, goal);
    } else {
        assert(decided == goal);
    }
}

/// A walk that enters a directory comes to hand over its node.
proof fn lemma_opened(
    scene: Scene,
    core: CoreView,
    visit: VisitView,
    entry: EntryView,
    items: Seq<DirItem>,
)
    requires
        core.config == scene.config,
        core.root_device == scene.root_device,
        visit.depth < MAX_INTERNAL_DEPTH,
    ensures
        ({
            let nodes = scene.children(visit, items, Seq::empty(), tally_of(core));
            leads(
                scene.world,
                core.open(visit, entry, items),
                with_tally(core, nodes.1).at(
                    StageView::Deliver(
                        finished(scene.config, visit.included, visit.depth, entry, nodes.0),
                    ),
                ),
            )
        }),
    decreases MAX_INTERNAL_DEPTH - visit.depth, 0nat, items.len() + 2,
{
    let world = scene.world;
    let nodes = scene.children(visit, items, Seq::empty(), tally_of(core));
    let frame = FrameView { visit, entry, items, children: Seq::empty() };
    let inside = core.with_frame(frame);
    lemma_children(scene, inside);
    let last = FrameView { items: Seq::empty(), children: nodes.0, ..frame };
    let emptied = with_tally(inside.with_top(last), nodes.1).at(StageView::Next);
    let goal = with_tally(core, nodes.1).at(
        StageView::Deliver(finished(scene.config, visit.included, visit.depth, entry, nodes.0)),
    );
    assert(inside.frames.last() == frame);
    assert(inside.frames.drop_last() =~= core.frames);
    assert(emptied.core.frames.last() == last);
    assert(emptied.core.frames.drop_last() =~= core.frames);
    assert(step(world, emptied) == goal);
    lemma_leads_here(world, goal);
    lemma_leads_next(world, emptied, goal);
    lemma_leads_on(world, inside.at(StageView::Next), emptied, goal);
}

/// A walk inside a directory comes to have visited all its entries.
proof fn lemma_children(scene: Scene, core: CoreView)
    requires
        core.config == scene.config,
        core.root_device == scene.root_device,
        core.frames.len() > 0,
        core.frames.last().visit.depth < MAX_INTERNAL_DEPTH,
    ensures
        ({
            let top = core.frames.last();
            let nodes = scene.children(top.visit, top.items, top.children, tally_of(core));
            leads(
                scene.world,
                core.at(StageView::Next),
                with_tally(
                    core.with_top(FrameView { items: Seq::empty(), children: nodes.0, ..top }),
                    nodes.1,
                ).at(StageView::Next),
            )
        }),
    decreases
        MAX_INTERNAL_DEPTH - core.frames.last().visit.depth,
        0nat,
        core.frames.last().items.len() + 1,
{
    let world = scene.world;
    let top = core.frames.last();
    let nodes = scene.children(top.visit, top.items, top.children, tally_of(core));
    let last = FrameView { items: Seq::empty(), children: nodes.0, ..top };
    let goal = with_tally(core.with_top(last), nodes.1).at(StageView::Next);
    if top.items.len() == 0 {
        assert(top.items =~= Seq::empty());
        assert(last == top);
        assert(core.frames.drop_last().push(top) =~= core.frames);
        assert(goal == core.at(StageView::Next));
        lemma_leads_here(world, goal);
    } else {
        let item = top.items[0];
        let rest = top.without_next();
        let taken = core.with_top(rest);
        assert(taken.frames.last() == rest);
        assert(taken.frames.drop_last() =~= core.frames.drop_last());
        assert(step(world, core.at(StageView::Next)) == taken.plan(top.visit, item));
        lemma_child(scene, taken, item);
        let first = scene.child(top.visit, item, tally_of(core));
        assert(tally_of(taken) == tally_of(core));
        let grown = rest.with_child(first.0);
        let after = with_tally(taken.with_top(grown), first.1);
        assert(after.frames.last() == grown);
        assert(after.frames.drop_last() =~= core.frames.drop_last());
        lemma_children(scene, after);
        assert(grown.children == extended(top.children, first.0));
        let remaining = scene.children(grown.visit, grown.items, grown.children, tally_of(after));
        assert(tally_of(after) == first.1);
        assert(remaining == nodes);
        assert(FrameView { items: Seq::empty(), children: nodes.0, ..grown } == last);
        assert(with_tally(after.with_top(last), nodes.1).at(StageView::Next) == goal);
        lemma_leads_on(
            world,
            taken.plan(top.visit, item),
            after.at(StageView::Next),
            goal,
        );
        lemma_leads_next(world, core.at(StageView::Next), goal);
    }
}

/// A walk that decides about an entry comes to have its node, if there is one.
proof fn lemma_child(scene: Scene, core: CoreView, item: DirItem)
    requires
        core.config == scene.config,
        core.root_device == scene.root_device,
        core.frames.len() > 0,
        core.frames.last().visit.depth < MAX_INTERNAL_DEPTH,
    ensures
        ({
            let top = core.frames.last();
            let found = scene.child(top.visit, item, tally_of(core));
            leads(
                scene.world,
                core.plan(top.visit, item),
                with_tally(core.with_top(top.with_child(found.0)), found.1).at(StageView::Next),
            )
        }),
    decreases MAX_INTERNAL_DEPTH - core.frames.last().visit.depth, 0nat, 1nat,
{
    let world = scene.world;
    let top = core.frames.last();
    let visit = top.visit;
    let found = scene.child(visit, item, tally_of(core));
    let goal = with_tally(core.with_top(top.with_child(found.0)), found.1).at(StageView::Next);
    let planned = core.plan(visit, item);
    lemma_leads_here(world, goal);
    assert(core.frames.drop_last().push(top) =~= core.frames);
    assert(core.with_top(top) == core);
    match child_plan(scene.config, item, visit.parent_matched, visit.ignore) {
        ChildPlan::Skip => {
            assert(planned == goal);
        },
        ChildPlan::Reserved => {
            assert(planned == goal);
        },
        ChildPlan::CheckLink => {
            let identified = step(world, planned);
            if core.visited.contains((world.identity)(item.path)@) {
                let looped = core.with_error(TreeError::SymlinkLoop(item.path));
                assert(identified == looped.at(StageView::LinkEntry(item)));
                assert(step(world, identified) == goal);
                lemma_leads_next(world, identified, goal);
            } else {
                assert(identified == core.at(StageView::Enter(visit.child(item))));
                lemma_visited_child(scene, core, item);
            }
            lemma_leads_next(world, planned, goal);
        },
        ChildPlan::Descend => {
            assert(planned == core.at(StageView::Enter(visit.child(item))));
            lemma_visited_child(scene, core, item);
        },
        ChildPlan::File => {
            let described = step(world, planned);
            match (world.describe)(item.path, (visit.depth + 1) as usize) {
                Err(_) => {
                    assert(described == goal);
                },
                Ok(entry) => {
                    if scene.config.show_streams {
                        assert(described == core.at(StageView::FileStreams(item, entry@)));
                        assert(step(world, described) == goal);
                        lemma_leads_next(world, described, goal);
                    } else {
                        assert(described == goal);
                    }
                },
            }
            lemma_leads_next(world, planned, goal);
        },
    }
}

/// A walk that starts the visit of a directory found in the innermost one comes to have its
/// node, if there is one.
proof fn lemma_visited_child(scene: Scene, core: CoreView, item: DirItem)
    requires
        core.config == scene.config,
        core.root_device == scene.root_device,
        core.frames.len() > 0,
        core.frames.last().visit.depth < MAX_INTERNAL_DEPTH,
    ensures
        ({
            let top = core.frames.last();
            let found = scene.node(top.visit.child(item), tally_of(core));
            leads(
                scene.world,
                core.at(StageView::Enter(top.visit.child(item))),
                with_tally(core.with_top(top.with_child(found.0)), found.1).at(StageView::Next),
            )
        }),
    decreases MAX_INTERNAL_DEPTH - core.frames.last().visit.depth, 0nat, 0nat,
{
    let world = scene.world;
    let top = core.frames.last();
    let visit = top.visit.child(item);
    let found = scene.node(visit, tally_of(core));
    let goal = with_tally(core.with_top(top.with_child(found.0)), found.1).at(StageView::Next);
    lemma_node(scene, core, visit);
    let delivered = with_tally(core, found.1).at(StageView::Deliver(found.0));
    assert(step(world, delivered) == goal);
    lemma_leads_here(world, goal);
    lemma_leads_next(world, delivered, goal);
    lemma_leads_on(world, core.at(StageView::Enter(visit)), delivered, goal);
}

/// The state of a walk that is over.
pub open spec fn over(scene: Scene, found: (Option<TreeView>, Tally)) -> WalkView {
    CoreView {
        config: scene.config,
        root_device: scene.root_device,
        errors: found.1.errors,
        visited: found.1.visited,
        frames: Seq::empty(),
    }.at(StageView::Done(found.0))
}

/// In a file system that does not change meanwhile, an ordered walk comes to an end, and
/// what it has then found is the tree of the traversal, and the errors met on the way.
pub proof fn walk_finds_the_traversal(scene: Scene, root: FsPath, ignore: IgnoreView)
    ensures
        drives(
            scene.world,
            start_view(scene.config, root, scene.root_device, ignore).settled(),
            over(scene, scene.traversal(root, ignore)),
        ),
{
    let world = scene.world;
    let start = start_view(scene.config, root, scene.root_device, ignore);
    let visit = VisitView { path: root, depth: 0, included: false, parent_matched: false, ignore };
    let found = scene.traversal(root, ignore);
    lemma_node(scene, start.core, visit);
    assert(found == scene.node(visit, tally_of(start.core)));
    let delivered = with_tally(start.core, found.1).at(StageView::Deliver(found.0));
    let goal = over(scene, found);
    assert(step(world, delivered) == goal);
    lemma_leads_here(world, goal);
    lemma_leads_next(world, delivered, goal);
    lemma_leads_on(world, start, delivered, goal);
    lemma_drives(world, start, goal);
}

} // verus!
