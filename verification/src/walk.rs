//! The ordered traversal: builds the whole tree, one request at a time.
//!
//! A walk visits a directory, its entries, and whatever lies below them, in depth-first
//! order. It keeps the directories that it is inside of on a stack, so deep trees cost no
//! call stack.

use crate::config::Config;
use crate::descend::{
    boundary_error, check_descend, check_root_device, descend_verdict, needs_volume,
    volume_matters, DescendCheck, MAX_INTERNAL_DEPTH,
};
use crate::entry::{
    as_recursive, file_tree, forest, leaf, leaf_node, lemma_forest_push, make_file_node,
    make_recursive_link_node, Entry, EntryView, FileIdInfo, StreamInfo, Tree, TreeView,
};
use crate::error::{io_error, push_error, TreeError};
use crate::ignoring::{rules_in, IgnoreFiles, IgnoreMatcher, IgnoreView};
use crate::listing::{reversed, DirItem, ReadDirResult};
use crate::node::{
    check_depth, child_plan, depth_error, expand_node, finish_node, finished, over_limit,
    plan_child, tree_view, ChildPlan, Expansion,
};
use crate::path::FsPath;
use crate::protocol::{asked, Ask, Reply, Request};
use crate::visited::{check_visited, Key, VisitedKey, VisitedSet};
use vstd::prelude::*;

verus! {

/// A directory to visit, and what its ancestors pass on to it.
#[derive(Debug)]
pub struct Visit {
    pub path: FsPath,
    pub depth: usize,
    /// Whether its name matches the include pattern for directories.
    pub included: bool,
    /// Whether it, or a directory above it, matches that pattern.
    pub parent_matched: bool,
    pub ignore: IgnoreMatcher,
}

/// A directory to visit, with its rules as a view.
pub struct VisitView {
    pub path: FsPath,
    pub depth: usize,
    pub included: bool,
    pub parent_matched: bool,
    pub ignore: IgnoreView,
}

impl View for Visit {
    type V = VisitView;

    open spec fn view(&self) -> VisitView {
        VisitView {
            path: self.path,
            depth: self.depth,
            included: self.included,
            parent_matched: self.parent_matched,
            ignore: self.ignore@,
        }
    }
}

impl VisitView {
    /// The same directory with its own rules in force.
    pub open spec fn with_rules(self, files: IgnoreFiles) -> VisitView {
        VisitView {
            ignore: self.ignore.pushed(self.path@, rules_in(self.path@, files)),
            ..self
        }
    }

    /// The visit of a directory found in this one.
    pub open spec fn child(self, item: DirItem) -> VisitView {
        VisitView {
            path: item.path,
            depth: (self.depth + 1) as usize,
            included: item.dir_included,
            parent_matched: self.parent_matched || item.dir_included,
            ignore: self.ignore,
        }
    }
}

/// A directory whose entries are being visited.
#[derive(Debug)]
struct Frame {
    visit: Visit,
    entry: Entry,
    /// The entries still to visit, the next one last.
    items: Vec<DirItem>,
    children: Vec<Tree>,
}

/// A directory whose entries are being visited: `items` are still to come, `children` are
/// the nodes found so far.
pub struct FrameView {
    pub visit: VisitView,
    pub entry: EntryView,
    pub items: Seq<DirItem>,
    pub children: Seq<TreeView>,
}

impl View for Frame {
    type V = FrameView;

    closed spec fn view(&self) -> FrameView {
        FrameView {
            visit: self.visit@,
            entry: self.entry@,
            items: self.items@.reverse(),
            children: forest(self.children@),
        }
    }
}

impl FrameView {
    /// With the next entry taken.
    pub open spec fn without_next(self) -> FrameView {
        FrameView { items: self.items.skip(1), ..self }
    }

    /// With a node added, if there is one.
    pub open spec fn with_child(self, child: Option<TreeView>) -> FrameView {
        match child {
            Some(child) => FrameView { children: self.children.push(child), ..self },
            None => self,
        }
    }
}

/// What the walk does next.
#[derive(Debug)]
enum Stage {
    Enter(Visit),
    Stat(Visit),
    Volume(Visit, Entry),
    Identity(Visit, Entry),
    List(Visit, Entry),
    Rules(Visit, Entry, Vec<DirItem>),
    Next,
    LinkIdentity(DirItem),
    LinkEntry(DirItem),
    FileEntry(DirItem),
    FileStreams(DirItem, Entry),
    Deliver(Option<Tree>),
    Done(Option<Tree>),
}

/// What the walk does next.
pub enum StageView {
    /// Start the visit of a directory.
    Enter(VisitView),
    /// Wait for the description of the directory.
    Stat(VisitView),
    /// Wait for the volume of the directory.
    Volume(VisitView, EntryView),
    /// Wait for the visited-set key of the directory.
    Identity(VisitView, EntryView),
    /// Wait for the entries of the directory.
    List(VisitView, EntryView),
    /// Wait for the ignore files of the directory.
    Rules(VisitView, EntryView, Seq<DirItem>),
    /// Go on with the next entry of the innermost directory.
    Next,
    /// Wait for the visited-set key of a followed link.
    LinkIdentity(DirItem),
    /// Wait for the description of a link to a visited directory.
    LinkEntry(DirItem),
    /// Wait for the description of a file.
    FileEntry(DirItem),
    /// Wait for the streams of a file.
    FileStreams(DirItem, EntryView),
    /// Hand a finished node to the directory that it is in.
    Deliver(Option<TreeView>),
    /// The traversal is over.
    Done(Option<TreeView>),
}

impl View for Stage {
    type V = StageView;

    closed spec fn view(&self) -> StageView {
        match self {
            Stage::Enter(visit) => StageView::Enter(visit@),
            Stage::Stat(visit) => StageView::Stat(visit@),
            Stage::Volume(visit, entry) => StageView::Volume(visit@, entry@),
            Stage::Identity(visit, entry) => StageView::Identity(visit@, entry@),
            Stage::List(visit, entry) => StageView::List(visit@, entry@),
            Stage::Rules(visit, entry, items) => StageView::Rules(visit@, entry@, items@),
            Stage::Next => StageView::Next,
            Stage::LinkIdentity(item) => StageView::LinkIdentity(*item),
            Stage::LinkEntry(item) => StageView::LinkEntry(*item),
            Stage::FileEntry(item) => StageView::FileEntry(*item),
            Stage::FileStreams(item, entry) => StageView::FileStreams(*item, entry@),
            Stage::Deliver(node) => StageView::Deliver(tree_view(*node)),
            Stage::Done(node) => StageView::Done(tree_view(*node)),
        }
    }
}

/// What a walk accumulates.
#[derive(Debug)]
struct Core {
    config: Config,
    root_device: Option<u64>,
    errors: Vec<TreeError>,
    visited: VisitedSet,
    frames: Vec<Frame>,
}

/// What a walk accumulates: errors, visited directories, and the directories that it is
/// inside of, the outermost first.
pub struct CoreView {
    pub config: Config,
    pub root_device: Option<u64>,
    pub errors: Seq<TreeError>,
    pub visited: Set<Key>,
    pub frames: Seq<FrameView>,
}

impl View for Core {
    type V = CoreView;

    closed spec fn view(&self) -> CoreView {
        CoreView {
            config: self.config,
            root_device: self.root_device,
            errors: self.errors@,
            visited: self.visited@,
            frames: self.frames@.map_values(|frame: Frame| frame@),
        }
    }
}

/// The state of a walk.
pub struct WalkView {
    pub core: CoreView,
    pub stage: StageView,
}

impl CoreView {
    /// With an error reported.
    pub open spec fn with_error(self, error: TreeError) -> CoreView {
        CoreView { errors: self.errors.push(error), ..self }
    }

    /// With an error reported, if there is one.
    pub open spec fn with_maybe_error(self, error: Option<TreeError>) -> CoreView {
        match error {
            Some(error) => self.with_error(error),
            None => self,
        }
    }

    /// With a directory visited.
    pub open spec fn with_visited(self, key: Key) -> CoreView {
        CoreView { visited: self.visited.insert(key), ..self }
    }

    /// With a directory entered.
    pub open spec fn with_frame(self, frame: FrameView) -> CoreView {
        CoreView { frames: self.frames.push(frame), ..self }
    }

    /// With the innermost directory left.
    pub open spec fn without_frame(self) -> CoreView {
        CoreView { frames: self.frames.drop_last(), ..self }
    }

    /// With the innermost directory replaced.
    pub open spec fn with_top(self, frame: FrameView) -> CoreView {
        CoreView { frames: self.frames.drop_last().push(frame), ..self }
    }

    /// Handing over a node, if there is one, and going on with the next entry.
    pub open spec fn add_child(self, child: Option<TreeView>) -> CoreView {
        self.with_top(self.frames.last().with_child(child))
    }

    /// At the given stage.
    pub open spec fn at(self, stage: StageView) -> WalkView {
        WalkView { core: self, stage }
    }

    /// Starting the visit of a directory: too deep a directory is reported, not visited.
    pub open spec fn enter(self, visit: VisitView) -> WalkView {
        match depth_error(visit.path, visit.depth) {
            Some(error) => self.with_error(error).at(StageView::Deliver(None)),
            None => self.at(StageView::Stat(visit)),
        }
    }

    /// With the directory described.
    pub open spec fn on_stat(
        self,
        visit: VisitView,
        described: Result<Entry, TreeError>,
    ) -> WalkView {
        match described {
            Err(error) => self.with_error(error).at(StageView::Deliver(None)),
            Ok(entry) => if volume_matters(
                entry.entry_type,
                visit.depth,
                self.config,
                self.root_device,
            ) {
                self.at(StageView::Volume(visit, entry@))
            } else {
                self.on_volume(visit, entry@, None)
            },
        }
    }

    /// With the volume of the directory known.
    pub open spec fn on_volume(
        self,
        visit: VisitView,
        entry: EntryView,
        identity: Option<FileIdInfo>,
    ) -> WalkView {
        match descend_verdict(
            entry.entry_type,
            visit.path,
            visit.depth,
            self.config,
            self.root_device,
            identity,
        ) {
            DescendCheck::Leaf => self.at(StageView::Deliver(Some(leaf(entry)))),
            DescendCheck::LeafWithError(error) => self.with_error(error).at(
                StageView::Deliver(Some(leaf(entry))),
            ),
            DescendCheck::Proceed => self.at(StageView::Identity(visit, entry)),
        }
    }

    /// With the key of the directory known: one that was visited before is not entered.
    pub open spec fn on_identity(self, visit: VisitView, entry: EntryView, key: Key) -> WalkView {
        if self.visited.contains(key) {
            self.at(StageView::Deliver(Some(leaf(as_recursive(entry)))))
        } else {
            self.with_visited(key).at(StageView::List(visit, entry))
        }
    }

    /// With the directory read.
    pub open spec fn on_list(
        self,
        visit: VisitView,
        entry: EntryView,
        listing: ReadDirResult,
    ) -> WalkView {
        match listing {
            ReadDirResult::ReadError(fault) => self.with_error(io_error(visit.path, fault)).at(
                StageView::Deliver(Some(leaf(entry))),
            ),
            ReadDirResult::FilelimitExceeded(total) => self.at(
                StageView::Deliver(Some(leaf(over_limit(entry, total)))),
            ),
            ReadDirResult::Entries(items) => if visit.ignore.enabled {
                self.at(StageView::Rules(visit, entry, items@))
            } else {
                self.open(visit, entry, items@)
            },
        }
    }

    /// Entering the directory.
    pub open spec fn open(
        self,
        visit: VisitView,
        entry: EntryView,
        items: Seq<DirItem>,
    ) -> WalkView {
        self.with_frame(FrameView { visit, entry, items, children: Seq::empty() }).at(
            StageView::Next,
        )
    }

    /// Going on with the innermost directory.
    pub open spec fn next(self) -> WalkView {
        let top = self.frames.last();
        if top.items.len() == 0 {
            self.without_frame().at(
                StageView::Deliver(
                    finished(
                        self.config,
                        top.visit.included,
                        top.visit.depth,
                        top.entry,
                        top.children,
                    ),
                ),
            )
        } else {
            self.with_top(top.without_next()).plan(top.visit, top.items[0])
        }
    }

    /// Deciding about the next entry.
    pub open spec fn plan(self, visit: VisitView, item: DirItem) -> WalkView {
        match child_plan(self.config, item, visit.parent_matched, visit.ignore) {
            ChildPlan::Skip => self.at(StageView::Next),
            ChildPlan::Reserved => self.with_error(TreeError::ReservedName(item.path)).at(
                StageView::Next,
            ),
            ChildPlan::CheckLink => self.at(StageView::LinkIdentity(item)),
            ChildPlan::Descend => self.at(StageView::Enter(visit.child(item))),
            ChildPlan::File => self.at(StageView::FileEntry(item)),
        }
    }

    /// With the key of a followed link known.
    pub open spec fn on_link_identity(self, item: DirItem, key: Key) -> WalkView {
        if self.visited.contains(key) {
            self.with_error(TreeError::SymlinkLoop(item.path)).at(StageView::LinkEntry(item))
        } else {
            self.at(StageView::Enter(self.frames.last().visit.child(item)))
        }
    }

    /// With a link to a visited directory described.
    pub open spec fn on_link_entry(self, described: Result<Entry, TreeError>) -> WalkView {
        match described {
            Ok(entry) => self.add_child(Some(leaf(as_recursive(entry@)))).at(StageView::Next),
            Err(error) => self.with_error(error).at(StageView::Next),
        }
    }

    /// With a file described.
    pub open spec fn on_file_entry(
        self,
        item: DirItem,
        described: Result<Entry, TreeError>,
    ) -> WalkView {
        match described {
            Ok(entry) => if self.config.show_streams {
                self.at(StageView::FileStreams(item, entry@))
            } else {
                self.add_child(Some(leaf(entry@))).at(StageView::Next)
            },
            Err(error) => self.with_error(error).at(StageView::Next),
        }
    }

    /// With the streams of a file known.
    pub open spec fn on_file_streams(
        self,
        item: DirItem,
        entry: EntryView,
        streams: Seq<StreamInfo>,
    ) -> WalkView {
        let depth = (self.frames.last().visit.depth + 1) as usize;
        self.add_child(Some(file_tree(entry, item.path, depth, true, streams))).at(StageView::Next)
    }

    /// Handing a finished node to the directory that it is in.
    pub open spec fn deliver(self, node: Option<TreeView>) -> WalkView {
        if self.frames.len() == 0 {
            self.at(StageView::Done(node))
        } else {
            self.add_child(node).at(StageView::Next)
        }
    }
}

impl WalkView {
    /// Whether the walk goes on without an answer.
    pub open spec fn is_busy(self) -> bool {
        ||| self.stage is Enter
        ||| self.stage is Next && self.core.frames.len() > 0
        ||| self.stage is Deliver
    }

    /// One step of a busy walk.
    pub open spec fn advance(self) -> WalkView {
        match self.stage {
            StageView::Enter(visit) => self.core.enter(visit),
            StageView::Next => self.core.next(),
            StageView::Deliver(node) => self.core.deliver(node),
            _ => self,
        }
    }

    /// What the walk asks for.
    pub open spec fn asks(self) -> Option<Ask> {
        let depth = self.core.frames.last().visit.depth;
        match self.stage {
            StageView::Stat(visit) => Some(Ask::Stat { path: visit.path, depth: visit.depth }),
            StageView::Volume(visit, _) => Some(Ask::Volume { path: visit.path }),
            StageView::Identity(visit, _) => Some(Ask::Identity { path: visit.path }),
            StageView::List(visit, _) => Some(Ask::List { path: visit.path }),
            StageView::Rules(visit, _, _) => Some(Ask::Rules { path: visit.path }),
            StageView::LinkIdentity(item) => Some(Ask::Identity { path: item.path }),
            StageView::LinkEntry(item) => Some(
                Ask::Describe { path: item.path, depth: (depth + 1) as usize },
            ),
            StageView::FileEntry(item) => Some(
                Ask::Describe { path: item.path, depth: (depth + 1) as usize },
            ),
            StageView::FileStreams(item, _) => Some(Ask::Streams { path: item.path }),
            _ => None,
        }
    }

    /// The walk once it has its answer. An answer to something else changes nothing.
    pub open spec fn answered(self, reply: Reply) -> WalkView {
        match (self.stage, reply) {
            (StageView::Stat(visit), Reply::Entry(described)) => self.core.on_stat(
                visit,
                described,
            ),
            (StageView::Volume(visit, entry), Reply::Volume(identity)) => self.core.on_volume(
                visit,
                entry,
                identity,
            ),
            (StageView::Identity(visit, entry), Reply::Identity(key)) => self.core.on_identity(
                visit,
                entry,
                key@,
            ),
            (StageView::List(visit, entry), Reply::Listing(listing)) => self.core.on_list(
                visit,
                entry,
                listing,
            ),
            (StageView::Rules(visit, entry, items), Reply::Rules(files)) => self.core.open(
                visit.with_rules(files),
                entry,
                items,
            ),
            (StageView::LinkIdentity(item), Reply::Identity(key)) => self.core.on_link_identity(
                item,
                key@,
            ),
            (StageView::LinkEntry(_), Reply::Entry(described)) => self.core.on_link_entry(
                described,
            ),
            (StageView::FileEntry(item), Reply::Entry(described)) => self.core.on_file_entry(
                item,
                described,
            ),
            (StageView::FileStreams(item, entry), Reply::Streams(streams)) =>
                self.core.on_file_streams(item, entry, streams@),
            _ => self,
        }
    }

    /// No directory lies deeper than traversal goes, and entries are visited only inside a
    /// directory.
    pub open spec fn wf(self) -> bool {
        &&& forall|i: int|
            0 <= i < self.core.frames.len() ==> (#[trigger] self.core.frames[i]).visit.depth
                < MAX_INTERNAL_DEPTH
        &&& match self.stage {
            StageView::Enter(visit) => visit.depth <= MAX_INTERNAL_DEPTH,
            StageView::Stat(visit) => visit.depth < MAX_INTERNAL_DEPTH,
            StageView::Volume(visit, _) => visit.depth < MAX_INTERNAL_DEPTH,
            StageView::Identity(visit, _) => visit.depth < MAX_INTERNAL_DEPTH,
            StageView::List(visit, _) => visit.depth < MAX_INTERNAL_DEPTH,
            StageView::Rules(visit, _, _) => visit.depth < MAX_INTERNAL_DEPTH,
            StageView::Deliver(_) => true,
            StageView::Done(_) => true,
            _ => self.core.frames.len() > 0,
        }
    }

    /// How much a busy walk can do before it needs an answer.
    pub open spec fn workload(self) -> nat {
        frames_workload(self.core.frames) + match self.stage {
            StageView::Enter(_) => 2nat,
            StageView::Deliver(_) => 1nat,
            _ => 0nat,
        }
    }

    /// The walk once it needs an answer or is over.
    pub open spec fn settled(self) -> WalkView
        decreases self.workload(),
    {
        proof {
            lemma_advance_decreases(self);
        }
        if self.is_busy() {
            self.advance().settled()
        } else {
            self
        }
    }
}

/// How much there is to do inside the directories on the stack.
pub open spec fn frames_workload(frames: Seq<FrameView>) -> nat
    decreases frames.len(),
{
    if frames.len() == 0 {
        0
    } else {
        frames_workload(frames.drop_last()) + 3 * frames.last().items.len() + 3
    }
}

proof fn lemma_top_workload(frames: Seq<FrameView>, frame: FrameView)
    ensures
        frames_workload(frames.push(frame)) == frames_workload(frames) + 3 * frame.items.len() + 3,
{
    assert(frames.push(frame).drop_last() =~= frames);
}

/// Every step of a busy walk brings it closer to where it needs an answer.
pub proof fn lemma_advance_decreases(walk: WalkView)
    ensures
        walk.is_busy() ==> walk.advance().workload() < walk.workload(),
{
    let core = walk.core;
    if walk.is_busy() && core.frames.len() > 0 {
        let top = core.frames.last();
        let below = core.frames.drop_last();
        assert(core.frames =~= below.push(top));
        lemma_top_workload(below, top);
        match walk.stage {
            StageView::Next => {
                if top.items.len() > 0 {
                    lemma_top_workload(below, top.without_next());
                }
            },
            StageView::Deliver(node) => {
                lemma_top_workload(below, top.with_child(node));
            },
            _ => {},
        }
    }
}

/// The views of the frames on a stack, as the stack grows.
proof fn lemma_frames_push(frames: Seq<Frame>, frame: Frame)
    ensures
        frames.push(frame).map_values(|f: Frame| f@) == frames.map_values(|f: Frame| f@).push(
            frame@,
        ),
{
    assert(frames.push(frame).map_values(|f: Frame| f@) =~= frames.map_values(|f: Frame| f@).push(
        frame@,
    ));
}

impl Core {
    spec fn depths_ok(self) -> bool {
        forall|i: int|
            0 <= i < self@.frames.len() ==> (#[trigger] self@.frames[i]).visit.depth
                < MAX_INTERNAL_DEPTH
    }

    fn report(&mut self, error: TreeError)
        ensures
            final(self)@ == old(self)@.with_error(error),
    {
        push_error(&mut self.errors, error);
    }

    fn push_frame(&mut self, frame: Frame)
        ensures
            final(self)@ == old(self)@.with_frame(frame@),
    {
        proof {
            lemma_frames_push(self.frames@, frame);
        }
        self.frames.push(frame);
    }

    fn pop_frame(&mut self) -> (result: Frame)
        requires
            old(self)@.frames.len() > 0,
        ensures
            result@ == old(self)@.frames.last(),
            final(self)@ == old(self)@.without_frame(),
    {
        let ghost before = self.frames@;
        let popped = self.frames.pop();
        assert(self.frames@.map_values(|f: Frame| f@) =~= before.map_values(
            |f: Frame| f@,
        ).drop_last());
        popped.unwrap()
    }

    /// Adds a node to the innermost directory.
    fn add_child(&mut self, child: Option<Tree>)
        requires
            old(self)@.frames.len() > 0,
        ensures
            final(self)@ == old(self)@.add_child(tree_view(child)),
    {
        let mut frame = self.pop_frame();
        if let Some(child) = child {
            proof {
                lemma_forest_push(frame.children@, child);
            }
            frame.children.push(child);
        }
        self.push_frame(frame);
    }

    /// The depth of the innermost directory.
    fn top_depth(&self) -> (result: usize)
        requires
            self@.frames.len() > 0,
        ensures
            result == self@.frames.last().visit.depth,
    {
        self.frames[self.frames.len() - 1].visit.depth
    }

    /// The visit of a directory found in the innermost one.
    fn child_visit(&self, item: DirItem) -> (result: Visit)
        requires
            self@.frames.len() > 0,
            self@.frames.last().visit.depth < MAX_INTERNAL_DEPTH,
        ensures
            result@ == self@.frames.last().visit.child(item),
    {
        let top = &self.frames[self.frames.len() - 1].visit;
        Visit {
            path: item.path,
            depth: top.depth + 1,
            included: item.dir_included,
            parent_matched: top.parent_matched || item.dir_included,
            ignore: top.ignore.clone_for_child(),
        }
    }

    fn enter(&mut self, visit: Visit) -> (result: Stage)
        ensures
            final(self)@.at(result@) == old(self)@.enter(visit@),
    {
        match check_depth(&visit.path, visit.depth) {
            Some(error) => {
                self.report(error);
                Stage::Deliver(None)
            },
            None => Stage::Stat(visit),
        }
    }

    fn on_stat(&mut self, visit: Visit, described: Result<Entry, TreeError>) -> (result: Stage)
        ensures
            final(self)@.at(result@) == old(self)@.on_stat(visit@, described),
    {
        match described {
            Err(error) => {
                self.report(error);
                Stage::Deliver(None)
            },
            Ok(entry) => {
                if needs_volume(&entry, visit.depth, &self.config, self.root_device) {
                    Stage::Volume(visit, entry)
                } else {
                    self.on_volume(visit, entry, None)
                }
            },
        }
    }

    fn on_volume(&mut self, visit: Visit, entry: Entry, identity: Option<FileIdInfo>) -> (result:
        Stage)
        ensures
            final(self)@.at(result@) == old(self)@.on_volume(visit@, entry@, identity),
    {
        match check_descend(
            &entry,
            &visit.path,
            visit.depth,
            &self.config,
            self.root_device,
            identity,
        ) {
            DescendCheck::Leaf => Stage::Deliver(Some(leaf_node(entry))),
            DescendCheck::LeafWithError(error) => {
                self.report(error);
                Stage::Deliver(Some(leaf_node(entry)))
            },
            DescendCheck::Proceed => Stage::Identity(visit, entry),
        }
    }

    fn on_identity(&mut self, visit: Visit, entry: Entry, key: VisitedKey) -> (result: Stage)
        ensures
            final(self)@.at(result@) == old(self)@.on_identity(visit@, entry@, key@),
    {
        if check_visited(&mut self.visited, key) {
            assert(old(self)@.visited.insert(key@) =~= old(self)@.visited);
            let mut entry = entry;
            entry.recursive_link = true;
            Stage::Deliver(Some(leaf_node(entry)))
        } else {
            Stage::List(visit, entry)
        }
    }

    fn on_list(&mut self, visit: Visit, entry: Entry, listing: ReadDirResult) -> (result: Stage)
        ensures
            final(self)@.at(result@) == old(self)@.on_list(visit@, entry@, listing),
    {
        match expand_node(entry, &visit.path, listing) {
            Expansion::Leaf(node, error) => {
                if let Some(error) = error {
                    self.report(error);
                }
                Stage::Deliver(Some(node))
            },
            Expansion::Open(entry, items) => {
                if visit.ignore.is_enabled() {
                    Stage::Rules(visit, entry, items)
                } else {
                    self.open(visit, entry, items)
                }
            },
        }
    }

    fn on_rules(
        &mut self,
        visit: Visit,
        entry: Entry,
        items: Vec<DirItem>,
        files: IgnoreFiles,
    ) -> (result: Stage)
        ensures
            final(self)@.at(result@) == old(self)@.open(
                visit@.with_rules(files),
                entry@,
                items@,
            ),
    {
        let mut visit = visit;
        let path = visit.path.clone();
        visit.ignore.push_dir(&path, &files);
        self.open(visit, entry, items)
    }

    fn open(&mut self, visit: Visit, entry: Entry, items: Vec<DirItem>) -> (result: Stage)
        ensures
            final(self)@.at(result@) == old(self)@.open(visit@, entry@, items@),
    {
        let ghost all = items@;
        let frame = Frame { visit, entry, items: reversed(items), children: Vec::new() };
        assert(frame.items@.reverse() =~= all);
        assert(forest(frame.children@) =~= Seq::empty());
        self.push_frame(frame);
        Stage::Next
    }

    fn next(&mut self) -> (result: Stage)
        requires
            old(self)@.frames.len() > 0,
            old(self).depths_ok(),
        ensures
            final(self)@.at(result@) == old(self)@.next(),
    {
        let mut frame = self.pop_frame();
        let ghost top = frame@;
        assert(old(self).depths_ok());
        match frame.items.pop() {
            None => {
                let Frame { visit, entry, children, .. } = frame;
                Stage::Deliver(
                    finish_node(&self.config, visit.included, visit.depth, entry, children),
                )
            },
            Some(item) => {
                assert(frame.items@.reverse() =~= top.items.skip(1));
                assert(item == top.items[0]);
                let plan = plan_child(
                    &self.config,
                    &item,
                    frame.visit.parent_matched,
                    &frame.visit.ignore,
                );
                self.push_frame(frame);
                assert(self@ == old(self)@.with_top(top.without_next()));
                match plan {
                    ChildPlan::Skip => Stage::Next,
                    ChildPlan::Reserved => {
                        self.report(TreeError::ReservedName(item.path));
                        Stage::Next
                    },
                    ChildPlan::CheckLink => Stage::LinkIdentity(item),
                    ChildPlan::Descend => Stage::Enter(self.child_visit(item)),
                    ChildPlan::File => Stage::FileEntry(item),
                }
            },
        }
    }

    fn on_link_identity(&mut self, item: DirItem, key: VisitedKey) -> (result: Stage)
        requires
            old(self)@.frames.len() > 0,
            old(self).depths_ok(),
        ensures
            final(self)@.at(result@) == old(self)@.on_link_identity(item, key@),
    {
        if self.visited.contains(&key) {
            self.report(TreeError::SymlinkLoop(item.path.clone()));
            Stage::LinkEntry(item)
        } else {
            Stage::Enter(self.child_visit(item))
        }
    }

    fn on_link_entry(&mut self, described: Result<Entry, TreeError>) -> (result: Stage)
        requires
            old(self)@.frames.len() > 0,
        ensures
            final(self)@.at(result@) == old(self)@.on_link_entry(described),
    {
        match make_recursive_link_node(described) {
            Ok(node) => self.add_child(Some(node)),
            Err(error) => self.report(error),
        }
        Stage::Next
    }

    fn on_file_entry(&mut self, item: DirItem, described: Result<Entry, TreeError>) -> (result:
        Stage)
        requires
            old(self)@.frames.len() > 0,
            old(self).depths_ok(),
        ensures
            final(self)@.at(result@) == old(self)@.on_file_entry(item, described),
    {
        match described {
            Err(error) => {
                self.report(error);
                Stage::Next
            },
            Ok(entry) => {
                if self.config.show_streams {
                    Stage::FileStreams(item, entry)
                } else {
                    self.add_child(Some(leaf_node(entry)));
                    Stage::Next
                }
            },
        }
    }

    fn on_file_streams(&mut self, item: DirItem, entry: Entry, streams: Vec<StreamInfo>) -> (result:
        Stage)
        requires
            old(self)@.frames.len() > 0,
            old(self).depths_ok(),
        ensures
            final(self)@.at(result@) == old(self)@.on_file_streams(item, entry@, streams@),
    {
        let depth: usize = self.top_depth() + 1;
        match make_file_node(Ok(entry), &item.path, depth, true, &streams) {
            Ok(node) => self.add_child(Some(node)),
            Err(error) => self.report(error),
        }
        Stage::Next
    }

    fn deliver(&mut self, node: Option<Tree>) -> (result: Stage)
        ensures
            final(self)@.at(result@) == old(self)@.deliver(tree_view(node)),
    {
        if self.frames.len() == 0 {
            Stage::Done(node)
        } else {
            self.add_child(node);
            Stage::Next
        }
    }
}

/// A traversal that builds the whole tree.
///
/// The driver does what `request` asks and hands the answer to `resume`, until nothing is
/// asked any more.
#[derive(Debug)]
pub struct OrderedWalk {
    core: Core,
    stage: Stage,
}

impl View for OrderedWalk {
    type V = WalkView;

    closed spec fn view(&self) -> WalkView {
        WalkView { core: self.core@, stage: self.stage@ }
    }
}

/// The state in which the traversal of `root` starts.
pub open spec fn start_view(
    config: Config,
    root: FsPath,
    root_device: Option<u64>,
    ignore: IgnoreView,
) -> WalkView {
    let core = CoreView {
        config,
        root_device,
        errors: Seq::empty(),
        visited: Set::empty(),
        frames: Seq::empty(),
    };
    core.with_maybe_error(boundary_error(config, root, root_device)).at(
        StageView::Enter(
            VisitView { path: root, depth: 0, included: false, parent_matched: false, ignore },
        ),
    )
}

/// Steps keep a walk well-formed.
pub proof fn lemma_advance_wf(walk: WalkView)
    requires
        walk.wf(),
        walk.is_busy(),
    ensures
        walk.advance().wf(),
{
    let core = walk.core;
    if core.frames.len() > 0 {
        assert(core.frames.last() == core.frames[core.frames.len() - 1]);
    }
}

/// Answers keep a walk well-formed.
pub proof fn lemma_answered_wf(walk: WalkView, reply: Reply)
    requires
        walk.wf(),
    ensures
        walk.answered(reply).wf(),
{
    let core = walk.core;
    if core.frames.len() > 0 {
        assert(core.frames.last() == core.frames[core.frames.len() - 1]);
    }
}

impl OrderedWalk {
    /// Begins the traversal of `root`.
    ///
    /// `root_device` is the volume of the root where the file system boundary is watched;
    /// `ignore` holds the rules of the directories above the root.
    pub fn start(
        config: &Config,
        root: FsPath,
        root_device: Option<u64>,
        ignore: IgnoreMatcher,
    ) -> (result: OrderedWalk)
        ensures
            result@ == start_view(*config, root, root_device, ignore@).settled(),
            result@.wf(),
    {
        let mut core = Core {
            config: *config,
            root_device,
            errors: Vec::new(),
            visited: VisitedSet::new(),
            frames: Vec::new(),
        };
        assert(core@.frames =~= Seq::empty());
        if let Some(error) = check_root_device(config, &root, root_device) {
            core.report(error);
        }
        let visit = Visit { path: root, depth: 0, included: false, parent_matched: false, ignore };
        let walk = OrderedWalk { core, stage: Stage::Enter(visit) };
        walk.settle()
    }

    /// Goes on until an answer is needed or the traversal is over.
    fn settle(self) -> (result: OrderedWalk)
        requires
            self@.wf(),
        ensures
            result@ == self@.settled(),
            result@.wf(),
            !result@.is_busy(),
    {
        let OrderedWalk { core, stage } = self;
        let mut core = core;
        let mut stage = stage;
        loop
            invariant
                core@.at(stage@).wf(),
                core@.at(stage@).settled() == self@.settled(),
            decreases core@.at(stage@).workload(),
        {
            let ghost walk = core@.at(stage@);
            proof {
                if walk.is_busy() {
                    lemma_advance_decreases(walk);
                    lemma_advance_wf(walk);
                }
            }
            match stage {
                Stage::Enter(visit) => {
                    stage = core.enter(visit);
                },
                Stage::Next => {
                    stage = core.next();
                },
                Stage::Deliver(node) => {
                    stage = core.deliver(node);
                },
                other => {
                    return OrderedWalk { core, stage: other };
                },
            }
        }
    }

    /// What the walk asks for; nothing when the traversal is over.
    pub fn request(&self) -> (result: Option<Request<'_>>)
        requires
            self@.wf(),
        ensures
            asked(result) == self@.asks(),
    {
        match &self.stage {
            Stage::Stat(visit) => Some(Request::Stat { path: &visit.path, depth: visit.depth }),
            Stage::Volume(visit, _) => Some(Request::Volume { path: &visit.path }),
            Stage::Identity(visit, _) => Some(Request::Identity { path: &visit.path }),
            Stage::List(visit, _) => Some(Request::List { path: &visit.path }),
            Stage::Rules(visit, _, _) => Some(Request::Rules { path: &visit.path }),
            Stage::LinkIdentity(item) => Some(Request::Identity { path: &item.path }),
            Stage::LinkEntry(item) => Some(
                Request::Describe { path: &item.path, depth: self.core.top_depth() + 1 },
            ),
            Stage::FileEntry(item) => Some(
                Request::Describe { path: &item.path, depth: self.core.top_depth() + 1 },
            ),
            Stage::FileStreams(item, _) => Some(Request::Streams { path: &item.path }),
            _ => None,
        }
    }

    /// Goes on with the answer to the last request. An answer to something else changes
    /// nothing.
    pub fn resume(self, reply: Reply) -> (result: OrderedWalk)
        requires
            self@.wf(),
        ensures
            result@ == self@.answered(reply).settled(),
            result@.wf(),
    {
        proof {
            lemma_answered_wf(self@, reply);
        }
        let OrderedWalk { core, stage } = self;
        let mut core = core;
        let stage = match (stage, reply) {
            (Stage::Stat(visit), Reply::Entry(described)) => core.on_stat(visit, described),
            (Stage::Volume(visit, entry), Reply::Volume(identity)) => core.on_volume(
                visit,
                entry,
                identity,
            ),
            (Stage::Identity(visit, entry), Reply::Identity(key)) => core.on_identity(
                visit,
                entry,
                key,
            ),
            (Stage::List(visit, entry), Reply::Listing(listing)) => core.on_list(
                visit,
                entry,
                listing,
            ),
            (Stage::Rules(visit, entry, items), Reply::Rules(files)) => core.on_rules(
                visit,
                entry,
                items,
                files,
            ),
            (Stage::LinkIdentity(item), Reply::Identity(key)) => core.on_link_identity(item, key),
            (Stage::LinkEntry(_), Reply::Entry(described)) => core.on_link_entry(described),
            (Stage::FileEntry(item), Reply::Entry(described)) => core.on_file_entry(
                item,
                described,
            ),
            (Stage::FileStreams(item, entry), Reply::Streams(streams)) => core.on_file_streams(
                item,
                entry,
                streams,
            ),
            (stage, _) => stage,
        };
        OrderedWalk { core, stage }.settle()
    }

    /// The errors met, and the tree found; the tree is missing where the traversal is not
    /// over, or found nothing.
    pub fn finish(self) -> (result: (Vec<TreeError>, Option<Tree>))
        ensures
            result.0@ == self@.core.errors,
            tree_view(result.1) == (match self@.stage {
                StageView::Done(node) => node,
                _ => None,
            }),
    {
        let OrderedWalk { core, stage } = self;
        let tree = match stage {
            Stage::Done(node) => node,
            _ => None,
        };
        (core.errors, tree)
    }
}

} // verus!
