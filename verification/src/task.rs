//! The parallel traversal: one task for each directory, and for each entry of one.
//!
//! A task runs like an ordered walk until it knows the entries of its directory. Then it
//! forks: each entry becomes a task of its own, for any worker to run, and the task goes on
//! with what they found, in the order of the entries. Which directories were entered, and how
//! many directories may be read at the same time, is shared by all tasks, so the driver keeps
//! it; a task holds a permit only while it reads its directory, never while it forks.

use crate::config::Config;
use crate::descend::{
    boundary_error, check_descend, check_root_device, descend_verdict, needs_volume,
    volume_matters, DescendCheck, MAX_INTERNAL_DEPTH,
};
use crate::entry::{
    as_recursive, file_tree, forest, leaf, leaf_node, lemma_forest_push, make_file_node,
    make_recursive_link_node, Entry, EntryView, FileIdInfo, StreamInfo, Tree, TreeView,
};
use crate::error::{io_error, push_error, TreeError};
use crate::ignoring::{IgnoreFiles, IgnoreMatcher, IgnoreView};
use crate::listing::{reversed, DirItem, ReadDirResult};
use crate::node::{
    check_depth, child_plan, depth_error, expand_node, finish_node, finished, over_limit,
    plan_child, tree_view, ChildPlan, Expansion,
};
use crate::path::FsPath;
use crate::protocol::{asked, Ask, Reply, Request};
use crate::walk::{Visit, VisitView};
use vstd::prelude::*;

verus! {

/// What a task found: a node, unless there is none, and the errors met.
#[derive(Debug)]
pub struct Outcome {
    pub tree: Option<Tree>,
    pub errors: Vec<TreeError>,
}

/// What a task found, as a view.
pub struct OutcomeView {
    pub tree: Option<TreeView>,
    pub errors: Seq<TreeError>,
}

impl View for Outcome {
    type V = OutcomeView;

    open spec fn view(&self) -> OutcomeView {
        OutcomeView { tree: tree_view(self.tree), errors: self.errors@ }
    }
}

/// The nodes among what several tasks found, in order.
pub open spec fn nodes_of(outcomes: Seq<OutcomeView>) -> Seq<TreeView>
    decreases outcomes.len(),
{
    if outcomes.len() == 0 {
        Seq::empty()
    } else {
        match outcomes.last().tree {
            Some(tree) => nodes_of(outcomes.drop_last()).push(tree),
            None => nodes_of(outcomes.drop_last()),
        }
    }
}

/// The errors that several tasks met, in order.
pub open spec fn errors_of(outcomes: Seq<OutcomeView>) -> Seq<TreeError>
    decreases outcomes.len(),
{
    if outcomes.len() == 0 {
        Seq::empty()
    } else {
        errors_of(outcomes.drop_last()) + outcomes.last().errors
    }
}

/// What a task does next.
#[derive(Debug)]
enum TaskStage {
    Stat(Visit),
    Volume(Visit, Entry),
    Claim(Visit, Entry),
    Permit(Visit, Entry),
    List(Visit, Entry),
    Read(Visit, Entry, ReadDirResult),
    Rules(Visit, Entry, Vec<DirItem>),
    Fork(Visit, Entry, Vec<DirItem>),
    LinkSeen(Visit),
    LinkEntry(FsPath, usize),
    FileEntry(FsPath, usize),
    FileStreams(FsPath, usize, Entry),
    Done(Option<Tree>),
}

/// What a task does next.
pub enum TaskStageView {
    /// Wait for the description of the directory.
    Stat(VisitView),
    /// Wait for the volume of the directory.
    Volume(VisitView, EntryView),
    /// Wait for whether the directory was entered before.
    Claim(VisitView, EntryView),
    /// Wait for a permit to read the directory.
    Permit(VisitView, EntryView),
    /// Wait for the entries of the directory.
    List(VisitView, EntryView),
    /// Wait until the permit is given back, with the directory read.
    Read(VisitView, EntryView, ReadDirResult),
    /// Wait for the ignore files of the directory.
    Rules(VisitView, EntryView, Seq<DirItem>),
    /// Wait for what was found at the entries of the directory.
    Fork(VisitView, EntryView, Seq<DirItem>),
    /// Wait for whether a followed link leads to a directory that was entered before.
    LinkSeen(VisitView),
    /// Wait for the description of a link to a directory that was entered before.
    LinkEntry(FsPath, usize),
    /// Wait for the description of a file.
    FileEntry(FsPath, usize),
    /// Wait for the streams of a file.
    FileStreams(FsPath, usize, EntryView),
    /// The task is done.
    Done(Option<TreeView>),
}

impl View for TaskStage {
    type V = TaskStageView;

    closed spec fn view(&self) -> TaskStageView {
        match self {
            TaskStage::Stat(visit) => TaskStageView::Stat(visit@),
            TaskStage::Volume(visit, entry) => TaskStageView::Volume(visit@, entry@),
            TaskStage::Claim(visit, entry) => TaskStageView::Claim(visit@, entry@),
            TaskStage::Permit(visit, entry) => TaskStageView::Permit(visit@, entry@),
            TaskStage::List(visit, entry) => TaskStageView::List(visit@, entry@),
            TaskStage::Read(visit, entry, listing) => TaskStageView::Read(
                visit@,
                entry@,
                *listing,
            ),
            TaskStage::Rules(visit, entry, items) => TaskStageView::Rules(visit@, entry@, items@),
            TaskStage::Fork(visit, entry, items) => TaskStageView::Fork(visit@, entry@, items@),
            TaskStage::LinkSeen(visit) => TaskStageView::LinkSeen(visit@),
            TaskStage::LinkEntry(path, depth) => TaskStageView::LinkEntry(*path, *depth),
            TaskStage::FileEntry(path, depth) => TaskStageView::FileEntry(*path, *depth),
            TaskStage::FileStreams(path, depth, entry) => TaskStageView::FileStreams(
                *path,
                *depth,
                entry@,
            ),
            TaskStage::Done(node) => TaskStageView::Done(tree_view(*node)),
        }
    }
}

/// The state of a task.
pub struct TaskView {
    pub config: Config,
    pub root_device: Option<u64>,
    pub errors: Seq<TreeError>,
    pub stage: TaskStageView,
}

impl TaskView {
    /// At another stage.
    pub open spec fn at(self, stage: TaskStageView) -> TaskView {
        TaskView { stage, ..self }
    }

    /// With an error reported.
    pub open spec fn with_error(self, error: TreeError) -> TaskView {
        TaskView { errors: self.errors.push(error), ..self }
    }

    /// Starting the visit of a directory: too deep a directory is reported, not visited.
    pub open spec fn enter(self, visit: VisitView) -> TaskView {
        match depth_error(visit.path, visit.depth) {
            Some(error) => self.with_error(error).at(TaskStageView::Done(None)),
            None => self.at(TaskStageView::Stat(visit)),
        }
    }

    /// With the directory described.
    pub open spec fn on_stat(
        self,
        visit: VisitView,
        described: Result<Entry, TreeError>,
    ) -> TaskView {
        match described {
            Err(error) => self.with_error(error).at(TaskStageView::Done(None)),
            Ok(entry) => if volume_matters(
                entry.entry_type,
                visit.depth,
                self.config,
                self.root_device,
            ) {
                self.at(TaskStageView::Volume(visit, entry@))
            } else {
                self.on_volume(visit, entry@, None)
            },
        }
    }

    /// With the volume of the directory known.
    pub open spec fn on_volume(
        self,
        visit: VisitView,
        entry: EntryView,
        identity: Option<FileIdInfo>,
    ) -> TaskView {
        match descend_verdict(
            entry.entry_type,
            visit.path,
            visit.depth,
            self.config,
            self.root_device,
            identity,
        ) {
            DescendCheck::Leaf => self.at(TaskStageView::Done(Some(leaf(entry)))),
            DescendCheck::LeafWithError(error) => self.with_error(error).at(
                TaskStageView::Done(Some(leaf(entry))),
            ),
            DescendCheck::Proceed => self.at(TaskStageView::Claim(visit, entry)),
        }
    }

    /// With it known whether the directory was entered before.
    pub open spec fn on_claim(self, visit: VisitView, entry: EntryView, seen: bool) -> TaskView {
        if seen {
            self.at(TaskStageView::Done(Some(leaf(as_recursive(entry)))))
        } else {
            self.at(TaskStageView::Permit(visit, entry))
        }
    }

    /// With the directory read and the permit given back.
    pub open spec fn on_list(
        self,
        visit: VisitView,
        entry: EntryView,
        listing: ReadDirResult,
    ) -> TaskView {
        match listing {
            ReadDirResult::ReadError(fault) => self.with_error(io_error(visit.path, fault)).at(
                TaskStageView::Done(Some(leaf(entry))),
            ),
            ReadDirResult::FilelimitExceeded(total) => self.at(
                TaskStageView::Done(Some(leaf(over_limit(entry, total)))),
            ),
            ReadDirResult::Entries(items) => if visit.ignore.enabled {
                self.at(TaskStageView::Rules(visit, entry, items@))
            } else {
                self.at(TaskStageView::Fork(visit, entry, items@))
            },
        }
    }

    /// With it known whether a followed link leads to a directory that was entered before.
    pub open spec fn on_link_seen(self, visit: VisitView, seen: bool) -> TaskView {
        if seen {
            self.with_error(TreeError::SymlinkLoop(visit.path)).at(
                TaskStageView::LinkEntry(visit.path, visit.depth),
            )
        } else {
            self.enter(visit)
        }
    }

    /// With a link to a directory that was entered before described.
    pub open spec fn on_link_entry(self, described: Result<Entry, TreeError>) -> TaskView {
        match described {
            Ok(entry) => self.at(TaskStageView::Done(Some(leaf(as_recursive(entry@))))),
            Err(error) => self.with_error(error).at(TaskStageView::Done(None)),
        }
    }

    /// With a file described.
    pub open spec fn on_file_entry(
        self,
        path: FsPath,
        depth: usize,
        described: Result<Entry, TreeError>,
    ) -> TaskView {
        match described {
            Ok(entry) => if self.config.show_streams {
                self.at(TaskStageView::FileStreams(path, depth, entry@))
            } else {
                self.at(TaskStageView::Done(Some(leaf(entry@))))
            },
            Err(error) => self.with_error(error).at(TaskStageView::Done(None)),
        }
    }

    /// What the task asks for.
    pub open spec fn asks(self) -> Option<Ask> {
        match self.stage {
            TaskStageView::Stat(visit) => Some(Ask::Stat { path: visit.path, depth: visit.depth }),
            TaskStageView::Volume(visit, _) => Some(Ask::Volume { path: visit.path }),
            TaskStageView::Claim(visit, _) => Some(Ask::Claim { path: visit.path }),
            TaskStageView::Permit(_, _) => Some(Ask::TakePermit),
            TaskStageView::List(visit, _) => Some(Ask::List { path: visit.path }),
            TaskStageView::Read(_, _, _) => Some(Ask::ReturnPermit),
            TaskStageView::Rules(visit, _, _) => Some(Ask::Rules { path: visit.path }),
            TaskStageView::LinkSeen(visit) => Some(Ask::Seen { path: visit.path }),
            TaskStageView::LinkEntry(path, depth) => Some(Ask::Describe { path, depth }),
            TaskStageView::FileEntry(path, depth) => Some(Ask::Describe { path, depth }),
            TaskStageView::FileStreams(path, _, _) => Some(Ask::Streams { path }),
            _ => None,
        }
    }

    /// The task once it has its answer. An answer to something else changes nothing.
    pub open spec fn answered(self, reply: Reply) -> TaskView {
        match (self.stage, reply) {
            (TaskStageView::Stat(visit), Reply::Entry(described)) => self.on_stat(
                visit,
                described,
            ),
            (TaskStageView::Volume(visit, entry), Reply::Volume(identity)) => self.on_volume(
                visit,
                entry,
                identity,
            ),
            (TaskStageView::Claim(visit, entry), Reply::Seen(seen)) => self.on_claim(
                visit,
                entry,
                seen,
            ),
            (TaskStageView::Permit(visit, entry), Reply::Done) => self.at(
                TaskStageView::List(visit, entry),
            ),
            (TaskStageView::List(visit, entry), Reply::Listing(listing)) => self.at(
                TaskStageView::Read(visit, entry, listing),
            ),
            (TaskStageView::Read(visit, entry, listing), Reply::Done) => self.on_list(
                visit,
                entry,
                listing,
            ),
            (TaskStageView::Rules(visit, entry, items), Reply::Rules(files)) => self.at(
                TaskStageView::Fork(visit.with_rules(files), entry, items),
            ),
            (TaskStageView::LinkSeen(visit), Reply::Seen(seen)) => self.on_link_seen(visit, seen),
            (TaskStageView::LinkEntry(_, _), Reply::Entry(described)) => self.on_link_entry(
                described,
            ),
            (TaskStageView::FileEntry(path, depth), Reply::Entry(described)) =>
                self.on_file_entry(path, depth, described),
            (TaskStageView::FileStreams(path, depth, entry), Reply::Streams(streams)) => self.at(
                TaskStageView::Done(Some(file_tree(entry, path, depth, true, streams@))),
            ),
            _ => self,
        }
    }

    /// The task for an entry of a directory.
    pub open spec fn fork(self, visit: VisitView, item: DirItem) -> TaskView {
        let fresh = TaskView {
            errors: Seq::empty(),
            stage: TaskStageView::Done(None),
            ..self
        };
        match child_plan(self.config, item, visit.parent_matched, visit.ignore) {
            ChildPlan::Skip => fresh,
            ChildPlan::Reserved => fresh.with_error(TreeError::ReservedName(item.path)),
            ChildPlan::CheckLink => fresh.at(TaskStageView::LinkSeen(visit.child(item))),
            ChildPlan::Descend => fresh.enter(visit.child(item)),
            ChildPlan::File => fresh.at(
                TaskStageView::FileEntry(item.path, (visit.depth + 1) as usize),
            ),
        }
    }

    /// The task once all its forks are done. One that did not fork stays as it is.
    pub open spec fn joined(self, outcomes: Seq<OutcomeView>) -> TaskView {
        match self.stage {
            TaskStageView::Fork(visit, entry, _) => TaskView {
                errors: self.errors + errors_of(outcomes),
                ..self
            }.at(
                TaskStageView::Done(
                    finished(
                        self.config,
                        visit.included,
                        visit.depth,
                        entry,
                        nodes_of(outcomes),
                    ),
                ),
            ),
            _ => self,
        }
    }

    /// Whether the task holds a permit to read a directory: it does only between the moment
    /// when it gets one and the moment when it has given it back.
    pub open spec fn holds_permit(self) -> bool {
        self.stage is List || self.stage is Read
    }

    /// No directory lies deeper than traversal goes.
    pub open spec fn wf(self) -> bool {
        match self.stage {
            TaskStageView::Stat(visit) => visit.depth < MAX_INTERNAL_DEPTH,
            TaskStageView::Volume(visit, _) => visit.depth < MAX_INTERNAL_DEPTH,
            TaskStageView::Claim(visit, _) => visit.depth < MAX_INTERNAL_DEPTH,
            TaskStageView::Permit(visit, _) => visit.depth < MAX_INTERNAL_DEPTH,
            TaskStageView::List(visit, _) => visit.depth < MAX_INTERNAL_DEPTH,
            TaskStageView::Read(visit, _, _) => visit.depth < MAX_INTERNAL_DEPTH,
            TaskStageView::Rules(visit, _, _) => visit.depth < MAX_INTERNAL_DEPTH,
            TaskStageView::Fork(visit, _, _) => visit.depth < MAX_INTERNAL_DEPTH,
            TaskStageView::LinkSeen(visit) => visit.depth <= MAX_INTERNAL_DEPTH,
            TaskStageView::LinkEntry(_, depth) => depth <= MAX_INTERNAL_DEPTH,
            TaskStageView::FileEntry(_, depth) => depth <= MAX_INTERNAL_DEPTH,
            TaskStageView::FileStreams(_, depth, _) => depth <= MAX_INTERNAL_DEPTH,
            TaskStageView::Done(_) => true,
        }
    }
}

/// The task for the root of a traversal.
pub open spec fn root_task(
    config: Config,
    root: FsPath,
    root_device: Option<u64>,
    ignore: IgnoreView,
) -> TaskView {
    TaskView {
        config,
        root_device,
        errors: match boundary_error(config, root, root_device) {
            Some(error) => seq![error],
            None => Seq::empty(),
        },
        stage: TaskStageView::Done(None),
    }.enter(VisitView { path: root, depth: 0, included: false, parent_matched: false, ignore })
}

/// A part of a parallel traversal.
///
/// The driver does what `request` asks and hands the answer to `resume`. Once nothing is
/// asked any more, it runs the task `branch(i)` for each `i` below `width()`, in parallel if
/// it likes, hands what they found to `join` in order, and takes what the task found.
#[derive(Debug)]
pub struct NodeTask {
    config: Config,
    root_device: Option<u64>,
    errors: Vec<TreeError>,
    stage: TaskStage,
}

impl View for NodeTask {
    type V = TaskView;

    closed spec fn view(&self) -> TaskView {
        TaskView {
            config: self.config,
            root_device: self.root_device,
            errors: self.errors@,
            stage: self.stage@,
        }
    }
}

impl NodeTask {
    /// The task for the root of a traversal.
    ///
    /// `root_device` is the volume of the root where the file system boundary is watched;
    /// `ignore` holds the rules of the directories above the root.
    pub fn start(
        config: &Config,
        root: FsPath,
        root_device: Option<u64>,
        ignore: IgnoreMatcher,
    ) -> (result: NodeTask)
        ensures
            result@ == root_task(*config, root, root_device, ignore@),
            result@.wf(),
    {
        let mut errors: Vec<TreeError> = Vec::new();
        if let Some(error) = check_root_device(config, &root, root_device) {
            push_error(&mut errors, error);
        }
        assert(errors@ =~= (match boundary_error(*config, root, root_device) {
            Some(error) => seq![error],
            None => Seq::empty(),
        }));
        let task = NodeTask {
            config: *config,
            root_device,
            errors,
            stage: TaskStage::Done(None),
        };
        task.enter(
            Visit { path: root, depth: 0, included: false, parent_matched: false, ignore },
        )
    }

    fn at(self, stage: TaskStage) -> (result: NodeTask)
        ensures
            result@ == self@.at(stage@),
    {
        NodeTask { stage, ..self }
    }

    fn report(self, error: TreeError) -> (result: NodeTask)
        ensures
            result@ == self@.with_error(error),
    {
        let mut errors = self.errors;
        push_error(&mut errors, error);
        NodeTask { errors, ..self }
    }

    fn enter(self, visit: Visit) -> (result: NodeTask)
        ensures
            result@ == self@.enter(visit@),
    {
        match check_depth(&visit.path, visit.depth) {
            Some(error) => self.report(error).at(TaskStage::Done(None)),
            None => self.at(TaskStage::Stat(visit)),
        }
    }

    fn on_stat(self, visit: Visit, described: Result<Entry, TreeError>) -> (result: NodeTask)
        ensures
            result@ == self@.on_stat(visit@, described),
    {
        match described {
            Err(error) => self.report(error).at(TaskStage::Done(None)),
            Ok(entry) => {
                if needs_volume(&entry, visit.depth, &self.config, self.root_device) {
                    self.at(TaskStage::Volume(visit, entry))
                } else {
                    self.on_volume(visit, entry, None)
                }
            },
        }
    }

    fn on_volume(self, visit: Visit, entry: Entry, identity: Option<FileIdInfo>) -> (result:
        NodeTask)
        ensures
            result@ == self@.on_volume(visit@, entry@, identity),
    {
        match check_descend(
            &entry,
            &visit.path,
            visit.depth,
            &self.config,
            self.root_device,
            identity,
        ) {
            DescendCheck::Leaf => self.at(TaskStage::Done(Some(leaf_node(entry)))),
            DescendCheck::LeafWithError(error) => self.report(error).at(
                TaskStage::Done(Some(leaf_node(entry))),
            ),
            DescendCheck::Proceed => self.at(TaskStage::Claim(visit, entry)),
        }
    }

    fn on_claim(self, visit: Visit, entry: Entry, seen: bool) -> (result: NodeTask)
        ensures
            result@ == self@.on_claim(visit@, entry@, seen),
    {
        if seen {
            let mut entry = entry;
            entry.recursive_link = true;
            self.at(TaskStage::Done(Some(leaf_node(entry))))
        } else {
            self.at(TaskStage::Permit(visit, entry))
        }
    }

    fn on_list(self, visit: Visit, entry: Entry, listing: ReadDirResult) -> (result: NodeTask)
        ensures
            result@ == self@.on_list(visit@, entry@, listing),
    {
        match expand_node(entry, &visit.path, listing) {
            Expansion::Leaf(node, error) => {
                let task = match error {
                    Some(error) => self.report(error),
                    None => self,
                };
                task.at(TaskStage::Done(Some(node)))
            },
            Expansion::Open(entry, items) => {
                if visit.ignore.is_enabled() {
                    self.at(TaskStage::Rules(visit, entry, items))
                } else {
                    self.at(TaskStage::Fork(visit, entry, items))
                }
            },
        }
    }

    fn on_rules(
        self,
        visit: Visit,
        entry: Entry,
        items: Vec<DirItem>,
        files: IgnoreFiles,
    ) -> (result: NodeTask)
        ensures
            result@ == self@.at(TaskStageView::Fork(visit@.with_rules(files), entry@, items@)),
    {
        let mut visit = visit;
        let path = visit.path.clone();
        visit.ignore.push_dir(&path, &files);
        self.at(TaskStage::Fork(visit, entry, items))
    }

    fn on_link_seen(self, visit: Visit, seen: bool) -> (result: NodeTask)
        ensures
            result@ == self@.on_link_seen(visit@, seen),
    {
        if seen {
            let task = self.report(TreeError::SymlinkLoop(visit.path.clone()));
            task.at(TaskStage::LinkEntry(visit.path, visit.depth))
        } else {
            self.enter(visit)
        }
    }

    fn on_link_entry(self, described: Result<Entry, TreeError>) -> (result: NodeTask)
        ensures
            result@ == self@.on_link_entry(described),
    {
        match make_recursive_link_node(described) {
            Ok(node) => self.at(TaskStage::Done(Some(node))),
            Err(error) => self.report(error).at(TaskStage::Done(None)),
        }
    }

    fn on_file_entry(self, path: FsPath, depth: usize, described: Result<Entry, TreeError>) -> (result:
        NodeTask)
        ensures
            result@ == self@.on_file_entry(path, depth, described),
    {
        match described {
            Err(error) => self.report(error).at(TaskStage::Done(None)),
            Ok(entry) => {
                if self.config.show_streams {
                    self.at(TaskStage::FileStreams(path, depth, entry))
                } else {
                    self.at(TaskStage::Done(Some(leaf_node(entry))))
                }
            },
        }
    }

    fn on_file_streams(self, path: FsPath, depth: usize, entry: Entry, streams: Vec<StreamInfo>) -> (result:
        NodeTask)
        requires
            depth <= MAX_INTERNAL_DEPTH,
        ensures
            result@ == self@.at(
                TaskStageView::Done(Some(file_tree(entry@, path, depth, true, streams@))),
            ),
    {
        match make_file_node(Ok(entry), &path, depth, true, &streams) {
            Ok(node) => self.at(TaskStage::Done(Some(node))),
            Err(error) => self.report(error).at(TaskStage::Done(None)),
        }
    }

    /// What the task asks for; nothing when it forks or is done.
    pub fn request(&self) -> (result: Option<Request<'_>>)
        ensures
            asked(result) == self@.asks(),
    {
        match &self.stage {
            TaskStage::Stat(visit) => Some(
                Request::Stat { path: &visit.path, depth: visit.depth },
            ),
            TaskStage::Volume(visit, _) => Some(Request::Volume { path: &visit.path }),
            TaskStage::Claim(visit, _) => Some(Request::Claim { path: &visit.path }),
            TaskStage::Permit(_, _) => Some(Request::TakePermit),
            TaskStage::List(visit, _) => Some(Request::List { path: &visit.path }),
            TaskStage::Read(_, _, _) => Some(Request::ReturnPermit),
            TaskStage::Rules(visit, _, _) => Some(Request::Rules { path: &visit.path }),
            TaskStage::LinkSeen(visit) => Some(Request::Seen { path: &visit.path }),
            TaskStage::LinkEntry(path, depth) => Some(Request::Describe { path, depth: *depth }),
            TaskStage::FileEntry(path, depth) => Some(Request::Describe { path, depth: *depth }),
            TaskStage::FileStreams(path, _, _) => Some(Request::Streams { path }),
            _ => None,
        }
    }

    /// Goes on with the answer to the last request. An answer to something else changes
    /// nothing.
    pub fn resume(self, reply: Reply) -> (result: NodeTask)
        requires
            self@.wf(),
        ensures
            result@ == self@.answered(reply),
            result@.wf(),
    {
        let NodeTask { config, root_device, errors, stage } = self;
        let rest = NodeTask { config, root_device, errors, stage: TaskStage::Done(None) };
        match (stage, reply) {
            (TaskStage::Stat(visit), Reply::Entry(described)) => rest.on_stat(visit, described),
            (TaskStage::Volume(visit, entry), Reply::Volume(identity)) => rest.on_volume(
                visit,
                entry,
                identity,
            ),
            (TaskStage::Claim(visit, entry), Reply::Seen(seen)) => rest.on_claim(
                visit,
                entry,
                seen,
            ),
            (TaskStage::Permit(visit, entry), Reply::Done) => rest.at(
                TaskStage::List(visit, entry),
            ),
            (TaskStage::List(visit, entry), Reply::Listing(listing)) => rest.at(
                TaskStage::Read(visit, entry, listing),
            ),
            (TaskStage::Read(visit, entry, listing), Reply::Done) => rest.on_list(
                visit,
                entry,
                listing,
            ),
            (TaskStage::Rules(visit, entry, items), Reply::Rules(files)) => rest.on_rules(
                visit,
                entry,
                items,
                files,
            ),
            (TaskStage::LinkSeen(visit), Reply::Seen(seen)) => rest.on_link_seen(visit, seen),
            (TaskStage::LinkEntry(_, _), Reply::Entry(described)) => rest.on_link_entry(described),
            (TaskStage::FileEntry(path, depth), Reply::Entry(described)) => rest.on_file_entry(
                path,
                depth,
                described,
            ),
            (TaskStage::FileStreams(path, depth, entry), Reply::Streams(streams)) =>
                rest.on_file_streams(path, depth, entry, streams),
            (stage, _) => rest.at(stage),
        }
    }

    /// The number of forks; none for a task that does not fork.
    pub fn width(&self) -> (result: usize)
        ensures
            result == (match self@.stage {
                TaskStageView::Fork(_, _, items) => items.len(),
                _ => 0,
            }),
    {
        match &self.stage {
            TaskStage::Fork(_, _, items) => items.len(),
            _ => 0,
        }
    }

    /// The task for an entry of the directory; a task that is done if there is no such
    /// entry.
    pub fn branch(&self, index: usize) -> (result: NodeTask)
        requires
            self@.wf(),
        ensures
            match self@.stage {
                TaskStageView::Fork(visit, _, items) if index < items.len() => result@
                    == self@.fork(visit, items[index as int]),
                _ => result@.stage == TaskStageView::Done(None) && result@.errors.len() == 0,
            },
            result@.wf(),
    {
        let fresh = NodeTask {
            config: self.config,
            root_device: self.root_device,
            errors: Vec::new(),
            stage: TaskStage::Done(None),
        };
        match &self.stage {
            TaskStage::Fork(visit, _, items) => {
                if index < items.len() {
                    fresh.fork(visit, &items[index])
                } else {
                    fresh
                }
            },
            _ => fresh,
        }
    }

    fn fork(self, visit: &Visit, item: &DirItem) -> (result: NodeTask)
        requires
            visit.depth < MAX_INTERNAL_DEPTH,
            self@.errors.len() == 0,
            self@.stage == TaskStageView::Done(None),
        ensures
            result@ == self@.fork(visit@, *item),
    {
        assert(self@.errors =~= Seq::empty());
        let child = Visit {
            path: item.path.clone(),
            depth: visit.depth + 1,
            included: item.dir_included,
            parent_matched: visit.parent_matched || item.dir_included,
            ignore: visit.ignore.clone_for_child(),
        };
        match plan_child(&self.config, item, visit.parent_matched, &visit.ignore) {
            ChildPlan::Skip => self,
            ChildPlan::Reserved => self.report(TreeError::ReservedName(child.path)),
            ChildPlan::CheckLink => self.at(TaskStage::LinkSeen(child)),
            ChildPlan::Descend => self.enter(child),
            ChildPlan::File => self.at(TaskStage::FileEntry(child.path, child.depth)),
        }
    }

    /// Goes on with what the forks found, in order. A task that does not fork stays as it
    /// is.
    pub fn join(self, outcomes: Vec<Outcome>) -> (result: NodeTask)
        ensures
            result@ == self@.joined(outcomes@.map_values(|outcome: Outcome| outcome@)),
            self@.wf() ==> result@.wf(),
    {
        match self.stage {
            TaskStage::Fork(visit, entry, _) => {
                let mut errors = self.errors;
                let children = gather(outcomes, &mut errors);
                let node = finish_node(
                    &self.config,
                    visit.included,
                    visit.depth,
                    entry,
                    children,
                );
                NodeTask {
                    config: self.config,
                    root_device: self.root_device,
                    errors,
                    stage: TaskStage::Done(node),
                }
            },
            _ => self,
        }
    }

    /// What the task found; nothing but the errors met so far where it is not done.
    pub fn finish(self) -> (result: Outcome)
        ensures
            result@ == (OutcomeView {
                tree: match self@.stage {
                    TaskStageView::Done(node) => node,
                    _ => None,
                },
                errors: self@.errors,
            }),
    {
        let tree = match self.stage {
            TaskStage::Done(node) => node,
            _ => None,
        };
        Outcome { tree, errors: self.errors }
    }
}

/// Collects the nodes and the errors of what several tasks found.
fn gather(outcomes: Vec<Outcome>, errors: &mut Vec<TreeError>) -> (result: Vec<Tree>)
    ensures
        forest(result@) == nodes_of(outcomes@.map_values(|outcome: Outcome| outcome@)),
        final(errors)@ == old(errors)@ + errors_of(
            outcomes@.map_values(|outcome: Outcome| outcome@),
        ),
{
    let ghost all = outcomes@.map_values(|outcome: Outcome| outcome@);
    let ghost given = outcomes@;
    let ghost before = errors@;
    let mut rest = reversed(outcomes);
    let mut children: Vec<Tree> = Vec::new();
    let ghost mut taken: int = 0;
    proof {
        assert(given.skip(0) =~= given);
        assert(forest(children@) =~= Seq::empty());
        assert(errors@ =~= before + Seq::empty());
    }
    while rest.len() > 0
        invariant
            0 <= taken <= given.len(),
            all == given.map_values(|outcome: Outcome| outcome@),
            rest@ == given.skip(taken).reverse(),
            forest(children@) == nodes_of(all.take(taken)),
            errors@ == before + errors_of(all.take(taken)),
        decreases rest@.len(),
    {
        let ghost remaining = rest@;
        if let Some(outcome) = rest.pop() {
            let ghost longer = all.take(taken + 1);
            proof {
                assert(remaining.last() == given[taken]);
                assert(longer.drop_last() =~= all.take(taken));
                assert(longer.last() == outcome@);
                assert(rest@ =~= given.skip(taken + 1).reverse());
            }
            let Outcome { tree, errors: met } = outcome;
            let mut met = met;
            errors.append(&mut met);
            if let Some(tree) = tree {
                proof {
                    lemma_forest_push(children@, tree);
                }
                children.push(tree);
            }
            proof {
                assert(errors@ =~= before + errors_of(longer));
                taken = taken + 1;
            }
        }
    }
    assert(all.take(taken) =~= all);
    children
}

} // verus!
