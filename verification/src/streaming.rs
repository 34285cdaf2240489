//! The streaming traversal: writes entries as they are visited.
//!
//! Unlike the ordered traversal it builds no tree: each entry is written as soon as it is
//! known whether it is the last of its siblings, which takes reading one directory.

use crate::config::{needs_file_id, wants_file_id, Config};
use crate::descend::{
    boundary_error, boundary_verdict, check_one_fs, check_root_device, OnefsCheck,
    MAX_INTERNAL_DEPTH,
};
use crate::entry::{
    as_recursive, stream_entry, Entry, EntryType, EntryView, FileIdInfo, StreamInfo,
};
use crate::error::{io_error, push_error, IoFault, TreeError};
use crate::filter::{filter_entry, filter_verdict, FilterResult};
use crate::ignoring::{rules_in, IgnoreFiles, IgnoreMatcher, IgnoreView};
use crate::listing::{reversed, DirItem, ReadDirResult};
use crate::node::{check_depth, depth_error};
use crate::path::FsPath;
use crate::protocol::{asked, Ask, Reply, Request};
use crate::visited::{Key, VisitedKey, VisitedSet};
use vstd::prelude::*;

verus! {

/// How many directories and files were written.
#[derive(Clone, Copy, Debug, PartialEq, Eq)]
pub struct TreeStats {
    pub directories: usize,
    pub files: usize,
}

impl TreeStats {
    /// Counts the root of a traversal.
    pub fn count_root(&mut self)
        requires
            old(self).directories < usize::MAX,
        ensures
            final(self).directories == old(self).directories + 1,
            final(self).files == old(self).files,
    {
        self.directories = self.directories + 1;
    }

    /// The number of directories and of files that the closing report names; the root does
    /// not count. Nothing where the options leave the report out.
    pub fn report(&self, config: &Config) -> (result: Option<(usize, usize)>)
        ensures
            result == (if config.no_report {
                None
            } else if self.directories == 0 {
                Some((0usize, self.files))
            } else {
                Some(((self.directories - 1) as usize, self.files))
            }),
    {
        if config.no_report {
            None
        } else {
            Some((self.directories.saturating_sub(1), self.files))
        }
    }
}

/// Result of streaming traversal.
#[derive(Debug, PartialEq, Eq)]
pub struct StreamingResult {
    pub errors: Vec<TreeError>,
    pub truncated: bool,
}

/// Traversal state shared by all levels.
#[derive(Debug)]
pub struct StreamState {
    /// The number of entries written below the root.
    count: usize,
    max_entries: Option<usize>,
    truncated: bool,
    visited: VisitedSet,
    root_device: Option<u64>,
    /// Whether entries carry file identities.
    needs_file_id: bool,
    /// For each level above, whether the ancestor there is the last of its siblings.
    ancestors: Vec<bool>,
}

/// Traversal state shared by all levels.
pub struct StateView {
    pub count: usize,
    pub max_entries: Option<usize>,
    pub truncated: bool,
    pub visited: Set<Key>,
    pub root_device: Option<u64>,
    pub needs_file_id: bool,
    pub ancestors: Seq<bool>,
}

impl View for StreamState {
    type V = StateView;

    closed spec fn view(&self) -> StateView {
        StateView {
            count: self.count,
            max_entries: self.max_entries,
            truncated: self.truncated,
            visited: self.visited@,
            root_device: self.root_device,
            needs_file_id: self.needs_file_id,
            ancestors: self.ancestors@,
        }
    }
}

/// One more, up to the largest machine size.
pub open spec fn bumped(count: usize) -> usize {
    if count == usize::MAX {
        count
    } else {
        (count + 1) as usize
    }
}

impl StateView {
    /// Whether as many entries were written as may be shown.
    pub open spec fn is_full(self) -> bool {
        self.max_entries is Some && self.count >= self.max_entries->Some_0
    }

    /// With a directory visited.
    pub open spec fn with_visited(self, key: Key) -> StateView {
        StateView { visited: self.visited.insert(key), ..self }
    }

    /// With an entry written.
    pub open spec fn with_written(self) -> StateView {
        StateView { count: bumped(self.count), ..self }
    }

    /// Inside an entry that is the last of its siblings, or is not.
    pub open spec fn inside(self, is_last: bool) -> StateView {
        StateView { ancestors: self.ancestors.push(is_last), ..self }
    }

    /// Outside again.
    pub open spec fn outside(self) -> StateView {
        StateView { ancestors: self.ancestors.drop_last(), ..self }
    }

    /// With entries left out, or not.
    pub open spec fn cut_short(self, truncated: bool) -> StateView {
        StateView { truncated: self.truncated || truncated, ..self }
    }
}

impl StreamState {
    /// Nothing written, nothing visited.
    pub fn new(max_entries: Option<usize>, root_device: Option<u64>, needs_file_id: bool) -> (result:
        StreamState)
        ensures
            result@ == (StateView {
                count: 0,
                max_entries,
                truncated: false,
                visited: Set::empty(),
                root_device,
                needs_file_id,
                ancestors: Seq::empty(),
            }),
    {
        StreamState {
            count: 0,
            max_entries,
            truncated: false,
            visited: VisitedSet::new(),
            root_device,
            needs_file_id,
            ancestors: Vec::new(),
        }
    }

    /// Check if we've reached the entry limit.
    pub fn should_stop(&self) -> (result: bool)
        ensures
            result == self@.is_full(),
    {
        match self.max_entries {
            Some(max) => self.count >= max,
            None => false,
        }
    }

    fn note_written(&mut self)
        ensures
            final(self)@ == old(self)@.with_written(),
    {
        self.count = self.count.saturating_add(1);
    }

    fn go_inside(&mut self, is_last: bool)
        ensures
            final(self)@ == old(self)@.inside(is_last),
    {
        self.ancestors.push(is_last);
    }

    fn go_outside(&mut self)
        requires
            old(self)@.ancestors.len() > 0,
        ensures
            final(self)@ == old(self)@.outside(),
    {
        let _ = self.ancestors.pop();
    }

    fn cut_short(&mut self, truncated: bool)
        ensures
            final(self)@ == old(self)@.cut_short(truncated),
    {
        self.truncated = self.truncated || truncated;
    }

    fn visit(&mut self, key: VisitedKey) -> (result: bool)
        ensures
            result == !old(self)@.visited.contains(key@),
            final(self)@ == old(self)@.with_visited(key@),
    {
        self.visited.insert(key)
    }

    fn ancestors(&self) -> (result: Vec<bool>)
        ensures
            result@ == self@.ancestors,
    {
        let result = self.ancestors.clone();
        assert(result@ =~= self.ancestors@);
        result
    }
}

/// The entries of a directory that are listed.
pub open spec fn listed_items(
    config: Config,
    parent_matched: bool,
    ignore: IgnoreView,
    items: Seq<DirItem>,
) -> Seq<DirItem>
    decreases items.len(),
{
    if items.len() == 0 {
        Seq::empty()
    } else {
        let front = listed_items(config, parent_matched, ignore, items.drop_last());
        if filter_verdict(config, items.last(), parent_matched, ignore) is Include {
            front.push(items.last())
        } else {
            front
        }
    }
}

/// The errors for the entries of a directory that have reserved names.
pub open spec fn reserved_errors(
    config: Config,
    parent_matched: bool,
    ignore: IgnoreView,
    items: Seq<DirItem>,
) -> Seq<TreeError>
    decreases items.len(),
{
    if items.len() == 0 {
        Seq::empty()
    } else {
        let front = reserved_errors(config, parent_matched, ignore, items.drop_last());
        if filter_verdict(config, items.last(), parent_matched, ignore) is Reserved {
            front.push(TreeError::ReservedName(items.last().path))
        } else {
            front
        }
    }
}

/// Keeps the entries that are listed, and reports those with reserved names.
fn keep_listed(
    config: &Config,
    parent_matched: bool,
    ignore: &IgnoreMatcher,
    items: Vec<DirItem>,
    errors: &mut Vec<TreeError>,
) -> (result: Vec<DirItem>)
    ensures
        result@ == listed_items(*config, parent_matched, ignore@, items@),
        final(errors)@ == old(errors)@ + reserved_errors(*config, parent_matched, ignore@, items@),
{
    let ghost all = items@;
    let ghost before = errors@;
    let mut rest = reversed(items);
    let mut kept: Vec<DirItem> = Vec::new();
    let ghost mut taken: int = 0;
    assert(errors@ =~= before + Seq::empty());
    assert(all.skip(0) =~= all);
    while rest.len() > 0
        invariant
            0 <= taken <= all.len(),
            rest@ == all.skip(taken).reverse(),
            kept@ == listed_items(*config, parent_matched, ignore@, all.take(taken)),
            errors@ == before + reserved_errors(
                *config,
                parent_matched,
                ignore@,
                all.take(taken),
            ),
        decreases rest@.len(),
    {
        let ghost remaining = rest@;
        if let Some(item) = rest.pop() {
            let ghost longer = all.take(taken + 1);
            proof {
                assert(remaining.last() == all[taken]);
                assert(longer.drop_last() =~= all.take(taken));
                assert(longer.last() == item);
                assert(rest@ =~= all.skip(taken + 1).reverse());
            }
            match filter_entry(config, &item, parent_matched, ignore) {
                FilterResult::Include { .. } => {
                    kept.push(item);
                },
                FilterResult::Reserved => {
                    push_error(errors, TreeError::ReservedName(item.path));
                    assert(errors@ =~= before + reserved_errors(
                        *config,
                        parent_matched,
                        ignore@,
                        longer,
                    ));
                },
                FilterResult::Exclude => {},
            }
            proof {
                taken = taken + 1;
            }
        }
    }
    assert(all.take(taken) =~= all);
    kept
}

/// Whether an entry may be descended into.
#[derive(Clone, Copy, Debug, PartialEq, Eq)]
pub enum Lead {
    /// It is not a directory, or not one to enter.
    No,
    /// It is a directory to enter.
    Yes,
    /// It is a followed link that may lead to a directory.
    Link,
}

/// Whether an entry may be descended into.
pub open spec fn lead_of(entry_type: EntryType, config: Config) -> Lead {
    match entry_type {
        EntryType::Directory => Lead::Yes,
        EntryType::Symlink { broken, .. } => if !broken && config.follow_symlinks {
            Lead::Link
        } else {
            Lead::No
        },
        EntryType::Junction { .. } => if config.show_junctions {
            Lead::Yes
        } else {
            Lead::No
        },
        _ => Lead::No,
    }
}

fn check_lead(entry: &Entry, config: &Config) -> (result: Lead)
    ensures
        result == lead_of(entry.entry_type, *config),
{
    match &entry.entry_type {
        EntryType::Directory => Lead::Yes,
        EntryType::Symlink { broken, .. } => {
            if !*broken && config.follow_symlinks {
                Lead::Link
            } else {
                Lead::No
            }
        },
        EntryType::Junction { .. } => {
            if config.show_junctions {
                Lead::Yes
            } else {
                Lead::No
            }
        },
        _ => Lead::No,
    }
}

/// A directory whose entries are to be written, at the depth of those entries.
#[derive(Debug)]
pub struct Level {
    pub path: FsPath,
    pub depth: usize,
    /// Whether it, or a directory above it, matches the include pattern for directories.
    pub parent_matched: bool,
    pub ignore: IgnoreMatcher,
}

/// A directory whose entries are to be written, with its rules as a view.
pub struct LevelView {
    pub path: FsPath,
    pub depth: usize,
    pub parent_matched: bool,
    pub ignore: IgnoreView,
}

impl View for Level {
    type V = LevelView;

    open spec fn view(&self) -> LevelView {
        LevelView {
            path: self.path,
            depth: self.depth,
            parent_matched: self.parent_matched,
            ignore: self.ignore@,
        }
    }
}

impl LevelView {
    /// The same directory with its own rules in force.
    pub open spec fn with_rules(self, files: IgnoreFiles) -> LevelView {
        LevelView {
            ignore: self.ignore.pushed(self.path@, rules_in(self.path@, files)),
            ..self
        }
    }

    /// The level below an entry of this one.
    pub open spec fn below(self, item: DirItem, path: FsPath) -> LevelView {
        LevelView {
            path,
            depth: (self.depth + 1) as usize,
            parent_matched: self.parent_matched || item.dir_included,
            ignore: self.ignore,
        }
    }
}

/// A level whose entries are being written.
#[derive(Debug)]
struct LevelFrame {
    level: Level,
    /// The entries still to write, the next one last.
    items: Vec<DirItem>,
}

/// A level whose entries are being written; `items` are still to come.
pub struct LevelFrameView {
    pub level: LevelView,
    pub items: Seq<DirItem>,
}

impl View for LevelFrame {
    type V = LevelFrameView;

    closed spec fn view(&self) -> LevelFrameView {
        LevelFrameView { level: self.level@, items: self.items@.reverse() }
    }
}

/// What the walk does next.
#[derive(Debug)]
enum StreamStage {
    RootStat(Level),
    RootWrite(Level, Entry),
    RootIdentity(Level),
    Enter(Level),
    Rules(Level),
    List(Level),
    Next,
    Describe(DirItem, bool),
    IsDir(DirItem, Entry),
    Identity(DirItem, Entry),
    Volume(DirItem, Entry),
    Write(DirItem, Entry, bool),
    Streams(FsPath, bool),
    StreamNext(FsPath, Vec<StreamInfo>),
    StreamWrite(FsPath, Vec<StreamInfo>, Entry),
    Return,
    Unwind(Option<TreeError>),
    Done,
    Failed(TreeError),
}

/// What the walk does next.
pub enum StreamStageView {
    /// Wait for the description of the root.
    RootStat(LevelView),
    /// Wait until the root is written.
    RootWrite(LevelView, EntryView),
    /// Wait for the visited-set key of the root.
    RootIdentity(LevelView),
    /// Start with a level.
    Enter(LevelView),
    /// Wait for the ignore files of the directory.
    Rules(LevelView),
    /// Wait for the entries of the directory.
    List(LevelView),
    /// Go on with the next entry of the innermost level.
    Next,
    /// Wait for the description of an entry, the last of its siblings or not.
    Describe(DirItem, bool),
    /// Wait for whether a followed link leads to a directory.
    IsDir(DirItem, EntryView),
    /// Wait for the visited-set key of a directory.
    Identity(DirItem, EntryView),
    /// Wait for the volume of a directory.
    Volume(DirItem, EntryView),
    /// Wait until an entry is written that will be descended into, or will not.
    Write(DirItem, EntryView, bool),
    /// Wait for the streams of an entry, the last of its siblings or not.
    Streams(FsPath, bool),
    /// Go on with the next stream.
    StreamNext(FsPath, Seq<StreamInfo>),
    /// Wait until a stream is written; others are still to come.
    StreamWrite(FsPath, Seq<StreamInfo>, EntryView),
    /// Go back to the level above.
    Return,
    /// Leave all levels above, at the entry limit or because of an error.
    Unwind(Option<TreeError>),
    /// The traversal is over.
    Done,
    /// The traversal was given up.
    Failed(TreeError),
}

impl View for StreamStage {
    type V = StreamStageView;

    closed spec fn view(&self) -> StreamStageView {
        match self {
            StreamStage::RootStat(level) => StreamStageView::RootStat(level@),
            StreamStage::RootWrite(level, entry) => StreamStageView::RootWrite(level@, entry@),
            StreamStage::RootIdentity(level) => StreamStageView::RootIdentity(level@),
            StreamStage::Enter(level) => StreamStageView::Enter(level@),
            StreamStage::Rules(level) => StreamStageView::Rules(level@),
            StreamStage::List(level) => StreamStageView::List(level@),
            StreamStage::Next => StreamStageView::Next,
            StreamStage::Describe(item, is_last) => StreamStageView::Describe(*item, *is_last),
            StreamStage::IsDir(item, entry) => StreamStageView::IsDir(*item, entry@),
            StreamStage::Identity(item, entry) => StreamStageView::Identity(*item, entry@),
            StreamStage::Volume(item, entry) => StreamStageView::Volume(*item, entry@),
            StreamStage::Write(item, entry, descend) => StreamStageView::Write(
                *item,
                entry@,
                *descend,
            ),
            StreamStage::Streams(path, is_last) => StreamStageView::Streams(*path, *is_last),
            StreamStage::StreamNext(path, rest) => StreamStageView::StreamNext(
                *path,
                rest@.reverse(),
            ),
            StreamStage::StreamWrite(path, rest, entry) => StreamStageView::StreamWrite(
                *path,
                rest@.reverse(),
                entry@,
            ),
            StreamStage::Return => StreamStageView::Return,
            StreamStage::Unwind(error) => StreamStageView::Unwind(*error),
            StreamStage::Done => StreamStageView::Done,
            StreamStage::Failed(error) => StreamStageView::Failed(*error),
        }
    }
}

/// What a streaming walk accumulates.
struct StreamCore {
    config: Config,
    errors: Vec<TreeError>,
    state: StreamState,
    frames: Vec<LevelFrame>,
    written: Ghost<Seq<EntryView>>,
}

/// What a streaming walk accumulates: errors, the shared state, the levels that it is inside
/// of, the outermost first, and the entries written, the root first.
pub struct StreamCoreView {
    pub config: Config,
    pub errors: Seq<TreeError>,
    pub state: StateView,
    pub frames: Seq<LevelFrameView>,
    pub written: Seq<EntryView>,
}

impl View for StreamCore {
    type V = StreamCoreView;

    closed spec fn view(&self) -> StreamCoreView {
        StreamCoreView {
            config: self.config,
            errors: self.errors@,
            state: self.state@,
            frames: self.frames@.map_values(|frame: LevelFrame| frame@),
            written: self.written@,
        }
    }
}

/// The state of a streaming walk.
pub struct StreamView {
    pub core: StreamCoreView,
    pub stage: StreamStageView,
}

/// An entry below the root as it is written.
pub open spec fn placed(entry: EntryView, is_last: bool, ancestors: Seq<bool>) -> EntryView {
    EntryView { is_last, ancestors_last: ancestors, ..entry }
}

impl StreamCoreView {
    /// With an error reported.
    pub open spec fn with_error(self, error: TreeError) -> StreamCoreView {
        StreamCoreView { errors: self.errors.push(error), ..self }
    }

    /// With an error reported, if there is one.
    pub open spec fn with_maybe_error(self, error: Option<TreeError>) -> StreamCoreView {
        match error {
            Some(error) => self.with_error(error),
            None => self,
        }
    }

    /// With another shared state.
    pub open spec fn with_state(self, state: StateView) -> StreamCoreView {
        StreamCoreView { state, ..self }
    }

    /// With an entry written.
    pub open spec fn with_output(self, entry: EntryView) -> StreamCoreView {
        StreamCoreView { written: self.written.push(entry), ..self }
    }

    /// With a level entered.
    pub open spec fn with_frame(self, frame: LevelFrameView) -> StreamCoreView {
        StreamCoreView { frames: self.frames.push(frame), ..self }
    }

    /// With the innermost level left.
    pub open spec fn without_frame(self) -> StreamCoreView {
        StreamCoreView { frames: self.frames.drop_last(), ..self }
    }

    /// With the next entry of the innermost level taken.
    pub open spec fn without_next(self) -> StreamCoreView {
        let top = self.frames.last();
        StreamCoreView {
            frames: self.frames.drop_last().push(
                LevelFrameView { items: top.items.skip(1), ..top },
            ),
            ..self
        }
    }

    /// At the given stage.
    pub open spec fn at(self, stage: StreamStageView) -> StreamView {
        StreamView { core: self, stage }
    }

    /// Done with a level for good: at the entry limit, or because of an error.
    pub open spec fn give_up(self, error: Option<TreeError>) -> StreamView {
        self.with_state(self.state.cut_short(error is None)).at(StreamStageView::Unwind(error))
    }

    /// Leaving the innermost level for good.
    pub open spec fn stop(self, error: Option<TreeError>) -> StreamView {
        self.without_frame().give_up(error)
    }

    /// Leaving the level above for good, if there is one.
    pub open spec fn unwind(self, error: Option<TreeError>) -> StreamView {
        if self.frames.len() > 0 {
            self.with_state(self.state.outside()).without_frame().at(
                StreamStageView::Unwind(error),
            )
        } else {
            self.at(
                match error {
                    Some(error) => StreamStageView::Failed(error),
                    None => StreamStageView::Done,
                },
            )
        }
    }

    /// With the root described.
    pub open spec fn on_root(
        self,
        level: LevelView,
        described: Result<Entry, TreeError>,
    ) -> StreamView {
        match described {
            Err(error) => self.at(StreamStageView::Failed(error)),
            Ok(entry) => self.at(StreamStageView::RootWrite(level, entry@)),
        }
    }

    /// With the root written, or not.
    pub open spec fn on_root_written(
        self,
        level: LevelView,
        entry: EntryView,
        written: Result<(), TreeError>,
    ) -> StreamView {
        match written {
            Err(error) => self.at(StreamStageView::Failed(error)),
            Ok(_) => self.with_output(entry).with_maybe_error(
                boundary_error(self.config, level.path, self.state.root_device),
            ).at(StreamStageView::RootIdentity(level)),
        }
    }

    /// With the key of the root known.
    pub open spec fn on_root_identity(self, level: LevelView, key: Key) -> StreamView {
        self.with_state(self.state.with_visited(key)).at(StreamStageView::Enter(level))
    }

    /// Starting with a level: one too deep is reported, one beyond the depth limit is left
    /// out.
    pub open spec fn enter(self, level: LevelView) -> StreamView {
        match depth_error(level.path, level.depth) {
            Some(error) => self.with_error(error).at(StreamStageView::Return),
            None => if self.config.max_depth is Some && level.depth
                > self.config.max_depth->Some_0 {
                self.at(StreamStageView::Return)
            } else if level.ignore.enabled {
                self.at(StreamStageView::Rules(level))
            } else {
                self.at(StreamStageView::List(level))
            },
        }
    }

    /// With the directory read.
    pub open spec fn on_list(self, level: LevelView, listing: ReadDirResult) -> StreamView {
        match listing {
            ReadDirResult::ReadError(fault) => self.with_error(io_error(level.path, fault)).at(
                StreamStageView::Return,
            ),
            ReadDirResult::FilelimitExceeded(_) => self.at(StreamStageView::Return),
            ReadDirResult::Entries(items) => StreamCoreView {
                errors: self.errors + reserved_errors(
                    self.config,
                    level.parent_matched,
                    level.ignore,
                    items@,
                ),
                ..self
            }.with_frame(
                LevelFrameView {
                    level,
                    items: listed_items(
                        self.config,
                        level.parent_matched,
                        level.ignore,
                        items@,
                    ),
                },
            ).at(StreamStageView::Next),
        }
    }

    /// Going on with the innermost level, unless as many entries were written as may be
    /// shown.
    pub open spec fn next(self) -> StreamView {
        let items = self.frames.last().items;
        if items.len() == 0 {
            self.without_frame().at(StreamStageView::Return)
        } else if self.state.is_full() {
            self.stop(None)
        } else {
            self.without_next().at(StreamStageView::Describe(items[0], items.len() == 1))
        }
    }

    /// With an entry described.
    pub open spec fn on_entry(
        self,
        item: DirItem,
        is_last: bool,
        described: Result<Entry, TreeError>,
    ) -> StreamView {
        match described {
            Err(error) => self.with_error(error).at(StreamStageView::Next),
            Ok(entry) => {
                let entry = placed(entry@, is_last, self.state.ancestors);
                match lead_of(entry.entry_type, self.config) {
                    Lead::No => self.at(StreamStageView::Write(item, entry, false)),
                    Lead::Yes => self.at(StreamStageView::Identity(item, entry)),
                    Lead::Link => self.at(StreamStageView::IsDir(item, entry)),
                }
            },
        }
    }

    /// With it known whether a followed link leads to a directory.
    pub open spec fn on_is_dir(self, item: DirItem, entry: EntryView, is_dir: bool) -> StreamView {
        if is_dir {
            self.at(StreamStageView::Identity(item, entry))
        } else {
            self.at(StreamStageView::Write(item, entry, false))
        }
    }

    /// With the key of a directory known: one that was visited before is not entered.
    pub open spec fn on_identity(self, item: DirItem, entry: EntryView, key: Key) -> StreamView {
        if self.state.visited.contains(key) {
            self.at(StreamStageView::Write(item, as_recursive(entry), false))
        } else {
            let visited = self.with_state(self.state.with_visited(key));
            if self.state.root_device is Some {
                visited.at(StreamStageView::Volume(item, entry))
            } else {
                visited.at(StreamStageView::Write(item, entry, true))
            }
        }
    }

    /// With the volume of a directory known.
    pub open spec fn on_volume(
        self,
        item: DirItem,
        entry: EntryView,
        identity: Option<FileIdInfo>,
    ) -> StreamView {
        match boundary_verdict(self.state.root_device, identity) {
            OnefsCheck::Proceed => self.at(StreamStageView::Write(item, entry, true)),
            OnefsCheck::DifferentDevice => self.at(StreamStageView::Write(item, entry, false)),
            OnefsCheck::Unknown => self.with_error(
                TreeError::Io(entry.path, IoFault::UnknownVolume),
            ).at(StreamStageView::Write(item, entry, false)),
        }
    }

    /// With an entry written, or not.
    pub open spec fn on_written(
        self,
        item: DirItem,
        entry: EntryView,
        descend: bool,
        written: Result<(), TreeError>,
    ) -> StreamView {
        match written {
            Err(error) => self.stop(Some(error)),
            Ok(_) => {
                let after = self.with_output(entry).with_state(self.state.with_written());
                if descend {
                    after.with_state(after.state.inside(entry.is_last)).at(
                        StreamStageView::Enter(self.frames.last().level.below(item, entry.path)),
                    )
                } else if self.config.show_streams {
                    after.at(StreamStageView::Streams(entry.path, entry.is_last))
                } else {
                    after.at(StreamStageView::Next)
                }
            },
        }
    }

    /// With the streams of an entry known.
    pub open spec fn on_streams(
        self,
        path: FsPath,
        is_last: bool,
        streams: Seq<StreamInfo>,
    ) -> StreamView {
        self.with_state(self.state.inside(is_last)).at(StreamStageView::StreamNext(path, streams))
    }

    /// Going on with the streams of an entry, unless as many entries were written as may be
    /// shown.
    pub open spec fn next_stream(self, path: FsPath, streams: Seq<StreamInfo>) -> StreamView {
        if streams.len() == 0 {
            self.with_state(self.state.outside()).at(StreamStageView::Next)
        } else if self.state.is_full() {
            self.with_state(self.state.outside()).stop(None)
        } else {
            let depth = (self.frames.last().level.depth + 1) as usize;
            self.at(
                StreamStageView::StreamWrite(
                    path,
                    streams.skip(1),
                    placed(
                        stream_entry(path, streams[0], depth),
                        streams.len() == 1,
                        self.state.ancestors,
                    ),
                ),
            )
        }
    }

    /// With a stream written, or not.
    pub open spec fn on_stream_written(
        self,
        path: FsPath,
        streams: Seq<StreamInfo>,
        entry: EntryView,
        written: Result<(), TreeError>,
    ) -> StreamView {
        match written {
            Err(error) => self.with_state(self.state.outside()).stop(Some(error)),
            Ok(_) => self.with_output(entry).with_state(self.state.with_written()).at(
                StreamStageView::StreamNext(path, streams),
            ),
        }
    }

    /// Going back to the level above.
    pub open spec fn back(self) -> StreamView {
        if self.frames.len() == 0 {
            self.at(StreamStageView::Done)
        } else {
            self.with_state(self.state.outside()).at(StreamStageView::Next)
        }
    }
}

impl StreamView {
    /// Whether the walk goes on without an answer.
    pub open spec fn is_busy(self) -> bool {
        ||| self.stage is Enter
        ||| self.stage is Next && self.core.frames.len() > 0
        ||| self.stage is StreamNext && self.core.frames.len() > 0
        ||| self.stage is Return
        ||| self.stage is Unwind
    }

    /// One step of a busy walk.
    pub open spec fn advance(self) -> StreamView {
        match self.stage {
            StreamStageView::Enter(level) => self.core.enter(level),
            StreamStageView::Next => self.core.next(),
            StreamStageView::StreamNext(path, streams) => self.core.next_stream(path, streams),
            StreamStageView::Return => self.core.back(),
            StreamStageView::Unwind(error) => self.core.unwind(error),
            _ => self,
        }
    }

    /// What the walk asks for.
    pub open spec fn asks(self) -> Option<Ask> {
        match self.stage {
            StreamStageView::RootStat(level) => Some(Ask::Stat { path: level.path, depth: 0 }),
            StreamStageView::RootWrite(_, entry) => Some(Ask::Write { entry }),
            StreamStageView::RootIdentity(level) => Some(Ask::Identity { path: level.path }),
            StreamStageView::Rules(level) => Some(Ask::Rules { path: level.path }),
            StreamStageView::List(level) => Some(Ask::List { path: level.path }),
            StreamStageView::Describe(item, _) => Some(
                Ask::Describe { path: item.path, depth: self.core.frames.last().level.depth },
            ),
            StreamStageView::IsDir(_, entry) => Some(Ask::IsDir { path: entry.path }),
            StreamStageView::Identity(_, entry) => Some(Ask::Identity { path: entry.path }),
            StreamStageView::Volume(_, entry) => Some(Ask::Volume { path: entry.path }),
            StreamStageView::Write(_, entry, _) => Some(Ask::Write { entry }),
            StreamStageView::Streams(path, _) => Some(Ask::Streams { path }),
            StreamStageView::StreamWrite(_, _, entry) => Some(Ask::Write { entry }),
            _ => None,
        }
    }

    /// The walk once it has its answer. An answer to something else changes nothing.
    pub open spec fn answered(self, reply: Reply) -> StreamView {
        match (self.stage, reply) {
            (StreamStageView::RootStat(level), Reply::Entry(described)) => self.core.on_root(
                level,
                described,
            ),
            (StreamStageView::RootWrite(level, entry), Reply::Written(written)) =>
                self.core.on_root_written(level, entry, written),
            (StreamStageView::RootIdentity(level), Reply::Identity(key)) =>
                self.core.on_root_identity(level, key@),
            (StreamStageView::Rules(level), Reply::Rules(files)) => self.core.at(
                StreamStageView::List(level.with_rules(files)),
            ),
            (StreamStageView::List(level), Reply::Listing(listing)) => self.core.on_list(
                level,
                listing,
            ),
            (StreamStageView::Describe(item, is_last), Reply::Entry(described)) =>
                self.core.on_entry(item, is_last, described),
            (StreamStageView::IsDir(item, entry), Reply::IsDir(is_dir)) => self.core.on_is_dir(
                item,
                entry,
                is_dir,
            ),
            (StreamStageView::Identity(item, entry), Reply::Identity(key)) =>
                self.core.on_identity(item, entry, key@),
            (StreamStageView::Volume(item, entry), Reply::Volume(identity)) =>
                self.core.on_volume(item, entry, identity),
            (StreamStageView::Write(item, entry, descend), Reply::Written(written)) =>
                self.core.on_written(item, entry, descend, written),
            (StreamStageView::Streams(path, is_last), Reply::Streams(streams)) =>
                self.core.on_streams(path, is_last, streams@),
            (StreamStageView::StreamWrite(path, streams, entry), Reply::Written(written)) =>
                self.core.on_stream_written(path, streams, entry, written),
            _ => self,
        }
    }

    /// How many levels the ancestor flags describe.
    pub open spec fn nesting(self) -> int {
        match self.stage {
            StreamStageView::Enter(_) => self.core.frames.len() as int,
            StreamStageView::Rules(_) => self.core.frames.len() as int,
            StreamStageView::List(_) => self.core.frames.len() as int,
            StreamStageView::Return => self.core.frames.len() as int,
            StreamStageView::Unwind(_) => self.core.frames.len() as int,
            StreamStageView::StreamNext(_, _) => self.core.frames.len() as int,
            StreamStageView::StreamWrite(_, _, _) => self.core.frames.len() as int,
            _ => if self.core.frames.len() == 0 {
                0
            } else {
                self.core.frames.len() - 1
            },
        }
    }

    /// No level lies deeper than traversal goes, entries are visited only inside a level,
    /// and there is a flag for every level above.
    pub open spec fn wf(self) -> bool {
        &&& forall|i: int|
            0 <= i < self.core.frames.len() ==> (#[trigger] self.core.frames[i]).level.depth
                < MAX_INTERNAL_DEPTH
        &&& self.core.state.ancestors.len() == self.nesting()
        &&& match self.stage {
            StreamStageView::RootStat(level) => self.core.frames.len() == 0 && level.depth == 1,
            StreamStageView::RootWrite(level, _) => self.core.frames.len() == 0 && level.depth
                == 1,
            StreamStageView::RootIdentity(level) => self.core.frames.len() == 0 && level.depth
                == 1,
            StreamStageView::Enter(level) => level.depth <= MAX_INTERNAL_DEPTH,
            StreamStageView::Rules(level) => level.depth < MAX_INTERNAL_DEPTH,
            StreamStageView::List(level) => level.depth < MAX_INTERNAL_DEPTH,
            StreamStageView::Return => true,
            StreamStageView::Unwind(_) => true,
            StreamStageView::Done => true,
            StreamStageView::Failed(_) => true,
            _ => self.core.frames.len() > 0,
        }
    }

    /// How much a busy walk can do before it needs an answer.
    pub open spec fn workload(self) -> nat {
        3 * self.core.frames.len() + match self.stage {
            StreamStageView::Enter(_) => 3nat,
            StreamStageView::Return => 2nat,
            StreamStageView::Unwind(_) => 2nat,
            StreamStageView::StreamNext(_, _) => 2nat,
            StreamStageView::Next => 1nat,
            _ => 0nat,
        }
    }

    /// The walk once it needs an answer or is over.
    pub open spec fn settled(self) -> StreamView
        decreases self.workload(),
    {
        if self.is_busy() {
            self.advance().settled()
        } else {
            self
        }
    }
}

/// The state in which the traversal of `root` starts.
pub open spec fn stream_start(
    config: Config,
    root: FsPath,
    root_device: Option<u64>,
    ignore: IgnoreView,
) -> StreamView {
    StreamCoreView {
        config,
        errors: Seq::empty(),
        state: StateView {
            count: 0,
            max_entries: config.max_entries,
            truncated: false,
            visited: Set::empty(),
            root_device,
            needs_file_id: wants_file_id(config),
            ancestors: Seq::empty(),
        },
        frames: Seq::empty(),
        written: Seq::empty(),
    }.at(
        StreamStageView::RootStat(
            LevelView { path: root, depth: 1, parent_matched: false, ignore },
        ),
    )
}

/// Steps keep a walk well-formed.
pub proof fn lemma_stream_advance_wf(walk: StreamView)
    requires
        walk.wf(),
        walk.is_busy(),
    ensures
        walk.advance().wf(),
{
    let core = walk.core;
    if core.frames.len() > 0 {
        assert(core.frames.last() == core.frames[core.frames.len() - 1]);
    }
}

/// Answers keep a walk well-formed.
pub proof fn lemma_stream_answered_wf(walk: StreamView, reply: Reply)
    requires
        walk.wf(),
    ensures
        walk.answered(reply).wf(),
{
    let core = walk.core;
    if core.frames.len() > 0 {
        assert(core.frames.last() == core.frames[core.frames.len() - 1]);
    }
}

/// The views of the levels on a stack, as the stack grows.
proof fn lemma_levels_push(frames: Seq<LevelFrame>, frame: LevelFrame)
    ensures
        frames.push(frame).map_values(|f: LevelFrame| f@) == frames.map_values(
            |f: LevelFrame| f@,
        ).push(frame@),
{
    assert(frames.push(frame).map_values(|f: LevelFrame| f@) =~= frames.map_values(
        |f: LevelFrame| f@,
    ).push(frame@));
}

impl StreamCore {
    spec fn depths_ok(self) -> bool {
        forall|i: int|
            0 <= i < self@.frames.len() ==> (#[trigger] self@.frames[i]).level.depth
                < MAX_INTERNAL_DEPTH
    }

    fn report(&mut self, error: TreeError)
        ensures
            final(self)@ == old(self)@.with_error(error),
    {
        push_error(&mut self.errors, error);
    }

    fn note_output(&mut self, Ghost(entry): Ghost<EntryView>)
        ensures
            final(self)@ == old(self)@.with_output(entry),
    {
        self.written = Ghost(self.written@.push(entry));
    }

    fn push_frame(&mut self, frame: LevelFrame)
        ensures
            final(self)@ == old(self)@.with_frame(frame@),
    {
        proof {
            lemma_levels_push(self.frames@, frame);
        }
        self.frames.push(frame);
    }

    fn pop_frame(&mut self) -> (result: LevelFrame)
        requires
            old(self)@.frames.len() > 0,
        ensures
            result@ == old(self)@.frames.last(),
            final(self)@ == old(self)@.without_frame(),
    {
        let ghost before = self.frames@;
        let popped = self.frames.pop();
        assert(self.frames@.map_values(|f: LevelFrame| f@) =~= before.map_values(
            |f: LevelFrame| f@,
        ).drop_last());
        popped.unwrap()
    }

    /// The depth of the entries of the innermost level.
    fn top_depth(&self) -> (result: usize)
        requires
            self@.frames.len() > 0,
        ensures
            result == self@.frames.last().level.depth,
    {
        self.frames[self.frames.len() - 1].level.depth
    }

    /// The level below an entry of the innermost one.
    fn level_below(&self, item: &DirItem, path: &FsPath) -> (result: Level)
        requires
            self@.frames.len() > 0,
            self@.frames.last().level.depth < MAX_INTERNAL_DEPTH,
        ensures
            result@ == self@.frames.last().level.below(*item, *path),
    {
        let top = &self.frames[self.frames.len() - 1].level;
        Level {
            path: path.clone(),
            depth: top.depth + 1,
            parent_matched: top.parent_matched || item.dir_included,
            ignore: top.ignore.clone_for_child(),
        }
    }

    fn give_up(&mut self, error: Option<TreeError>) -> (result: StreamStage)
        ensures
            final(self)@.at(result@) == old(self)@.give_up(error),
    {
        self.state.cut_short(error.is_none());
        StreamStage::Unwind(error)
    }

    fn stop(&mut self, error: Option<TreeError>) -> (result: StreamStage)
        requires
            old(self)@.frames.len() > 0,
        ensures
            final(self)@.at(result@) == old(self)@.stop(error),
    {
        let _ = self.pop_frame();
        self.give_up(error)
    }

    fn unwind(&mut self, error: Option<TreeError>) -> (result: StreamStage)
        requires
            old(self)@.frames.len() > 0 ==> old(self)@.state.ancestors.len() > 0,
        ensures
            final(self)@.at(result@) == old(self)@.unwind(error),
    {
        if self.frames.len() > 0 {
            self.state.go_outside();
            let _ = self.pop_frame();
            return StreamStage::Unwind(error);
        }
        match error {
            Some(error) => StreamStage::Failed(error),
            None => StreamStage::Done,
        }
    }

    fn on_root(&mut self, level: Level, described: Result<Entry, TreeError>) -> (result:
        StreamStage)
        ensures
            final(self)@.at(result@) == old(self)@.on_root(level@, described),
    {
        match described {
            Err(error) => StreamStage::Failed(error),
            Ok(entry) => StreamStage::RootWrite(level, entry),
        }
    }

    fn on_root_written(&mut self, level: Level, entry: Entry, written: Result<(), TreeError>) -> (result:
        StreamStage)
        ensures
            final(self)@.at(result@) == old(self)@.on_root_written(level@, entry@, written),
    {
        match written {
            Err(error) => StreamStage::Failed(error),
            Ok(_) => {
                self.note_output(Ghost(entry@));
                if let Some(error) = check_root_device(
                    &self.config,
                    &level.path,
                    self.state.root_device,
                ) {
                    self.report(error);
                }
                StreamStage::RootIdentity(level)
            },
        }
    }

    fn on_root_identity(&mut self, level: Level, key: VisitedKey) -> (result: StreamStage)
        ensures
            final(self)@.at(result@) == old(self)@.on_root_identity(level@, key@),
    {
        let _ = self.state.visit(key);
        StreamStage::Enter(level)
    }

    fn enter(&mut self, level: Level) -> (result: StreamStage)
        ensures
            final(self)@.at(result@) == old(self)@.enter(level@),
    {
        if let Some(error) = check_depth(&level.path, level.depth) {
            self.report(error);
            return StreamStage::Return;
        }
        if let Some(max) = self.config.max_depth {
            if level.depth > max {
                return StreamStage::Return;
            }
        }
        if level.ignore.is_enabled() {
            StreamStage::Rules(level)
        } else {
            StreamStage::List(level)
        }
    }

    fn on_list(&mut self, level: Level, listing: ReadDirResult) -> (result: StreamStage)
        ensures
            final(self)@.at(result@) == old(self)@.on_list(level@, listing),
    {
        match listing {
            ReadDirResult::ReadError(fault) => {
                self.report(TreeError::from_io(level.path.clone(), fault));
                StreamStage::Return
            },
            ReadDirResult::FilelimitExceeded(_) => StreamStage::Return,
            ReadDirResult::Entries(items) => {
                let kept = keep_listed(
                    &self.config,
                    level.parent_matched,
                    &level.ignore,
                    items,
                    &mut self.errors,
                );
                let ghost listed = kept@;
                let frame = LevelFrame { level, items: reversed(kept) };
                assert(frame.items@.reverse() =~= listed);
                self.push_frame(frame);
                StreamStage::Next
            },
        }
    }

    fn next(&mut self) -> (result: StreamStage)
        requires
            old(self)@.frames.len() > 0,
        ensures
            final(self)@.at(result@) == old(self)@.next(),
    {
        let mut frame = self.pop_frame();
        let ghost top = frame@;
        if frame.items.len() == 0 {
            return StreamStage::Return;
        }
        if self.state.should_stop() {
            return self.give_up(None);
        }
        let is_last = frame.items.len() == 1;
        let popped = frame.items.pop();
        let item = popped.unwrap();
        assert(frame.items@.reverse() =~= top.items.skip(1));
        assert(item == top.items[0]);
        self.push_frame(frame);
        StreamStage::Describe(item, is_last)
    }

    fn on_entry(&mut self, item: DirItem, is_last: bool, described: Result<Entry, TreeError>) -> (result:
        StreamStage)
        ensures
            final(self)@.at(result@) == old(self)@.on_entry(item, is_last, described),
    {
        match described {
            Err(error) => {
                self.report(error);
                StreamStage::Next
            },
            Ok(entry) => {
                let mut entry = entry;
                entry.is_last = is_last;
                entry.ancestors_last = self.state.ancestors();
                match check_lead(&entry, &self.config) {
                    Lead::No => StreamStage::Write(item, entry, false),
                    Lead::Yes => StreamStage::Identity(item, entry),
                    Lead::Link => StreamStage::IsDir(item, entry),
                }
            },
        }
    }

    fn on_identity(&mut self, item: DirItem, entry: Entry, key: VisitedKey) -> (result: StreamStage)
        ensures
            final(self)@.at(result@) == old(self)@.on_identity(item, entry@, key@),
    {
        if self.state.visit(key) {
            if self.state.root_device.is_some() {
                StreamStage::Volume(item, entry)
            } else {
                StreamStage::Write(item, entry, true)
            }
        } else {
            assert(old(self)@.state.visited.insert(key@) =~= old(self)@.state.visited);
            let mut entry = entry;
            entry.recursive_link = true;
            StreamStage::Write(item, entry, false)
        }
    }

    fn on_volume(&mut self, item: DirItem, entry: Entry, identity: Option<FileIdInfo>) -> (result:
        StreamStage)
        ensures
            final(self)@.at(result@) == old(self)@.on_volume(item, entry@, identity),
    {
        match check_one_fs(self.state.root_device, identity) {
            OnefsCheck::Proceed => StreamStage::Write(item, entry, true),
            OnefsCheck::DifferentDevice => StreamStage::Write(item, entry, false),
            OnefsCheck::Unknown => {
                self.report(TreeError::Io(entry.path.clone(), IoFault::UnknownVolume));
                StreamStage::Write(item, entry, false)
            },
        }
    }

    fn on_written(
        &mut self,
        item: DirItem,
        entry: Entry,
        descend: bool,
        written: Result<(), TreeError>,
    ) -> (result: StreamStage)
        requires
            old(self)@.frames.len() > 0,
            old(self).depths_ok(),
        ensures
            final(self)@.at(result@) == old(self)@.on_written(item, entry@, descend, written),
    {
        match written {
            Err(error) => self.stop(Some(error)),
            Ok(_) => {
                self.note_output(Ghost(entry@));
                self.state.note_written();
                if descend {
                    let level = self.level_below(&item, &entry.path);
                    self.state.go_inside(entry.is_last);
                    StreamStage::Enter(level)
                } else if self.config.show_streams {
                    StreamStage::Streams(entry.path, entry.is_last)
                } else {
                    StreamStage::Next
                }
            },
        }
    }

    fn on_streams(&mut self, path: FsPath, is_last: bool, streams: Vec<StreamInfo>) -> (result:
        StreamStage)
        ensures
            final(self)@.at(result@) == old(self)@.on_streams(path, is_last, streams@),
    {
        let ghost all = streams@;
        self.state.go_inside(is_last);
        let rest = reversed(streams);
        assert(rest@.reverse() =~= all);
        StreamStage::StreamNext(path, rest)
    }

    fn next_stream(&mut self, path: FsPath, streams: Vec<StreamInfo>) -> (result: StreamStage)
        requires
            old(self)@.frames.len() > 0,
            old(self).depths_ok(),
            old(self)@.state.ancestors.len() > 0,
        ensures
            final(self)@.at(result@) == old(self)@.next_stream(path, streams@.reverse()),
    {
        let ghost before = streams@.reverse();
        let mut streams = streams;
        if streams.len() == 0 {
            self.state.go_outside();
            return StreamStage::Next;
        }
        if self.state.should_stop() {
            self.state.go_outside();
            return self.stop(None);
        }
        let is_last = streams.len() == 1;
        let popped = streams.pop();
        let stream = popped.unwrap();
        assert(streams@.reverse() =~= before.skip(1));
        assert(stream == before[0]);
        let mut entry = Entry::from_ads(&path, &stream, self.top_depth() + 1);
        entry.is_last = is_last;
        entry.ancestors_last = self.state.ancestors();
        StreamStage::StreamWrite(path, streams, entry)
    }

    fn on_stream_written(
        &mut self,
        path: FsPath,
        streams: Vec<StreamInfo>,
        entry: Entry,
        written: Result<(), TreeError>,
    ) -> (result: StreamStage)
        requires
            old(self)@.frames.len() > 0,
            old(self)@.state.ancestors.len() > 0,
        ensures
            final(self)@.at(result@) == old(self)@.on_stream_written(
                path,
                streams@.reverse(),
                entry@,
                written,
            ),
    {
        match written {
            Err(error) => {
                self.state.go_outside();
                self.stop(Some(error))
            },
            Ok(_) => {
                self.note_output(Ghost(entry@));
                self.state.note_written();
                StreamStage::StreamNext(path, streams)
            },
        }
    }

    fn back(&mut self) -> (result: StreamStage)
        requires
            old(self)@.frames.len() > 0 ==> old(self)@.state.ancestors.len() > 0,
        ensures
            final(self)@.at(result@) == old(self)@.back(),
    {
        if self.frames.len() == 0 {
            StreamStage::Done
        } else {
            self.state.go_outside();
            StreamStage::Next
        }
    }
}

/// A traversal that writes entries as it visits them.
///
/// The driver does what `request` asks and hands the answer to `resume`, until nothing is
/// asked any more.
pub struct StreamWalk {
    core: StreamCore,
    stage: StreamStage,
}

impl View for StreamWalk {
    type V = StreamView;

    closed spec fn view(&self) -> StreamView {
        StreamView { core: self.core@, stage: self.stage@ }
    }
}

impl StreamWalk {
    /// Begins the traversal of `root`.
    ///
    /// `root_device` is the volume of the root where the file system boundary is watched;
    /// `ignore` holds the rules of the directories above the root.
    pub fn start(
        config: &Config,
        root: FsPath,
        root_device: Option<u64>,
        ignore: IgnoreMatcher,
    ) -> (result: StreamWalk)
        ensures
            result@ == stream_start(*config, root, root_device, ignore@),
            result@.wf(),
    {
        let core = StreamCore {
            config: *config,
            errors: Vec::new(),
            state: StreamState::new(config.max_entries, root_device, needs_file_id(config)),
            frames: Vec::new(),
            written: Ghost(Seq::empty()),
        };
        assert(core@.frames =~= Seq::empty());
        let level = Level { path: root, depth: 1, parent_matched: false, ignore };
        StreamWalk { core, stage: StreamStage::RootStat(level) }
    }

    /// Goes on until an answer is needed or the traversal is over.
    fn settle(self) -> (result: StreamWalk)
        requires
            self@.wf(),
        ensures
            result@ == self@.settled(),
            result@.wf(),
            !result@.is_busy(),
    {
        let StreamWalk { core, stage } = self;
        let mut core = core;
        let mut stage = stage;
        loop
            invariant
                core@.at(stage@).wf(),
                core@.at(stage@).settled() == self@.settled(),
            decreases core@.at(stage@).workload(),
        {
            let ghost walk = core@.at(stage@);
            proof {
                if walk.is_busy() {
                    lemma_stream_advance_wf(walk);
                }
            }
            match stage {
                StreamStage::Enter(level) => {
                    stage = core.enter(level);
                },
                StreamStage::Next => {
                    stage = core.next();
                },
                StreamStage::StreamNext(path, streams) => {
                    stage = core.next_stream(path, streams);
                },
                StreamStage::Return => {
                    stage = core.back();
                },
                StreamStage::Unwind(error) => {
                    stage = core.unwind(error);
                },
                other => {
                    return StreamWalk { core, stage: other };
                },
            }
        }
    }

    /// What the walk asks for; nothing when the traversal is over.
    pub fn request(&self) -> (result: Option<Request<'_>>)
        requires
            self@.wf(),
        ensures
            asked(result) == self@.asks(),
    {
        match &self.stage {
            StreamStage::RootStat(level) => Some(Request::Stat { path: &level.path, depth: 0 }),
            StreamStage::RootWrite(_, entry) => Some(Request::Write { entry }),
            StreamStage::RootIdentity(level) => Some(Request::Identity { path: &level.path }),
            StreamStage::Rules(level) => Some(Request::Rules { path: &level.path }),
            StreamStage::List(level) => Some(Request::List { path: &level.path }),
            StreamStage::Describe(item, _) => Some(
                Request::Describe { path: &item.path, depth: self.core.top_depth() },
            ),
            StreamStage::IsDir(_, entry) => Some(Request::IsDir { path: &entry.path }),
            StreamStage::Identity(_, entry) => Some(Request::Identity { path: &entry.path }),
            StreamStage::Volume(_, entry) => Some(Request::Volume { path: &entry.path }),
            StreamStage::Write(_, entry, _) => Some(Request::Write { entry }),
            StreamStage::Streams(path, _) => Some(Request::Streams { path }),
            StreamStage::StreamWrite(_, _, entry) => Some(Request::Write { entry }),
            _ => None,
        }
    }

    /// Goes on with the answer to the last request. An answer to something else changes
    /// nothing.
    pub fn resume(self, reply: Reply) -> (result: StreamWalk)
        requires
            self@.wf(),
        ensures
            result@ == self@.answered(reply).settled(),
            result@.wf(),
    {
        proof {
            lemma_stream_answered_wf(self@, reply);
        }
        let StreamWalk { core, stage } = self;
        let mut core = core;
        let stage = match (stage, reply) {
            (StreamStage::RootStat(level), Reply::Entry(described)) => core.on_root(
                level,
                described,
            ),
            (StreamStage::RootWrite(level, entry), Reply::Written(written)) =>
                core.on_root_written(level, entry, written),
            (StreamStage::RootIdentity(level), Reply::Identity(key)) => core.on_root_identity(
                level,
                key,
            ),
            (StreamStage::Rules(level), Reply::Rules(files)) => {
                let mut level = level;
                let path = level.path.clone();
                level.ignore.push_dir(&path, &files);
                StreamStage::List(level)
            },
            (StreamStage::List(level), Reply::Listing(listing)) => core.on_list(level, listing),
            (StreamStage::Describe(item, is_last), Reply::Entry(described)) => core.on_entry(
                item,
                is_last,
                described,
            ),
            (StreamStage::IsDir(item, entry), Reply::IsDir(is_dir)) => {
                if is_dir {
                    StreamStage::Identity(item, entry)
                } else {
                    StreamStage::Write(item, entry, false)
                }
            },
            (StreamStage::Identity(item, entry), Reply::Identity(key)) => core.on_identity(
                item,
                entry,
                key,
            ),
            (StreamStage::Volume(item, entry), Reply::Volume(identity)) => core.on_volume(
                item,
                entry,
                identity,
            ),
            (StreamStage::Write(item, entry, descend), Reply::Written(written)) =>
                core.on_written(item, entry, descend, written),
            (StreamStage::Streams(path, is_last), Reply::Streams(streams)) => core.on_streams(
                path,
                is_last,
                streams,
            ),
            (StreamStage::StreamWrite(path, streams, entry), Reply::Written(written)) =>
                core.on_stream_written(path, streams, entry, written),
            (stage, _) => stage,
        };
        StreamWalk { core, stage }.settle()
    }

    /// Whether entries carry file identities.
    pub fn needs_file_id(&self) -> (result: bool)
        ensures
            result == self@.core.state.needs_file_id,
    {
        self.core.state.needs_file_id
    }

    /// The result of the traversal: the errors met and whether entries were left out, or the
    /// error that ended it.
    pub fn finish(self) -> (result: Result<StreamingResult, TreeError>)
        ensures
            match self@.stage {
                StreamStageView::Failed(error) => result == Err::<StreamingResult, TreeError>(
                    error,
                ),
                _ => {
                    &&& result is Ok
                    &&& result->Ok_0.errors@ == self@.core.errors
                    &&& result->Ok_0.truncated == self@.core.state.truncated
                },
            },
    {
        let StreamWalk { core, stage } = self;
        match stage {
            StreamStage::Failed(error) => Err(error),
            _ => Ok(StreamingResult { errors: core.errors, truncated: core.state.truncated }),
        }
    }
}

/// Streaming tree traversal engine.
///
/// Visits entries depth first and has each written as soon as it is known whether it is the
/// last of its siblings.
#[derive(Clone, Copy, Debug)]
pub struct StreamingEngine<'a> {
    config: &'a Config,
}

impl<'a> StreamingEngine<'a> {
    /// The options of the engine.
    pub closed spec fn config(&self) -> Config {
        *self.config
    }

    /// An engine for the given options.
    pub fn new(config: &'a Config) -> (result: StreamingEngine<'a>)
        ensures
            result.config() == *config,
    {
        StreamingEngine { config }
    }

    /// Begins the traversal of `root`; the driver carries it on and writes the entries.
    ///
    /// `root_device` is the volume of the root where the file system boundary is watched;
    /// `ignore` holds the rules of the directories above the root.
    pub fn traverse_and_render(
        &self,
        root: FsPath,
        root_device: Option<u64>,
        ignore: IgnoreMatcher,
    ) -> (result: StreamWalk)
        ensures
            result@ == stream_start(self.config(), root, root_device, ignore@),
            result@.wf(),
    {
        StreamWalk::start(self.config, root, root_device, ignore)
    }
}

} // verus!
