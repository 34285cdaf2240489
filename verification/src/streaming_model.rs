//! The entries that a streaming traversal writes, as a recursive description, and the proof
//! that a walk writes them.

use crate::descend::{boundary_error, boundary_verdict, OnefsCheck, MAX_INTERNAL_DEPTH};
use crate::entry::{as_recursive, stream_entry, EntryView, StreamInfo};
use crate::error::{io_error, IoFault, TreeError};
use crate::ignoring::IgnoreView;
use crate::listing::{DirItem, ReadDirResult};
use crate::machine::{
    drives, leads, lemma_drives, lemma_leads_here, lemma_leads_next, lemma_leads_on, step, Machine,
};
use crate::ordered_model::Scene;
use crate::path::FsPath;
use crate::protocol::{Ask, Reply};
use crate::streaming::{
    bumped, lead_of, listed_items, placed, reserved_errors, stream_start, Lead, LevelFrameView,
    LevelView, StateView, StreamCoreView, StreamStageView, StreamView,
};
use crate::visited::Key;
use vstd::prelude::*;

verus! {

impl Machine for StreamView {
    open spec fn wanted(self) -> Option<Ask> {
        self.asks()
    }

    open spec fn moving(self) -> bool {
        self.is_busy()
    }

    open spec fn moved(self) -> StreamView {
        self.advance()
    }

    open spec fn told(self, reply: Reply) -> StreamView {
        self.answered(reply)
    }

    open spec fn rested(self) -> StreamView {
        self.settled()
    }

    proof fn rest(self) {
    }
}

/// Why a traversal was cut short.
pub enum Halt {
    /// It was not.
    No,
    /// As many entries were written as may be shown.
    Full,
    /// An entry could not be written, or the root not be described.
    Failed(TreeError),
}

/// What a streaming traversal has met and written so far: the errors, the directories that
/// it came to, the entries written, the root first, and their number without the root.
pub struct Output {
    pub errors: Seq<TreeError>,
    pub visited: Set<Key>,
    pub written: Seq<EntryView>,
    pub count: usize,
    pub halt: Halt,
}

impl Output {
    /// With an error reported.
    pub open spec fn with_error(self, error: TreeError) -> Output {
        Output { errors: self.errors.push(error), ..self }
    }

    /// With a directory visited.
    pub open spec fn with_visited(self, key: Key) -> Output {
        Output { visited: self.visited.insert(key), ..self }
    }

    /// Cut short.
    pub open spec fn halted(self, halt: Halt) -> Output {
        Output { halt, ..self }
    }
}

impl Scene {
    /// Whether as many entries were written as may be shown.
    pub open spec fn is_full(self, out: Output) -> bool {
        self.config.max_entries is Some && out.count >= self.config.max_entries->Some_0
    }

    /// With an entry below the root written, if the output takes it.
    pub open spec fn emit(self, entry: EntryView, out: Output) -> Output {
        match (self.world.write)(entry) {
            Ok(_) => Output {
                written: out.written.push(entry),
                count: bumped(out.count),
                ..out
            },
            Err(error) => out.halted(Halt::Failed(error)),
        }
    }

    /// The entries of a directory, and whatever lies below them.
    pub open spec fn level(self, level: LevelView, ancestors: Seq<bool>, out: Output) -> Output
        decreases MAX_INTERNAL_DEPTH - level.depth, 1nat, 0nat,
    {
        let path = level.path;
        if level.depth >= MAX_INTERNAL_DEPTH {
            out.with_error(TreeError::MaxDepthExceeded(path))
        } else if self.config.max_depth is Some && level.depth > self.config.max_depth->Some_0 {
            out
        } else {
            let inside = level.with_rules((self.world.rules)(path));
            match (self.world.list)(path) {
                ReadDirResult::ReadError(fault) => out.with_error(io_error(path, fault)),
                ReadDirResult::FilelimitExceeded(_) => out,
                ReadDirResult::Entries(items) => self.entries(
                    inside,
                    listed_items(self.config, inside.parent_matched, inside.ignore, items@),
                    ancestors,
                    Output {
                        errors: out.errors + reserved_errors(
                            self.config,
                            inside.parent_matched,
                            inside.ignore,
                            items@,
                        ),
                        ..out
                    },
                ),
            }
        }
    }

    /// Entries of one directory, and whatever lies below them.
    pub open spec fn entries(
        self,
        level: LevelView,
        items: Seq<DirItem>,
        ancestors: Seq<bool>,
        out: Output,
    ) -> Output
        decreases MAX_INTERNAL_DEPTH - level.depth, 0nat, items.len(),
        when level.depth < MAX_INTERNAL_DEPTH
    {
        if items.len() == 0 || out.halt !is No {
            out
        } else if self.is_full(out) {
            out.halted(Halt::Full)
        } else {
            let after = self.entry(level, items[0], items.len() == 1, ancestors, out);
            self.entries(level, items.skip(1), ancestors, after)
        }
    }

    /// One entry, and whatever lies below it.
    pub open spec fn entry(
        self,
        level: LevelView,
        item: DirItem,
        is_last: bool,
        ancestors: Seq<bool>,
        out: Output,
    ) -> Output
        decreases MAX_INTERNAL_DEPTH - level.depth, 0nat, 0nat,
        when level.depth < MAX_INTERNAL_DEPTH
    {
        match (self.world.describe)(item.path, level.depth) {
            Err(error) => out.with_error(error),
            Ok(described) => {
                let entry = placed(described@, is_last, ancestors);
                let leads_on = match lead_of(entry.entry_type, self.config) {
                    Lead::No => false,
                    Lead::Yes => true,
                    Lead::Link => (self.world.is_dir)(entry.path),
                };
                let key = (self.world.identity)(entry.path)@;
                let seen = out.with_visited(key);
                if !leads_on {
                    self.leaf_entry(level, entry, ancestors, out)
                } else if out.visited.contains(key) {
                    self.leaf_entry(level, as_recursive(entry), ancestors, out)
                } else {
                    match boundary_verdict(self.root_device, (self.world.volume)(entry.path)) {
                        OnefsCheck::DifferentDevice => self.leaf_entry(
                            level,
                            entry,
                            ancestors,
                            seen,
                        ),
                        OnefsCheck::Unknown => self.leaf_entry(
                            level,
                            entry,
                            ancestors,
                            seen.with_error(TreeError::Io(entry.path, IoFault::UnknownVolume)),
                        ),
                        OnefsCheck::Proceed => {
                            let after = self.emit(entry, seen);
                            if after.halt is No {
                                self.level(
                                    level.below(item, entry.path),
                                    ancestors.push(is_last),
                                    after,
                                )
                            } else {
                                after
                            }
                        },
                    }
                }
            },
        }
    }

    /// An entry that is not descended into, with its streams where they are shown.
    pub open spec fn leaf_entry(
        self,
        level: LevelView,
        entry: EntryView,
        ancestors: Seq<bool>,
        out: Output,
    ) -> Output {
        let after = self.emit(entry, out);
        if after.halt is No && self.config.show_streams {
            self.stream_entries(
                entry.path,
                level.depth,
                (self.world.streams)(entry.path)@,
                ancestors.push(entry.is_last),
                after,
            )
        } else {
            after
        }
    }

    /// The streams of an entry at the given depth.
    pub open spec fn stream_entries(
        self,
        path: FsPath,
        depth: usize,
        streams: Seq<StreamInfo>,
        ancestors: Seq<bool>,
        out: Output,
    ) -> Output
        decreases streams.len(),
    {
        if streams.len() == 0 || out.halt !is No {
            out
        } else if self.is_full(out) {
            out.halted(Halt::Full)
        } else {
            let entry = placed(
                stream_entry(path, streams[0], (depth + 1) as usize),
                streams.len() == 1,
                ancestors,
            );
            self.stream_entries(path, depth, streams.skip(1), ancestors, self.emit(entry, out))
        }
    }

    /// What a streaming traversal of `root` meets and writes.
    pub open spec fn streamed(self, root: FsPath, ignore: IgnoreView) -> Output {
        let nothing = Output {
            errors: Seq::empty(),
            visited: Set::empty(),
            written: Seq::empty(),
            count: 0,
            halt: Halt::No,
        };
        match (self.world.stat)(root, 0) {
            Err(error) => nothing.halted(Halt::Failed(error)),
            Ok(entry) => match (self.world.write)(entry@) {
                Err(error) => nothing.halted(Halt::Failed(error)),
                Ok(_) => {
                    let begun = Output { written: seq![entry@], ..nothing }.with_visited(
                        (self.world.identity)(root)@,
                    );
                    self.level(
                        LevelView { path: root, depth: 1, parent_matched: false, ignore },
                        Seq::empty(),
                        match boundary_error(self.config, root, self.root_device) {
                            Some(error) => begun.with_error(error),
                            None => begun,
                        },
                    )
                },
            },
        }
    }
}

/// Whether a walk is about a scene.
pub open spec fn fits(scene: Scene, core: StreamCoreView) -> bool {
    &&& core.config == scene.config
    &&& core.state.root_device == scene.root_device
    &&& core.state.max_entries == scene.config.max_entries
}

/// What a walk has met and written so far.
pub open spec fn output_of(core: StreamCoreView) -> Output {
    Output {
        errors: core.errors,
        visited: core.state.visited,
        written: core.written,
        count: core.state.count,
        halt: Halt::No,
    }
}

/// A walk with something else met and written.
pub open spec fn with_output(core: StreamCoreView, out: Output) -> StreamCoreView {
    StreamCoreView {
        errors: out.errors,
        written: out.written,
        state: StateView { visited: out.visited, count: out.count, ..core.state },
        ..core
    }
}

/// A walk inside a level that has met and written something: at the given stage, unless it
/// was cut short and has left the level.
pub open spec fn arrived(core: StreamCoreView, out: Output, stage: StreamStageView) -> StreamView {
    match out.halt {
        Halt::No => with_output(core, out).at(stage),
        Halt::Full => with_output(core, out).stop(None),
        Halt::Failed(error) => with_output(core, out).stop(Some(error)),
    }
}

/// A walk that is done with a level, or was cut short in it.
pub open spec fn returned(core: StreamCoreView, out: Output) -> StreamView {
    match out.halt {
        Halt::No => with_output(core, out).at(StreamStageView::Return),
        Halt::Full => with_output(core, out).give_up(None),
        Halt::Failed(error) => with_output(core, out).give_up(Some(error)),
    }
}

/// A walk that is over.
pub open spec fn ended(core: StreamCoreView, out: Output) -> StreamView {
    let core = with_output(core, out);
    match out.halt {
        Halt::No => core.at(StreamStageView::Done),
        Halt::Full => core.with_state(core.state.cut_short(true)).at(StreamStageView::Done),
        Halt::Failed(error) => core.at(StreamStageView::Failed(error)),
    }
}

/// A walk that goes on with the streams of an entry comes to have written them.
proof fn lemma_stream_entries(
    scene: Scene,
    core: StreamCoreView,
    path: FsPath,
    streams: Seq<StreamInfo>,
)
    requires
        fits(scene, core),
        core.frames.len() > 0,
    ensures
        ({
            let out = scene.stream_entries(
                path,
                core.frames.last().level.depth,
                streams,
                core.state.ancestors,
                output_of(core),
            );
            leads(
                scene.world,
                core.at(StreamStageView::StreamNext(path, streams)),
                arrived(core.with_state(core.state.outside()), out, StreamStageView::Next),
            )
        }),
    decreases streams.len(),
{
    let world = scene.world;
    let depth = core.frames.last().level.depth;
    let ancestors = core.state.ancestors;
    let here = core.at(StreamStageView::StreamNext(path, streams));
    let out = scene.stream_entries(path, depth, streams, ancestors, output_of(core));
    let goal = arrived(core.with_state(core.state.outside()), out, StreamStageView::Next);
    lemma_leads_here(world, goal);
    if streams.len() == 0 || scene.is_full(output_of(core)) {
        assert(step(world, here) == goal);
    } else {
        let entry = placed(
            stream_entry(path, streams[0], (depth + 1) as usize),
            streams.len() == 1,
            ancestors,
        );
        let writing = core.at(StreamStageView::StreamWrite(path, streams.skip(1), entry));
        assert(step(world, here) == writing);
        let after = scene.emit(entry, output_of(core));
        match (world.write)(entry) {
            Err(error) => {
                assert(scene.stream_entries(path, depth, streams.skip(1), ancestors, after)
                    == after);
                assert(step(world, writing) == goal);
            },
            Ok(_) => {
                let next = with_output(core, after);
                assert(output_of(next) == after);
                assert(step(world, writing) == next.at(
                    StreamStageView::StreamNext(path, streams.skip(1)),
                ));
                lemma_stream_entries(scene, next, path, streams.skip(1));
                assert(goal == arrived(
                    next.with_state(next.state.outside()),
                    out,
                    StreamStageView::Next,
                ));
            },
        }
        lemma_leads_next(world, writing, goal);
    }
    lemma_leads_next(world, here, goal);
}

/// A walk that writes an entry without descending comes to have written it and its streams.
proof fn lemma_leaf_entry(scene: Scene, core: StreamCoreView, item: DirItem, entry: EntryView)
    requires
        fits(scene, core),
        core.frames.len() > 0,
    ensures
        ({
            let out = scene.leaf_entry(
                core.frames.last().level,
                entry,
                core.state.ancestors,
                output_of(core),
            );
            leads(
                scene.world,
                core.at(StreamStageView::Write(item, entry, false)),
                arrived(core, out, StreamStageView::Next),
            )
        }),
{
    let world = scene.world;
    let level = core.frames.last().level;
    let ancestors = core.state.ancestors;
    let here = core.at(StreamStageView::Write(item, entry, false));
    let out = scene.leaf_entry(level, entry, ancestors, output_of(core));
    let goal = arrived(core, out, StreamStageView::Next);
    let after = scene.emit(entry, output_of(core));
    lemma_leads_here(world, goal);
    if (world.write)(entry) is Ok && scene.config.show_streams {
        let asking = with_output(core, after);
        let at_streams = asking.at(StreamStageView::Streams(entry.path, entry.is_last));
        assert(step(world, here) == at_streams);
        let inside = asking.with_state(asking.state.inside(entry.is_last));
        let streams = (world.streams)(entry.path)@;
        assert(step(world, at_streams) == inside.at(
            StreamStageView::StreamNext(entry.path, streams),
        ));
        assert(output_of(inside) == after);
        lemma_stream_entries(scene, inside, entry.path, streams);
        assert(ancestors.push(entry.is_last).drop_last() =~= ancestors);
        assert(inside.with_state(inside.state.outside()) == asking);
        assert(goal == arrived(asking, out, StreamStageView::Next));
        lemma_leads_next(world, at_streams, goal);
    } else {
        assert(step(world, here) == goal);
    }
    lemma_leads_next(world, here, goal);
}

/// A walk that starts with a level comes to be done with it.
pub proof fn lemma_level(scene: Scene, core: StreamCoreView, level: LevelView)
    requires
        fits(scene, core),
    ensures
        ({
            let out = scene.level(level, core.state.ancestors, output_of(core));
            leads(
                scene.world,
                core.at(StreamStageView::Enter(level)),
                returned(core, out),
            )
        }),
    decreases MAX_INTERNAL_DEPTH - level.depth, 2nat, 0nat,
{
    let world = scene.world;
    let ancestors = core.state.ancestors;
    let here = core.at(StreamStageView::Enter(level));
    let out = scene.level(level, ancestors, output_of(core));
    let goal = returned(core, out);
    lemma_leads_here(world, goal);
    let max_depth = scene.config.max_depth;
    if level.depth >= MAX_INTERNAL_DEPTH || (max_depth is Some && level.depth > max_depth->Some_0) {
        assert(step(world, here) == goal);
    } else {
        let inside = level.with_rules((world.rules)(level.path));
        let at_rules = core.at(StreamStageView::Rules(level));
        let at_list = core.at(StreamStageView::List(inside));
        lemma_listed(scene, core, level);
        if level.ignore.enabled {
            assert(step(world, here) == at_rules);
            assert(step(world, at_rules) == at_list);
            lemma_leads_next(world, at_rules, goal);
        } else {
            assert(inside == level);
            assert(step(world, here) == at_list);
        }
    }
    lemma_leads_next(world, here, goal);
}

/// The part of `lemma_level` behind the rules of the directory.
proof fn lemma_listed(scene: Scene, core: StreamCoreView, level: LevelView)
    requires
        fits(scene, core),
        level.depth < MAX_INTERNAL_DEPTH,
        scene.config.max_depth is Some ==> level.depth <= scene.config.max_depth->Some_0,
    ensures
        ({
            let out = scene.level(level, core.state.ancestors, output_of(core));
            leads(
                scene.world,
                core.at(
                    StreamStageView::List(level.with_rules((scene.world.rules)(level.path))),
                ),
                returned(core, out),
            )
        }),
    decreases MAX_INTERNAL_DEPTH - level.depth, 1nat, 0nat,
{
    let world = scene.world;
    let ancestors = core.state.ancestors;
    let inside = level.with_rules((world.rules)(level.path));
    let here = core.at(StreamStageView::List(inside));
    let out = scene.level(level, ancestors, output_of(core));
    let goal = returned(core, out);
    lemma_leads_here(world, goal);
    match (world.list)(level.path) {
        ReadDirResult::Entries(items) => {
            let listed = listed_items(scene.config, inside.parent_matched, inside.ignore, items@);
            let reported = StreamCoreView {
                errors: core.errors + reserved_errors(
                    scene.config,
                    inside.parent_matched,
                    inside.ignore,
                    items@,
                ),
                ..core
            };
            let frame = LevelFrameView { level: inside, items: listed };
            let opened = reported.with_frame(frame);
            assert(step(world, here) == opened.at(StreamStageView::Next));
            assert(opened.frames.last() == frame);
            assert(opened.frames.drop_last() =~= core.frames);
            lemma_entries(scene, opened);
            let emptied = without_items(opened);
            let done = arrived(emptied, out, StreamStageView::Next);
            if out.halt is No {
                assert(emptied.frames.last().items.len() == 0);
                assert(emptied.frames.drop_last() =~= core.frames);
                assert(step(world, done) == goal);
                lemma_leads_next(world, done, goal);
            } else {
                assert(emptied.frames.drop_last() =~= core.frames);
                assert(done == goal);
            }
            lemma_leads_on(world, opened.at(StreamStageView::Next), done, goal);
        },
        _ => {
            assert(step(world, here) == goal);
        },
    }
    lemma_leads_next(world, here, goal);
}

/// A walk whose innermost level has no entries left.
pub open spec fn without_items(core: StreamCoreView) -> StreamCoreView {
    StreamCoreView {
        frames: core.frames.drop_last().push(
            LevelFrameView { items: Seq::empty(), ..core.frames.last() },
        ),
        ..core
    }
}

/// A walk inside a level comes to have written all its entries.
proof fn lemma_entries(scene: Scene, core: StreamCoreView)
    requires
        fits(scene, core),
        core.frames.len() > 0,
        core.frames.last().level.depth < MAX_INTERNAL_DEPTH,
    ensures
        ({
            let top = core.frames.last();
            let out = scene.entries(
                top.level,
                top.items,
                core.state.ancestors,
                output_of(core),
            );
            leads(
                scene.world,
                core.at(StreamStageView::Next),
                arrived(without_items(core), out, StreamStageView::Next),
            )
        }),
    decreases
        MAX_INTERNAL_DEPTH - core.frames.last().level.depth,
        0nat,
        core.frames.last().items.len() + 1,
{
    let world = scene.world;
    let top = core.frames.last();
    let level = top.level;
    let items = top.items;
    let ancestors = core.state.ancestors;
    let here = core.at(StreamStageView::Next);
    let out = scene.entries(level, items, ancestors, output_of(core));
    let goal = arrived(without_items(core), out, StreamStageView::Next);
    lemma_leads_here(world, goal);
    if items.len() == 0 {
        assert(items =~= Seq::empty());
        assert(core.frames.drop_last().push(top) =~= core.frames);
        assert(here == goal);
    } else if scene.is_full(output_of(core)) {
        assert(without_items(core).frames.drop_last() =~= core.frames.drop_last());
        assert(step(world, here) == goal);
        lemma_leads_next(world, here, goal);
    } else {
        let is_last = items.len() == 1;
        let taken = core.without_next();
        let describing = taken.at(StreamStageView::Describe(items[0], is_last));
        assert(step(world, here) == describing);
        assert(taken.frames.last().items == items.skip(1));
        assert(taken.frames.drop_last() =~= core.frames.drop_last());
        assert(output_of(taken) == output_of(core));
        lemma_entry(scene, taken, items[0], is_last);
        let after = scene.entry(level, items[0], is_last, ancestors, output_of(core));
        let described = arrived(taken, after, StreamStageView::Next);
        if after.halt is No {
            let next = with_output(taken, after);
            assert(output_of(next) == after);
            lemma_entries(scene, next);
            assert(goal == arrived(without_items(next), out, StreamStageView::Next));
        } else {
            assert(scene.entries(level, items.skip(1), ancestors, after) == after);
            assert(without_items(core).frames.drop_last() =~= taken.frames.drop_last());
            assert(described == goal);
        }
        lemma_leads_on(world, describing, described, goal);
        lemma_leads_next(world, here, goal);
    }
}

/// A walk that visits an entry comes to have written it and whatever lies below it.
proof fn lemma_entry(scene: Scene, core: StreamCoreView, item: DirItem, is_last: bool)
    requires
        fits(scene, core),
        core.frames.len() > 0,
        core.frames.last().level.depth < MAX_INTERNAL_DEPTH,
    ensures
        ({
            let out = scene.entry(
                core.frames.last().level,
                item,
                is_last,
                core.state.ancestors,
                output_of(core),
            );
            leads(
                scene.world,
                core.at(StreamStageView::Describe(item, is_last)),
                arrived(core, out, StreamStageView::Next),
            )
        }),
    decreases MAX_INTERNAL_DEPTH - core.frames.last().level.depth, 0nat, 0nat,
{
    let world = scene.world;
    let level = core.frames.last().level;
    let ancestors = core.state.ancestors;
    let here = core.at(StreamStageView::Describe(item, is_last));
    let out = scene.entry(level, item, is_last, ancestors, output_of(core));
    let goal = arrived(core, out, StreamStageView::Next);
    lemma_leads_here(world, goal);
    match (world.describe)(item.path, level.depth) {
        Err(_) => {
            assert(step(world, here) == goal);
        },
        Ok(described) => {
            let entry = placed(described@, is_last, ancestors);
            let lead = lead_of(entry.entry_type, scene.config);
            let plain = core.at(StreamStageView::Write(item, entry, false));
            let asking = core.at(StreamStageView::Identity(item, entry));
            let at_link = core.at(StreamStageView::IsDir(item, entry));
            let leads_on = lead is Yes || (lead is Link && (world.is_dir)(entry.path));
            if leads_on {
                lemma_descent(scene, core, item, is_last, entry);
            } else {
                lemma_leaf_entry(scene, core, item, entry);
            }
            if lead is Link {
                assert(step(world, here) == at_link);
                assert(step(world, at_link) == if leads_on {
                    asking
                } else {
                    plain
                });
                lemma_leads_next(world, at_link, goal);
            } else {
                assert(step(world, here) == if leads_on {
                    asking
                } else {
                    plain
                });
            }
        },
    }
    lemma_leads_next(world, here, goal);
}

/// The part of `lemma_entry` for an entry that may be descended into.
proof fn lemma_descent(
    scene: Scene,
    core: StreamCoreView,
    item: DirItem,
    is_last: bool,
    entry: EntryView,
)
    requires
        fits(scene, core),
        core.frames.len() > 0,
        core.frames.last().level.depth < MAX_INTERNAL_DEPTH,
        (scene.world.describe)(item.path, core.frames.last().level.depth) is Ok,
        entry == placed(
            (scene.world.describe)(item.path, core.frames.last().level.depth)->Ok_0@,
            is_last,
            core.state.ancestors,
        ),
        ({
            let lead = lead_of(entry.entry_type, scene.config);
            lead is Yes || (lead is Link && (scene.world.is_dir)(entry.path))
        }),
    ensures
        ({
            let out = scene.entry(
                core.frames.last().level,
                item,
                is_last,
                core.state.ancestors,
                output_of(core),
            );
            leads(
                scene.world,
                core.at(StreamStageView::Identity(item, entry)),
                arrived(core, out, StreamStageView::Next),
            )
        }),
    decreases MAX_INTERNAL_DEPTH - core.frames.last().level.depth - 1, 3nat, 0nat,
{
    let world = scene.world;
    let level = core.frames.last().level;
    let ancestors = core.state.ancestors;
    let here = core.at(StreamStageView::Identity(item, entry));
    let out = scene.entry(level, item, is_last, ancestors, output_of(core));
    let goal = arrived(core, out, StreamStageView::Next);
    let key = (world.identity)(entry.path)@;
    lemma_leads_here(world, goal);
    if core.state.visited.contains(key) {
        assert(step(world, here) == core.at(
            StreamStageView::Write(item, as_recursive(entry), false),
        ));
        lemma_leaf_entry(scene, core, item, as_recursive(entry));
    } else {
        let seen = core.with_state(core.state.with_visited(key));
        assert(output_of(seen) == output_of(core).with_visited(key));
        let at_volume = seen.at(StreamStageView::Volume(item, entry));
        let verdict = boundary_verdict(scene.root_device, (world.volume)(entry.path));
        let decided = seen.on_volume(item, entry, (world.volume)(entry.path));
        match verdict {
            OnefsCheck::DifferentDevice => {
                lemma_leaf_entry(scene, seen, item, entry);
                assert(goal == arrived(seen, out, StreamStageView::Next));
            },
            OnefsCheck::Unknown => {
                let reported = seen.with_error(TreeError::Io(entry.path, IoFault::UnknownVolume));
                lemma_leaf_entry(scene, reported, item, entry);
                assert(output_of(reported) == output_of(seen).with_error(
                    TreeError::Io(entry.path, IoFault::UnknownVolume),
                ));
                assert(goal == arrived(reported, out, StreamStageView::Next));
            },
            OnefsCheck::Proceed => {
                lemma_descended(scene, seen, item, entry);
                assert(goal == arrived(seen, out, StreamStageView::Next));
            },
        }
        if scene.root_device is Some {
            assert(step(world, here) == at_volume);
            assert(step(world, at_volume) == decided);
            lemma_leads_next(world, at_volume, goal);
        } else {
            assert(step(world, here) == decided);
        }
    }
    lemma_leads_next(world, here, goal);
}

/// A walk that writes an entry and descends into it comes to be done with it.
proof fn lemma_descended(scene: Scene, core: StreamCoreView, item: DirItem, entry: EntryView)
    requires
        fits(scene, core),
        core.frames.len() > 0,
        core.frames.last().level.depth < MAX_INTERNAL_DEPTH,
    ensures
        ({
            let after = scene.emit(entry, output_of(core));
            let out = if after.halt is No {
                scene.level(
                    core.frames.last().level.below(item, entry.path),
                    core.state.ancestors.push(entry.is_last),
                    after,
                )
            } else {
                after
            };
            leads(
                scene.world,
                core.at(StreamStageView::Write(item, entry, true)),
                arrived(core, out, StreamStageView::Next),
            )
        }),
    decreases MAX_INTERNAL_DEPTH - core.frames.last().level.depth - 1, 2nat, 1nat,
{
    let world = scene.world;
    let below = core.frames.last().level.below(item, entry.path);
    let ancestors = core.state.ancestors;
    let here = core.at(StreamStageView::Write(item, entry, true));
    let after = scene.emit(entry, output_of(core));
    if (world.write)(entry) is Ok {
        let written = with_output(core, after);
        let inside = written.with_state(written.state.inside(entry.is_last));
        let entering = inside.at(StreamStageView::Enter(below));
        assert(step(world, here) == entering);
        assert(output_of(inside) == after);
        lemma_level(scene, inside, below);
        let out = scene.level(below, ancestors.push(entry.is_last), after);
        let left = returned(inside, out);
        let goal = arrived(core, out, StreamStageView::Next);
        lemma_leads_here(world, goal);
        assert(ancestors.push(entry.is_last).drop_last() =~= ancestors);
        assert(step(world, left) == goal);
        lemma_leads_next(world, left, goal);
        lemma_leads_on(world, entering, left, goal);
        lemma_leads_next(world, here, goal);
    } else {
        let goal = arrived(core, after, StreamStageView::Next);
        assert(step(world, here) == goal);
        lemma_leads_here(world, goal);
        lemma_leads_next(world, here, goal);
    }
}

/// In a file system that does not change meanwhile, a streaming walk comes to an end, and
/// what it has then met and written is what the recursive description says.
pub proof fn walk_writes_the_traversal(scene: Scene, root: FsPath, ignore: IgnoreView)
    ensures
        drives(
            scene.world,
            stream_start(scene.config, root, scene.root_device, ignore),
            ended(
                stream_start(scene.config, root, scene.root_device, ignore).core,
                scene.streamed(root, ignore),
            ),
        ),
{
    let world = scene.world;
    let start = stream_start(scene.config, root, scene.root_device, ignore);
    let core = start.core;
    let level = LevelView { path: root, depth: 1, parent_matched: false, ignore };
    let out = scene.streamed(root, ignore);
    let goal = ended(core, out);
    lemma_leads_here(world, goal);
    match (world.stat)(root, 0) {
        Err(_) => {
            assert(step(world, start) == goal);
        },
        Ok(entry) => {
            let writing = core.at(StreamStageView::RootWrite(level, entry@));
            assert(step(world, start) == writing);
            if (world.write)(entry@) is Ok {
                let error = boundary_error(scene.config, root, scene.root_device);
                let reported = core.with_output(entry@).with_maybe_error(error);
                let asking = reported.at(StreamStageView::RootIdentity(level));
                assert(step(world, writing) == asking);
                let key = (world.identity)(root)@;
                let seen = reported.with_state(reported.state.with_visited(key));
                let entering = seen.at(StreamStageView::Enter(level));
                assert(step(world, asking) == entering);
                assert(core.written.push(entry@) =~= seq![entry@]);
                lemma_level(scene, seen, level);
                assert(out == scene.level(level, seen.state.ancestors, output_of(seen)));
                let left = returned(seen, out);
                assert(step(world, left) == goal);
                lemma_leads_next(world, left, goal);
                lemma_leads_on(world, entering, left, goal);
                lemma_leads_next(world, asking, goal);
            } else {
                assert(step(world, writing) == goal);
            }
            lemma_leads_next(world, writing, goal);
        },
    }
    lemma_leads_next(world, start, goal);
    lemma_drives(world, start, goal);
    assert(start.settled() == start);
}

} // verus!
