//! What holds of the output of streaming traversals.

use crate::config::Config;
use crate::descend::{boundary_error, boundary_verdict, OnefsCheck, MAX_INTERNAL_DEPTH};
use crate::entry::{as_recursive, stream_entry, EntryView, StreamInfo};
use crate::error::{IoFault, TreeError};
use crate::filter::filter_verdict;
use crate::ignoring::IgnoreView;
use crate::laws::walking::{
    extends, lemma_extends_by, lemma_extends_itself, lemma_extends_on, lemma_extends_push,
};
use crate::listing::{DirItem, ReadDirResult};
use crate::ordered_model::Scene;
use crate::path::FsPath;
use crate::streaming::{lead_of, listed_items, placed, reserved_errors, LevelView};
use crate::streaming_model::{Halt, Output};
use vstd::prelude::*;

verus! {

/// The largest number of directories between the root and an entry that is written.
pub open spec fn deepest(config: Config) -> nat {
    let levels = match config.max_depth {
        Some(max) if max < MAX_INTERNAL_DEPTH => max as int,
        _ => MAX_INTERNAL_DEPTH as int,
    };
    (levels + if config.show_streams {
        1int
    } else {
        0int
    }) as nat
}

/// Whether the output takes every entry, and every entry can be described.
pub open spec fn nothing_fails(scene: Scene) -> bool {
    &&& forall|entry: EntryView| (#[trigger] (scene.world.write)(entry)) is Ok
    &&& forall|path: FsPath, depth: usize|
        (#[trigger] (scene.world.describe)(path, depth)) is Ok
}

/// What was met and written before is met and written afterwards. Output that is not limited
/// is not cut, and nothing fails where nothing can.
pub open spec fn grows(scene: Scene, before: Output, after: Output) -> bool {
    &&& extends(after.errors, before.errors)
    &&& extends(after.written, before.written)
    &&& before.visited.subset_of(after.visited)
    &&& before.count <= after.count
    &&& scene.config.max_entries is None && before.halt !is Full ==> after.halt !is Full
    &&& nothing_fails(scene) && before.halt !is Failed ==> after.halt !is Failed
}

/// What was written since does not lie too deep.
pub open spec fn stays_shallow(config: Config, before: Output, after: Output) -> bool {
    forall|i: int|
        before.written.len() <= i < after.written.len() ==> (
        #[trigger] after.written[i]).ancestors_last.len() < deepest(config)
}

/// Both, where it is known how deep the walk is.
spec fn grows_from(scene: Scene, known: bool, before: Output, after: Output) -> bool {
    grows(scene, before, after) && (known ==> stays_shallow(scene.config, before, after))
}

proof fn lemma_grows_itself(scene: Scene, out: Output)
    ensures
        grows_from(scene, true, out, out),
{
    lemma_extends_itself(out.errors);
    lemma_extends_itself(out.written);
}

proof fn lemma_grows_on(
    scene: Scene,
    known: bool,
    first: Output,
    second: Output,
    third: Output,
)
    requires
        grows_from(scene, known, first, second),
        grows_from(scene, known, second, third),
    ensures
        grows_from(scene, known, first, third),
{
    lemma_extends_on(first.errors, second.errors, third.errors);
    lemma_extends_on(first.written, second.written, third.written);
    if known {
        assert forall|i: int| first.written.len() <= i < third.written.len() implies (
        #[trigger] third.written[i]).ancestors_last.len() < deepest(scene.config) by {
            if i < second.written.len() {
                assert(third.written.take(second.written.len() as int)[i] == third.written[i]);
                assert(second.written[i] == third.written[i]);
            }
        }
    }
}

proof fn lemma_emit_grows(scene: Scene, known: bool, entry: EntryView, out: Output)
    requires
        known ==> entry.ancestors_last.len() < deepest(scene.config),
    ensures
        grows_from(scene, known, out, scene.emit(entry, out)),
{
    lemma_grows_itself(scene, out);
    lemma_extends_push(out.written, entry);
}

proof fn lemma_error_grows(scene: Scene, out: Output, error: TreeError)
    ensures
        grows_from(scene, true, out, out.with_error(error)),
{
    lemma_grows_itself(scene, out);
    lemma_extends_push(out.errors, error);
}

proof fn lemma_stream_entries_grow(
    scene: Scene,
    known: bool,
    path: FsPath,
    depth: usize,
    streams: Seq<StreamInfo>,
    ancestors: Seq<bool>,
    out: Output,
)
    requires
        known ==> ancestors.len() < deepest(scene.config),
    ensures
        grows_from(
            scene,
            known,
            out,
            scene.stream_entries(path, depth, streams, ancestors, out),
        ),
    decreases streams.len(),
{
    let config = scene.config;
    lemma_grows_itself(scene, out);
    if streams.len() > 0 && out.halt is No && !scene.is_full(out) {
        let entry = placed(
            stream_entry(path, streams[0], (depth + 1) as usize),
            streams.len() == 1,
            ancestors,
        );
        let after = scene.emit(entry, out);
        lemma_emit_grows(scene, known, entry, out);
        lemma_stream_entries_grow(scene, known, path, depth, streams.skip(1), ancestors, after);
        lemma_grows_on(
            scene,
            known,
            out,
            after,
            scene.stream_entries(path, depth, streams.skip(1), ancestors, after),
        );
    }
}

proof fn lemma_leaf_entry_grows(
    scene: Scene,
    known: bool,
    level: LevelView,
    entry: EntryView,
    ancestors: Seq<bool>,
    out: Output,
)
    requires
        entry.ancestors_last == ancestors,
        known ==> ancestors.len() + (if scene.config.show_streams {
            1int
        } else {
            0int
        }) < deepest(scene.config),
    ensures
        grows_from(scene, known, out, scene.leaf_entry(level, entry, ancestors, out)),
{
    let after = scene.emit(entry, out);
    lemma_emit_grows(scene, known, entry, out);
    if after.halt is No && scene.config.show_streams {
        let streams = (scene.world.streams)(entry.path)@;
        let inside = ancestors.push(entry.is_last);
        lemma_stream_entries_grow(scene, known, entry.path, level.depth, streams, inside, after);
        lemma_grows_on(
            scene,
            known,
            out,
            after,
            scene.stream_entries(entry.path, level.depth, streams, inside, after),
        );
    }
}

proof fn lemma_level_grows(
    scene: Scene,
    known: bool,
    level: LevelView,
    ancestors: Seq<bool>,
    out: Output,
)
    requires
        known ==> ancestors.len() + 1 == level.depth,
    ensures
        grows_from(scene, known, out, scene.level(level, ancestors, out)),
    decreases MAX_INTERNAL_DEPTH - level.depth, 1nat, 0nat,
{
    let config = scene.config;
    let path = level.path;
    lemma_grows_itself(scene, out);
    assert forall|error: TreeError| #[trigger] grows_from(scene, known, out, out.with_error(error)) by {
        lemma_error_grows(scene, out, error);
    }
    if level.depth < MAX_INTERNAL_DEPTH && !(config.max_depth is Some && level.depth
        > config.max_depth->Some_0) {
        let inside = level.with_rules((scene.world.rules)(path));
        if let ReadDirResult::Entries(items) = (scene.world.list)(path) {
            let reserved = reserved_errors(
                config,
                inside.parent_matched,
                inside.ignore,
                items@,
            );
            let reported = Output { errors: out.errors + reserved, ..out };
            let listed = listed_items(config, inside.parent_matched, inside.ignore, items@);
            lemma_extends_by(out.errors, reserved);
            assert(grows_from(scene, known, out, reported));
            lemma_entries_grow(scene, known, inside, listed, ancestors, reported);
            lemma_grows_on(
                scene,
                known,
                out,
                reported,
                scene.entries(inside, listed, ancestors, reported),
            );
        }
    }
}

proof fn lemma_entries_grow(
    scene: Scene,
    known: bool,
    level: LevelView,
    items: Seq<DirItem>,
    ancestors: Seq<bool>,
    out: Output,
)
    requires
        level.depth < MAX_INTERNAL_DEPTH,
        known && scene.config.max_depth is Some ==> level.depth
            <= scene.config.max_depth->Some_0,
        known ==> ancestors.len() + 1 == level.depth,
    ensures
        grows_from(scene, known, out, scene.entries(level, items, ancestors, out)),
    decreases MAX_INTERNAL_DEPTH - level.depth, 0nat, items.len() + 1,
{
    let config = scene.config;
    lemma_grows_itself(scene, out);
    if items.len() > 0 && out.halt is No && !scene.is_full(out) {
        let after = scene.entry(level, items[0], items.len() == 1, ancestors, out);
        lemma_entry_grows(scene, known, level, items[0], items.len() == 1, ancestors, out);
        lemma_entries_grow(scene, known, level, items.skip(1), ancestors, after);
        lemma_grows_on(
            scene,
            known,
            out,
            after,
            scene.entries(level, items.skip(1), ancestors, after),
        );
    }
}

proof fn lemma_entry_grows(
    scene: Scene,
    known: bool,
    level: LevelView,
    item: DirItem,
    is_last: bool,
    ancestors: Seq<bool>,
    out: Output,
)
    requires
        level.depth < MAX_INTERNAL_DEPTH,
        known && scene.config.max_depth is Some ==> level.depth
            <= scene.config.max_depth->Some_0,
        known ==> ancestors.len() + 1 == level.depth,
    ensures
        grows_from(scene, known, out, scene.entry(level, item, is_last, ancestors, out)),
    decreases MAX_INTERNAL_DEPTH - level.depth, 0nat, 0nat,
{
    let config = scene.config;
    let world = scene.world;
    lemma_grows_itself(scene, out);
    match (world.describe)(item.path, level.depth) {
        Err(error) => {
            lemma_error_grows(scene, out, error);
        },
        Ok(described) => {
            let entry = placed(described@, is_last, ancestors);
            let key = (world.identity)(entry.path)@;
            let seen = out.with_visited(key);
            let unknown = TreeError::Io(entry.path, IoFault::UnknownVolume);
            assert(grows_from(scene, known, out, seen));
            lemma_leaf_entry_grows(scene, known, level, entry, ancestors, out);
            lemma_leaf_entry_grows(scene, known, level, as_recursive(entry), ancestors, out);
            lemma_leaf_entry_grows(scene, known, level, entry, ancestors, seen);
            lemma_grows_on(
                scene,
                known,
                out,
                seen,
                scene.leaf_entry(level, entry, ancestors, seen),
            );
            lemma_error_grows(scene, seen, unknown);
            lemma_grows_on(scene, known, out, seen, seen.with_error(unknown));
            lemma_leaf_entry_grows(scene, known, level, entry, ancestors, seen.with_error(unknown));
            lemma_grows_on(
                scene,
                known,
                out,
                seen.with_error(unknown),
                scene.leaf_entry(level, entry, ancestors, seen.with_error(unknown)),
            );
            let after = scene.emit(entry, seen);
            lemma_emit_grows(scene, known, entry, seen);
            lemma_grows_on(scene, known, out, seen, after);
            let below = level.below(item, entry.path);
            let inside = ancestors.push(is_last);
            lemma_level_grows(scene, known, below, inside, after);
            lemma_grows_on(scene, known, out, after, scene.level(below, inside, after));
        },
    }
}

/// Whatever lies in a directory, the output only grows with it: what was met and written
/// before is met and written afterwards.
pub proof fn a_level_only_adds(scene: Scene, level: LevelView, ancestors: Seq<bool>, out: Output)
    ensures
        grows(scene, out, scene.level(level, ancestors, out)),
{
    lemma_level_grows(scene, false, level, ancestors, out);
}

/// The same traversal with another limit on the number of entries.
pub open spec fn with_limit(scene: Scene, max_entries: Option<usize>) -> Scene {
    Scene { config: Config { max_entries, ..scene.config }, ..scene }
}

proof fn lemma_limit_lists_the_same(
    config: Config,
    max_entries: Option<usize>,
    parent_matched: bool,
    ignore: IgnoreView,
    items: Seq<DirItem>,
)
    ensures
        listed_items(Config { max_entries, ..config }, parent_matched, ignore, items)
            == listed_items(config, parent_matched, ignore, items),
        reserved_errors(Config { max_entries, ..config }, parent_matched, ignore, items)
            == reserved_errors(config, parent_matched, ignore, items),
    decreases items.len(),
{
    if items.len() > 0 {
        lemma_limit_lists_the_same(config, max_entries, parent_matched, ignore, items.drop_last());
        assert(filter_verdict(
            Config { max_entries, ..config },
            items.last(),
            parent_matched,
            ignore,
        ) == filter_verdict(config, items.last(), parent_matched, ignore));
    }
}

/// Whether output within a limit is counted right: as many entries as were written below the
/// root, and no more than the limit.
pub open spec fn counted(out: Output, max: usize) -> bool {
    out.count <= max && out.written.len() == out.count + 1
}

/// Whether limited output is what the limit leaves of the whole output: all of it, or as
/// much of its start as may be shown. Where nothing fails, there is more of it then.
pub open spec fn is_cut(scene: Scene, limited: Output, whole: Output, max: usize) -> bool {
    &&& counted(limited, max)
    &&& limited.halt is Full ==> {
        &&& limited.count == max
        &&& extends(whole.written, limited.written)
        &&& extends(whole.errors, limited.errors)
        &&& nothing_fails(scene) ==> limited.written.len() < whole.written.len()
    }
    &&& !(limited.halt is Full) ==> limited == whole
}

/// Cut output stays cut when the whole output goes on.
proof fn lemma_cut_on(scene: Scene, limited: Output, whole: Output, further: Output, max: usize)
    requires
        is_cut(scene, limited, whole, max),
        limited.halt is Full,
        grows(scene, whole, further),
    ensures
        is_cut(scene, limited, further, max),
{
    lemma_extends_on(limited.written, whole.written, further.written);
    lemma_extends_on(limited.errors, whole.errors, further.errors);
}

proof fn lemma_emit_cut(scene: Scene, max: usize, entry: EntryView, out: Output)
    requires
        out.halt is No,
        counted(out, max),
        out.count < max,
    ensures
        scene.emit(entry, out) == with_limit(scene, Some(max)).emit(entry, out),
        counted(scene.emit(entry, out), max),
        !(scene.emit(entry, out).halt is Full),
{
}

proof fn lemma_stream_entries_cut(
    scene: Scene,
    max: usize,
    path: FsPath,
    depth: usize,
    streams: Seq<StreamInfo>,
    ancestors: Seq<bool>,
    out: Output,
)
    requires
        scene.config.max_entries is None,
        counted(out, max),
        !(out.halt is Full),
    ensures
        is_cut(
            scene,
            with_limit(scene, Some(max)).stream_entries(path, depth, streams, ancestors, out),
            scene.stream_entries(path, depth, streams, ancestors, out),
            max,
        ),
    decreases streams.len(),
{
    let limited = with_limit(scene, Some(max));
    lemma_grows_itself(scene, out);
    if streams.len() > 0 && out.halt is No {
        let entry = placed(
            stream_entry(path, streams[0], (depth + 1) as usize),
            streams.len() == 1,
            ancestors,
        );
        if limited.is_full(out) {
            let after = scene.emit(entry, out);
            lemma_stream_entries_grow(scene, false, path, depth, streams, ancestors, out);
            lemma_stream_entries_grow(
                scene,
                false,
                path,
                depth,
                streams.skip(1),
                ancestors,
                after,
            );
            assert(nothing_fails(scene) ==> after.written.len() == out.written.len() + 1);
        } else {
            lemma_emit_cut(scene, max, entry, out);
            lemma_stream_entries_cut(
                scene,
                max,
                path,
                depth,
                streams.skip(1),
                ancestors,
                scene.emit(entry, out),
            );
        }
    }
}

proof fn lemma_leaf_entry_cut(
    scene: Scene,
    max: usize,
    level: LevelView,
    entry: EntryView,
    ancestors: Seq<bool>,
    out: Output,
)
    requires
        scene.config.max_entries is None,
        counted(out, max),
        out.count < max,
        out.halt is No,
    ensures
        is_cut(
            scene,
            with_limit(scene, Some(max)).leaf_entry(level, entry, ancestors, out),
            scene.leaf_entry(level, entry, ancestors, out),
            max,
        ),
{
    let after = scene.emit(entry, out);
    lemma_emit_cut(scene, max, entry, out);
    if after.halt is No && scene.config.show_streams {
        lemma_stream_entries_cut(
            scene,
            max,
            entry.path,
            level.depth,
            (scene.world.streams)(entry.path)@,
            ancestors.push(entry.is_last),
            after,
        );
    }
}

proof fn lemma_level_cut(
    scene: Scene,
    max: usize,
    level: LevelView,
    ancestors: Seq<bool>,
    out: Output,
)
    requires
        scene.config.max_entries is None,
        counted(out, max),
        out.halt is No,
    ensures
        is_cut(
            scene,
            with_limit(scene, Some(max)).level(level, ancestors, out),
            scene.level(level, ancestors, out),
            max,
        ),
    decreases MAX_INTERNAL_DEPTH - level.depth, 1nat, 0nat,
{
    let config = scene.config;
    let path = level.path;
    if level.depth < MAX_INTERNAL_DEPTH && !(config.max_depth is Some && level.depth
        > config.max_depth->Some_0) {
        let inside = level.with_rules((scene.world.rules)(path));
        if let ReadDirResult::Entries(items) = (scene.world.list)(path) {
            lemma_limit_lists_the_same(
                config,
                Some(max),
                inside.parent_matched,
                inside.ignore,
                items@,
            );
            let reserved = reserved_errors(
                config,
                inside.parent_matched,
                inside.ignore,
                items@,
            );
            let reported = Output { errors: out.errors + reserved, ..out };
            let listed = listed_items(config, inside.parent_matched, inside.ignore, items@);
            lemma_entries_cut(scene, max, inside, listed, ancestors, reported);
        }
    }
}

/// Where nothing fails, an entry that is come to is written.
proof fn lemma_entry_adds(
    scene: Scene,
    level: LevelView,
    item: DirItem,
    is_last: bool,
    ancestors: Seq<bool>,
    out: Output,
)
    requires
        nothing_fails(scene),
        level.depth < MAX_INTERNAL_DEPTH,
        out.halt is No,
    ensures
        scene.entry(level, item, is_last, ancestors, out).written.len() > out.written.len(),
{
    let world = scene.world;
    assert((world.describe)(item.path, level.depth) is Ok);
    let entry = placed(
        (world.describe)(item.path, level.depth)->Ok_0@,
        is_last,
        ancestors,
    );
    let seen = out.with_visited((world.identity)(entry.path)@);
    let failed = seen.with_error(TreeError::Io(entry.path, IoFault::UnknownVolume));
    lemma_leaf_entry_adds(scene, level, entry, ancestors, out);
    lemma_leaf_entry_adds(scene, level, as_recursive(entry), ancestors, out);
    lemma_leaf_entry_adds(scene, level, entry, ancestors, seen);
    lemma_leaf_entry_adds(scene, level, entry, ancestors, failed);
    assert((world.write)(entry) is Ok);
    lemma_level_grows(
        scene,
        false,
        level.below(item, entry.path),
        ancestors.push(is_last),
        scene.emit(entry, seen),
    );
}

proof fn lemma_leaf_entry_adds(
    scene: Scene,
    level: LevelView,
    entry: EntryView,
    ancestors: Seq<bool>,
    out: Output,
)
    requires
        nothing_fails(scene),
    ensures
        scene.leaf_entry(level, entry, ancestors, out).written.len() > out.written.len(),
{
    assert((scene.world.write)(entry) is Ok);
    lemma_stream_entries_grow(
        scene,
        false,
        entry.path,
        level.depth,
        (scene.world.streams)(entry.path)@,
        ancestors.push(entry.is_last),
        scene.emit(entry, out),
    );
}

proof fn lemma_entries_cut(
    scene: Scene,
    max: usize,
    level: LevelView,
    items: Seq<DirItem>,
    ancestors: Seq<bool>,
    out: Output,
)
    requires
        scene.config.max_entries is None,
        counted(out, max),
        !(out.halt is Full),
        level.depth < MAX_INTERNAL_DEPTH,
    ensures
        is_cut(
            scene,
            with_limit(scene, Some(max)).entries(level, items, ancestors, out),
            scene.entries(level, items, ancestors, out),
            max,
        ),
    decreases MAX_INTERNAL_DEPTH - level.depth, 0nat, items.len() + 1,
{
    let limited = with_limit(scene, Some(max));
    lemma_grows_itself(scene, out);
    if items.len() > 0 && out.halt is No {
        if limited.is_full(out) {
            let is_last = items.len() == 1;
            let after = scene.entry(level, items[0], is_last, ancestors, out);
            lemma_entries_grow(scene, false, level, items, ancestors, out);
            lemma_entries_grow(scene, false, level, items.skip(1), ancestors, after);
            if nothing_fails(scene) {
                lemma_entry_adds(scene, level, items[0], is_last, ancestors, out);
            }
        } else {
            let is_last = items.len() == 1;
            let rest = items.skip(1);
            let cut = limited.entry(level, items[0], is_last, ancestors, out);
            let whole = scene.entry(level, items[0], is_last, ancestors, out);
            lemma_entry_cut(scene, max, level, items[0], is_last, ancestors, out);
            if cut.halt is Full {
                lemma_entries_grow(scene, false, level, rest, ancestors, whole);
                lemma_cut_on(
                    scene,
                    cut,
                    whole,
                    scene.entries(level, rest, ancestors, whole),
                    max,
                );
                assert(limited.entries(level, rest, ancestors, cut) == cut);
            } else {
                lemma_entries_cut(scene, max, level, rest, ancestors, whole);
            }
        }
    }
}

proof fn lemma_entry_cut(
    scene: Scene,
    max: usize,
    level: LevelView,
    item: DirItem,
    is_last: bool,
    ancestors: Seq<bool>,
    out: Output,
)
    requires
        scene.config.max_entries is None,
        counted(out, max),
        out.count < max,
        out.halt is No,
        level.depth < MAX_INTERNAL_DEPTH,
    ensures
        is_cut(
            scene,
            with_limit(scene, Some(max)).entry(level, item, is_last, ancestors, out),
            scene.entry(level, item, is_last, ancestors, out),
            max,
        ),
    decreases MAX_INTERNAL_DEPTH - level.depth, 0nat, 0nat,
{
    let world = scene.world;
    let limited = with_limit(scene, Some(max));
    if let Ok(described) = (world.describe)(item.path, level.depth) {
        let entry = placed(described@, is_last, ancestors);
        let lead = lead_of(entry.entry_type, scene.config);
        assert(lead_of(entry.entry_type, limited.config) == lead);
        let leads_on = lead is Yes || (lead is Link && (world.is_dir)(entry.path));
        let key = (world.identity)(entry.path)@;
        let seen = out.with_visited(key);
        if !leads_on {
            lemma_leaf_entry_cut(scene, max, level, entry, ancestors, out);
        } else if out.visited.contains(key) {
            lemma_leaf_entry_cut(scene, max, level, as_recursive(entry), ancestors, out);
        } else {
            match boundary_verdict(scene.root_device, (world.volume)(entry.path)) {
                OnefsCheck::DifferentDevice => {
                    lemma_leaf_entry_cut(scene, max, level, entry, ancestors, seen);
                },
                OnefsCheck::Unknown => {
                    let error = TreeError::Io(entry.path, IoFault::UnknownVolume);
                    lemma_leaf_entry_cut(
                        scene,
                        max,
                        level,
                        entry,
                        ancestors,
                        seen.with_error(error),
                    );
                },
                OnefsCheck::Proceed => {
                    let after = scene.emit(entry, seen);
                    lemma_emit_cut(scene, max, entry, seen);
                    if after.halt is No {
                        lemma_level_cut(
                            scene,
                            max,
                            level.below(item, entry.path),
                            ancestors.push(is_last),
                            after,
                        );
                    }
                },
            }
        }
    }
}

/// A limit on the number of entries only cuts the output: a streaming traversal with a limit
/// writes what it would write without, or as many entries below the root as may be shown and
/// then stops.
pub proof fn limit_only_cuts_the_output(
    scene: Scene,
    max: usize,
    root: FsPath,
    ignore: IgnoreView,
)
    ensures
        ({
            let limited = with_limit(scene, Some(max)).streamed(root, ignore);
            let whole = with_limit(scene, None).streamed(root, ignore);
            &&& limited.count <= max
            &&& extends(whole.written, limited.written)
            &&& limited.halt is Full ==> limited.written.len() == max + 1
            &&& !(limited.halt is Full) ==> limited == whole
        }),
{
    let free = with_limit(scene, None);
    let limited = with_limit(scene, Some(max));
    assert(with_limit(free, Some(max)) == limited);
    let whole = free.streamed(root, ignore);
    lemma_extends_itself(whole.written);
    if let Ok(entry) = (scene.world.stat)(root, 0) {
        if (scene.world.write)(entry@) is Ok {
            let begun = Output {
                errors: Seq::empty(),
                visited: Set::empty().insert((scene.world.identity)(root)@),
                written: seq![entry@],
                count: 0,
                halt: Halt::No,
            };
            let started = match boundary_error(scene.config, root, scene.root_device) {
                Some(error) => begun.with_error(error),
                None => begun,
            };
            let level = LevelView { path: root, depth: 1, parent_matched: false, ignore };
            lemma_level_cut(free, max, level, Seq::empty(), started);
            assert(limited.streamed(root, ignore) == limited.level(level, Seq::empty(), started));
            assert(whole == free.level(level, Seq::empty(), started));
        }
    }
}

/// Where nothing fails, a limit leaves exactly the root and as many entries below it as may
/// be shown. The output is cut short exactly if there are more: output that reaches the limit
/// without exceeding it is not.
pub proof fn only_output_beyond_the_limit_is_cut(
    scene: Scene,
    max: usize,
    root: FsPath,
    ignore: IgnoreView,
)
    requires
        nothing_fails(scene),
        (scene.world.stat)(root, 0) is Ok,
    ensures
        ({
            let limited = with_limit(scene, Some(max)).streamed(root, ignore);
            let whole = with_limit(scene, None).streamed(root, ignore);
            &&& whole.halt is No
            &&& limited.halt !is Failed
            &&& limited.halt is Full == (whole.written.len() > max + 1)
            &&& limited.written == if whole.written.len() > max + 1 {
                whole.written.take(max + 1)
            } else {
                whole.written
            }
        }),
{
    let free = with_limit(scene, None);
    let limited = with_limit(scene, Some(max));
    assert(with_limit(free, Some(max)) == limited);
    assert(nothing_fails(free) && nothing_fails(limited));
    let entry = (scene.world.stat)(root, 0)->Ok_0;
    assert((scene.world.write)(entry@) is Ok);
    let begun = Output {
        errors: Seq::empty(),
        visited: Set::empty().insert((scene.world.identity)(root)@),
        written: seq![entry@],
        count: 0,
        halt: Halt::No,
    };
    let started = match boundary_error(scene.config, root, scene.root_device) {
        Some(error) => begun.with_error(error),
        None => begun,
    };
    let level = LevelView { path: root, depth: 1, parent_matched: false, ignore };
    lemma_level_cut(free, max, level, Seq::empty(), started);
    lemma_level_grows(free, false, level, Seq::empty(), started);
    assert(limited.streamed(root, ignore) == limited.level(level, Seq::empty(), started));
    assert(free.streamed(root, ignore) == free.level(level, Seq::empty(), started));
}

/// No entry that a streaming traversal writes lies deeper than the depth limit allows, the
/// one of the options or the internal one.
pub proof fn output_stays_within_the_depth_limit(
    scene: Scene,
    root: FsPath,
    ignore: IgnoreView,
    index: int,
)
    requires
        1 <= index < scene.streamed(root, ignore).written.len(),
    ensures
        scene.streamed(root, ignore).written[index].ancestors_last.len() < deepest(scene.config),
{
    if let Ok(entry) = (scene.world.stat)(root, 0) {
        if (scene.world.write)(entry@) is Ok {
            let begun = Output {
                errors: Seq::empty(),
                visited: Set::empty().insert((scene.world.identity)(root)@),
                written: seq![entry@],
                count: 0,
                halt: Halt::No,
            };
            let started = match boundary_error(scene.config, root, scene.root_device) {
                Some(error) => begun.with_error(error),
                None => begun,
            };
            let level = LevelView { path: root, depth: 1, parent_matched: false, ignore };
            lemma_level_grows(scene, true, level, Seq::empty(), started);
            assert(scene.streamed(root, ignore) == scene.level(level, Seq::empty(), started));
        }
    }
}

} // verus!
